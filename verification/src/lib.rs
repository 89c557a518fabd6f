//! Frontend-independent backend logic for the music library: text comparison,
//! catalog matching, edition evidence, provenance and playback decisions.
pub mod album_candidates;
pub mod album_completion;
pub mod album_matching;
pub mod album_program;
pub mod audio_files;
pub mod catalog;
pub mod completion;
pub mod domain;
pub mod edit;
pub mod engine_bus;
pub mod edition;
pub mod manual_track;
pub mod matching;
pub mod musicbrainz;
pub mod order;
pub mod playback;
pub mod playback_resolver;
pub mod provenance;
pub mod provider_chain;
pub mod provenance_acceptance;
pub mod recording;
pub mod song_resolution;
pub mod spotify_catalog;
pub mod spotify_playback;
pub mod storage;
pub mod tag_identities;
pub mod text;
