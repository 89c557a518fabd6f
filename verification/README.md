# music_library

The backend logic of a local music library, written in Verus: every function
in `src/` carries a contract that Verus proves.

- `src/` — the verified library. Text comparison (`text`, `edit`,
  `matching`), catalog data and matching (`catalog`, `album_matching`,
  `album_candidates`, `provider_chain`, `musicbrainz`, `spotify_catalog`),
  program and edition evidence (`album_program`, `album_completion`,
  `edition`, `manual_track`, `recording`, `provenance`,
  `provenance_acceptance`, `tag_identities`), store rules (`storage`,
  `audio_files`) and playback decisions (`playback`, `playback_resolver`,
  `engine_bus`, `completion`, `song_resolution`, `spotify_playback`).
  Laws that relate several operations are public proof functions named
  `lemma_*`.
- `tests/` — tests that run the library on concrete values.
- `app/` — plain Rust around the library: clocks, timing output, the audio
  session gain, filesystem probes and the Spotify reply bodies.

Calls into std and outside crates that Verus cannot read stand behind small
trusted wrappers whose contracts say what the called function documents.
