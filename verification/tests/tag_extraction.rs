use music_library::edition::Completeness;
use music_library::provenance::{completeness, FileProvenance, Origin, Scope, Semantics};
use music_library::tag_identities::{extract, EmbeddedTag, TagField};

fn tag(format: &str, items: &[(TagField, &str)]) -> EmbeddedTag {
    EmbeddedTag {
        format: format.into(),
        items: items.iter().map(|(f, v)| (*f, v.to_string())).collect(),
    }
}

/// The Picard identifiers as a tag reader reports them: the Recording field
/// carries the recording, the Track field the release track.
fn picard(format: &str) -> EmbeddedTag {
    tag(
        format,
        &[
            (TagField::MusicBrainzRecordingId, "recording-id"),
            (TagField::MusicBrainzTrackId, "occurrence-id"),
            (TagField::MusicBrainzReleaseId, "edition-id"),
            (TagField::MusicBrainzReleaseGroupId, "group-id"),
        ],
    )
}

fn check(p: &FileProvenance) {
    for (scope, semantics, value) in [
        (Scope::Recording, Semantics::RecordingIdentity, "recording-id"),
        (Scope::Occurrence, Semantics::OccurrenceIdentity, "occurrence-id"),
        (Scope::Album, Semantics::AlbumIdentity, "group-id"),
        (Scope::Edition, Semantics::EditionIdentity, "edition-id"),
    ] {
        assert!(p.observations.iter().any(|o| o.scope == scope
            && o.semantics == semantics
            && o.identity.external_id == value));
    }
}

#[test]
fn id3_ufid_is_recording_not_release_track() {
    check(&extract(&[picard("Id3v2")]));
}

#[test]
fn vorbis_picard_trackid_is_recording_and_releasetrackid_is_occurrence() {
    check(&extract(&[picard("VorbisComments")]));
}

#[test]
fn mp4_freeform_picard_identifiers_keep_their_semantics() {
    check(&extract(&[picard("Mp4Ilst")]));
}

#[test]
fn explicit_totals_artist_scopes_and_isrc_survive_extraction() {
    let t = tag(
        "VorbisComments",
        &[
            (TagField::TrackNumber, "1"),
            (TagField::TrackTotal, "1"),
            (TagField::DiscNumber, "1"),
            (TagField::DiscTotal, "1"),
            (TagField::MusicBrainzArtistId, "track-artist"),
            (TagField::MusicBrainzReleaseArtistId, "album-artist"),
            (TagField::Isrc, "AAA123"),
        ],
    );
    let p = extract(&[t]);
    assert_eq!(completeness(&[p.positions.clone()]), Completeness::TrustedComplete);
    for scope in [Scope::TrackArtist, Scope::AlbumArtist, Scope::Recording] {
        assert!(p.observations.iter().any(|o| o.scope == scope));
    }
    assert!(p.observations.iter().any(|o| o.semantics == Semantics::Isrc));
}

#[test]
fn observations_follow_the_field_table_and_skip_blank_values() {
    let p = extract(&[
        tag(
            "Id3v2",
            &[
                (TagField::MusicBrainzTrackId, "occ"),
                (TagField::MusicBrainzArtistId, " \t"),
                (TagField::MusicBrainzArtistId, "artist-1"),
                (TagField::Isrc, "ISRC1"),
                (TagField::MusicBrainzArtistId, "artist-2"),
                (TagField::DiscNumber, " "),
            ],
        ),
        tag("VorbisComments", &[(TagField::MusicBrainzReleaseGroupId, "group"), (TagField::DiscNumber, "2")]),
    ]);
    assert_eq!(p.formats, vec!["Id3v2".to_string(), "VorbisComments".to_string()]);
    assert!(p.source_id.is_none() && p.file_type.is_none());
    let seen: Vec<(&str, &str, &str)> = p
        .observations
        .iter()
        .map(|o| (o.identity.provider.as_str(), o.identity.kind.as_str(), o.identity.external_id.as_str()))
        .collect();
    assert_eq!(
        seen,
        vec![
            ("musicbrainz", "artist", "artist-1"),
            ("musicbrainz", "artist", "artist-2"),
            ("musicbrainz", "track", "occ"),
            ("isrc", "recording", "ISRC1"),
            ("musicbrainz", "release_group", "group"),
        ]
    );
    assert_eq!(
        p.observations[0].origin,
        Origin::EmbeddedTag { format: "Id3v2".into(), field: "MusicBrainzArtistId".into() }
    );
    assert_eq!(
        p.observations[4].origin,
        Origin::EmbeddedTag { format: "VorbisComments".into(), field: "MusicBrainzReleaseGroupId".into() }
    );
    assert_eq!(p.positions.disc, vec![" ".to_string(), "2".to_string()]);
    assert!(p.positions.track.is_empty());
}
