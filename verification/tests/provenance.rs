use music_library::domain::ExternalIdentity;
use music_library::edition::Completeness;
use music_library::provenance::{
    aggregate, completeness, EditionProvenance, FileProvenance, Observation, Origin, Positions,
    Scope, Semantics,
};

fn observation(scope: Scope, semantics: Semantics, provider: &str, kind: &str, value: &str) -> Observation {
    Observation {
        identity: ExternalIdentity {
            provider: provider.into(),
            kind: kind.into(),
            external_id: value.into(),
        },
        scope,
        semantics,
        origin: Origin::EmbeddedTag { format: "id3".into(), field: "UFID".into() },
    }
}

fn positions(disc: &str, discs: &str, track: &str, tracks: &str) -> Positions {
    Positions {
        disc: vec![disc.into()],
        discs: vec![discs.into()],
        track: vec![track.into()],
        tracks: vec![tracks.into()],
    }
}

fn file(observations: Vec<Observation>, positions: Positions) -> FileProvenance {
    FileProvenance {
        source_id: None,
        file_type: Some("mp3".into()),
        formats: vec!["id3v2".into()],
        observations,
        positions,
    }
}

#[test]
fn disagreeing_namespace_is_a_conflict_not_a_majority() {
    let obs = vec![
        observation(Scope::Album, Semantics::AlbumIdentity, "musicbrainz", "release_group", "a"),
        observation(Scope::Album, Semantics::AlbumIdentity, "musicbrainz", "release_group", "a"),
        observation(Scope::Album, Semantics::AlbumIdentity, "musicbrainz", "release_group", "b"),
        observation(Scope::Edition, Semantics::EditionIdentity, "musicbrainz", "release", "r"),
    ];
    let result = aggregate(&obs);
    assert_eq!(
        result.consistent,
        vec![observation(Scope::Edition, Semantics::EditionIdentity, "musicbrainz", "release", "r")]
    );
    assert_eq!(result.conflicts.len(), 1);
    assert_eq!(result.conflicts[0].values, vec!["a".to_string(), "b".to_string()]);
    assert_eq!(result.conflicts[0].scope, Scope::Album);
    assert_eq!(result.conflicts[0].kind, "release_group");
}

#[test]
fn several_isrcs_are_supporting_evidence_not_a_conflict() {
    let obs = vec![
        observation(Scope::Recording, Semantics::Isrc, "isrc", "isrc", "USAAA0000001"),
        observation(Scope::Recording, Semantics::Isrc, "isrc", "isrc", "USAAA0000002"),
    ];
    let result = aggregate(&obs);
    assert_eq!(result.consistent.len(), 2);
    assert!(result.conflicts.is_empty());
}

#[test]
fn namespaces_are_grouped_by_scope_semantics_provider_and_kind() {
    let obs = vec![
        observation(Scope::Recording, Semantics::RecordingIdentity, "musicbrainz", "recording", "x"),
        observation(Scope::Occurrence, Semantics::OccurrenceIdentity, "musicbrainz", "track", "y"),
        observation(Scope::Recording, Semantics::RecordingIdentity, "other", "recording", "z"),
        observation(Scope::Recording, Semantics::RecordingIdentity, "musicbrainz", "recording", "x"),
    ];
    let result = aggregate(&obs);
    assert!(result.conflicts.is_empty());
    assert_eq!(result.consistent.len(), 4);
    assert_eq!(result.consistent[1].identity.external_id, "x");
    assert_eq!(result.consistent[2].identity.external_id, "y");
}

#[test]
fn declared_positions_must_fill_their_program() {
    let complete = vec![
        positions("1", "1", "1", "2"),
        positions("1", "1", "2", "2"),
    ];
    assert_eq!(completeness(&complete), Completeness::TrustedComplete);
    let missing = vec![positions("1", "1", "1", "3"), positions("1", "1", "2", "3")];
    assert_eq!(completeness(&missing), Completeness::Unknown);
    let duplicate = vec![positions("1", "1", "1", "2"), positions("1", "1", "1", "2")];
    assert_eq!(completeness(&duplicate), Completeness::Unknown);
    let two_discs = vec![
        positions("1", "2", "1", "1"),
        positions(" 2 ", "2", "1", "1"),
    ];
    assert_eq!(completeness(&two_discs), Completeness::TrustedComplete);
    let disagreeing_totals = vec![positions("1", "2", "1", "1"), positions("2", "3", "1", "1")];
    assert_eq!(completeness(&disagreeing_totals), Completeness::Unknown);
    assert_eq!(completeness(&[]), Completeness::Unknown);
    let zero = vec![positions("0", "1", "1", "1")];
    assert_eq!(completeness(&zero), Completeness::Unknown);
}

#[test]
fn repeated_declarations_must_agree() {
    let p = Positions {
        disc: vec!["1".into(), "01".into()],
        discs: vec!["1".into()],
        track: vec!["3".into(), "4".into()],
        tracks: vec!["9".into()],
    };
    assert!(!p.agrees_with(Some(1), Some(3)));
    let q = positions("1", "1", "3", "9");
    assert!(q.agrees_with(Some(1), Some(3)));
    assert!(!q.agrees_with(Some(1), None));
    assert_eq!(completeness(&[p]), Completeness::Unknown);
}

#[test]
fn edition_provenance_splits_scopes_and_needs_one_source_per_track() {
    let album = || observation(Scope::Album, Semantics::AlbumIdentity, "musicbrainz", "release_group", "g");
    let recording = |v: &str| observation(Scope::Recording, Semantics::RecordingIdentity, "musicbrainz", "recording", v);
    let tracks = vec![
        vec![file(vec![album(), recording("r1")], positions("1", "1", "1", "2"))],
        vec![file(vec![album(), recording("r2")], positions("1", "1", "2", "2"))],
    ];
    let edition = EditionProvenance::new(tracks);
    assert_eq!(edition.album_and_edition.consistent.len(), 2);
    assert_eq!(edition.per_track.len(), 2);
    assert_eq!(edition.per_track[1].consistent[0].identity.external_id, "r2");
    assert_eq!(edition.completeness, Completeness::TrustedComplete);

    let two_sources = vec![
        vec![
            file(vec![recording("r1")], positions("1", "1", "1", "1")),
            file(vec![recording("r9")], positions("1", "1", "1", "1")),
        ],
    ];
    let edition = EditionProvenance::new(two_sources);
    assert_eq!(edition.completeness, Completeness::Unknown);
    assert_eq!(edition.per_track[0].conflicts.len(), 1);
}

#[test]
fn file_order_does_not_change_completeness() {
    let make = |order: &[usize]| -> Vec<Positions> {
        let all = [
            ("1", "2", "1", "2"),
            ("1", "2", "2", "2"),
            ("2", "2", "1", "1"),
        ];
        order.iter().map(|&k| positions(all[k].0, all[k].1, all[k].2, all[k].3)).collect()
    };
    for order in [[0, 1, 2], [1, 0, 2], [2, 1, 0], [0, 2, 1]] {
        assert_eq!(completeness(&make(&order)), Completeness::TrustedComplete);
        assert_eq!(completeness(&make(&order[..2])), Completeness::Unknown);
    }
}
