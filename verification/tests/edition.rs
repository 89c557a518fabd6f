use music_library::domain::{AlbumId, ExternalIdentity, RecordingId, ReleaseId, TrackId};
use music_library::edition::{
    compare, Assessment, Completeness, EditionCandidate, EditionMetadata, Finding,
    LocalEditionEvidence, LocalTrackEvidence, RecordingEvidence, TrackEvidence,
};

fn id(kind: &str, value: &str) -> ExternalIdentity {
    ExternalIdentity {
        provider: "musicbrainz".into(),
        kind: kind.into(),
        external_id: value.into(),
    }
}

fn metadata(title: &str) -> EditionMetadata {
    EditionMetadata {
        title: Some(title.into()),
        artists: vec![],
        date: None,
        barcodes: vec![],
        labels: vec![],
        country: None,
        media: vec![],
        edition_text: None,
    }
}

fn track(title: &str, number: u32, recording: Option<&str>, duration: Option<u64>) -> TrackEvidence {
    TrackEvidence {
        identities: vec![],
        disc: Some(1),
        number: Some(number),
        title: Some(title.into()),
        artists: vec![],
        duration_ms: duration,
        recording: RecordingEvidence {
            identities: recording.map(|r| vec![id("recording", r)]).unwrap_or_default(),
            isrcs: vec![],
        },
    }
}

fn local(tracks: Vec<TrackEvidence>, exact: Vec<ExternalIdentity>, completeness: Completeness) -> LocalEditionEvidence {
    LocalEditionEvidence {
        album_id: AlbumId("album".into()),
        release_id: ReleaseId("release".into()),
        album_title: "Album".into(),
        grouping_identities: vec![id("release_group", "g")],
        identities: vec![],
        exact_identities: exact,
        metadata: metadata("Album"),
        tracks: tracks
            .into_iter()
            .enumerate()
            .map(|(i, evidence)| LocalTrackEvidence {
                track_id: TrackId(format!("t{i}")),
                recording_id: RecordingId(format!("r{i}")),
                evidence,
            })
            .collect(),
        completeness,
    }
}

fn candidate(value: &str, tracks: Vec<TrackEvidence>, exact: Vec<ExternalIdentity>) -> EditionCandidate {
    EditionCandidate {
        identity: id("release", value),
        exact_identities: exact,
        grouping: Some(id("release_group", "g")),
        metadata: metadata("Album"),
        tracks,
        tracklist_complete: true,
    }
}

#[test]
fn complete_matching_content_is_equivalent_not_exact() {
    let tracks = || vec![track("One", 1, None, Some(100_000)), track("Two", 2, None, None)];
    let l = local(tracks(), vec![], Completeness::TrustedComplete);
    let report = compare(&l, &[candidate("a", tracks(), vec![])], true);
    assert_eq!(report.assessment, Assessment::ContentEquivalent);
    assert_eq!(report.candidates[0].supported_tracks, 2);
    assert!(report.candidates[0].findings.contains(&Finding::GroupingSupport));
    assert!(report.candidates_complete);
    let incomplete = compare(&l, &[candidate("a", tracks(), vec![])], false);
    assert_eq!(incomplete.assessment, Assessment::Ambiguous);
}

#[test]
fn exact_identity_decides_unless_contradicted() {
    let tracks = || vec![track("One", 1, None, None)];
    let exact = vec![id("release", "x")];
    let l = local(tracks(), exact.clone(), Completeness::Unknown);
    let report = compare(&l, &[candidate("x", tracks(), exact.clone()), candidate("y", tracks(), vec![])], false);
    assert_eq!(report.assessment, Assessment::ExactEdition);
    assert_eq!(report.candidates[1].assessment, Assessment::AlbumOnly);
    let other = vec![id("release", "z")];
    let report = compare(&l, &[candidate("z", tracks(), other)], false);
    assert_eq!(report.assessment, Assessment::Contradictory);
}

#[test]
fn order_and_count_conflicts_contradict() {
    let l = local(
        vec![track("One", 1, None, None), track("Two", 2, None, None)],
        vec![],
        Completeness::TrustedComplete,
    );
    let swapped = candidate("s", vec![track("Two", 1, None, None), track("One", 2, None, None)], vec![]);
    let report = compare(&l, &[swapped], true);
    assert_eq!(report.candidates[0].assessment, Assessment::Contradictory);
    assert!(report.candidates[0].tracks[0].findings.contains(&Finding::OrderConflict));
    let shorter = candidate("c", vec![track("One", 1, None, None)], vec![]);
    let report = compare(&l, &[shorter], true);
    assert!(report.candidates[0].findings.contains(&Finding::TrackCountConflict));
}

#[test]
fn durations_defer_to_recording_identity() {
    let l = local(vec![track("One", 1, Some("r"), Some(100_000))], vec![], Completeness::TrustedComplete);
    let same = candidate("a", vec![track("Uno", 1, Some("r"), Some(200_000))], vec![]);
    let report = compare(&l, &[same], true);
    let t = &report.candidates[0].tracks[0];
    assert!(t.findings.contains(&Finding::DurationConflict));
    assert!(t.supported && !t.contradiction);
    let unidentified = local(vec![track("One", 1, None, Some(100_000))], vec![], Completeness::TrustedComplete);
    let far = candidate("b", vec![track("One", 1, None, Some(200_000))], vec![]);
    let report = compare(&unidentified, &[far], true);
    assert!(report.candidates[0].tracks[0].contradiction);
}

#[test]
fn unknown_positions_are_reported_when_the_program_is_not_trusted() {
    let mut t = track("One", 1, None, None);
    t.number = None;
    let l = local(vec![t], vec![], Completeness::Unknown);
    let report = compare(&l, &[candidate("a", vec![track("One", 1, None, None)], vec![])], true);
    assert!(report.candidates[0].tracks[0].findings.contains(&Finding::PositionUnknown));
    assert_eq!(report.candidates[0].tracks[0].candidate_index, None);
    assert_eq!(report.assessment, Assessment::AlbumOnly);
}
