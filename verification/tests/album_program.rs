use music_library::album_candidates::{fit, required_tracks, Fit};
use music_library::album_program::{
    compare, compare_album, comparison_title, program_fit, selected_programs, Program, Programs,
    RecordingStatus, TrackOutcome,
};
use music_library::domain::{ExternalIdentity, RecordingId, TrackId};
use music_library::edition::{LocalTrackEvidence, RecordingEvidence, TrackEvidence};

fn id(kind: &str, value: &str) -> ExternalIdentity {
    ExternalIdentity {
        provider: "musicbrainz".into(),
        kind: kind.into(),
        external_id: value.into(),
    }
}

fn evidence(title: &str, disc: Option<u32>, number: Option<u32>, recording: &[&str]) -> TrackEvidence {
    TrackEvidence {
        identities: vec![],
        disc,
        number,
        title: Some(title.into()),
        artists: vec![],
        duration_ms: None,
        recording: RecordingEvidence {
            identities: recording.iter().map(|r| id("recording", r)).collect(),
            isrcs: vec![],
        },
    }
}

fn local(title: &str, number: u32) -> LocalTrackEvidence {
    LocalTrackEvidence {
        track_id: TrackId(format!("t{number}")),
        recording_id: RecordingId(format!("r{number}")),
        evidence: evidence(title, Some(1), Some(number), &[]),
    }
}

fn programs(list: Vec<Vec<TrackEvidence>>) -> Programs {
    Programs {
        album: id("release_group", "g"),
        programs: list
            .into_iter()
            .map(|tracks| Program { identity: None, tracks, complete: true })
            .collect(),
        note: "Sampled.".into(),
    }
}

#[test]
fn comparison_titles_keep_words_and_spell_ampersands() {
    assert_eq!(comparison_title("  Rock & Roll!! (Live) "), "rock and roll live");
    assert_eq!(comparison_title("AC/DC"), "ac dc");
    assert_eq!(comparison_title("..."), "");
    assert_eq!(comparison_title("Tom&Jerry"), "tom&jerry");
}

#[test]
fn one_program_track_matches_and_carries_its_recording() {
    let p = programs(vec![vec![evidence("One", Some(1), Some(1), &["x"]), evidence("Two", Some(1), Some(2), &["y"])]]);
    match compare(&local("one", 1), &p) {
        TrackOutcome::Matched(m) => {
            assert_eq!(m.title, "One");
            assert_eq!(m.recording.identities, vec![id("recording", "x")]);
            assert_eq!(m.recording_status, RecordingStatus::Identified);
        }
        other => panic!("unexpected outcome {other:?}"),
    }
    assert_eq!(compare(&local("Three", 3), &p), TrackOutcome::NoConfidentMatch);
    let mut incomplete = programs(vec![vec![evidence("One", Some(1), Some(1), &["x"])]]);
    incomplete.programs[0].complete = false;
    assert_eq!(compare(&local("One", 1), &incomplete), TrackOutcome::NoConfidentMatch);
}

#[test]
fn contradicting_recordings_and_duplicates_are_not_confident() {
    let mut l = local("One", 1);
    l.evidence.recording.identities = vec![id("recording", "mine")];
    let p = programs(vec![vec![evidence("One", Some(1), Some(1), &["theirs"])]]);
    assert_eq!(compare(&l, &p), TrackOutcome::ConflictingIdentity);
    let twice = programs(vec![vec![evidence("One", Some(1), Some(1), &[]), evidence("One", Some(1), Some(1), &[])]]);
    assert_eq!(compare(&local("One", 1), &twice), TrackOutcome::Ambiguous);
}

#[test]
fn album_comparison_uses_the_programs_that_fit_best() {
    let tracks = vec![local("One", 1), local("Two", 2), local("Three", 3)];
    let good = vec![
        evidence("One", Some(1), Some(1), &["x"]),
        evidence("Two", Some(1), Some(2), &["y"]),
        evidence("Three", Some(1), Some(3), &["z"]),
    ];
    let poor = vec![
        evidence("Uno", Some(1), Some(1), &[]),
        evidence("Dos", Some(1), Some(2), &[]),
        evidence("Tres", Some(1), Some(3), &[]),
    ];
    let p = programs(vec![poor, good]);
    assert_eq!(selected_programs(&tracks, &p), vec![1]);
    let fit_of_good = program_fit(&tracks, &p.programs[1]);
    assert_eq!(fit_of_good.unmatched, 0);
    assert_eq!(fit_of_good.exact_positions, 3);
    assert_eq!(program_fit(&tracks, &p.programs[0]).unmatched, 3);
    let outcomes = compare_album(&tracks, &p);
    assert_eq!(outcomes.len(), 3);
    assert!(matches!(&outcomes[1], TrackOutcome::Matched(m) if m.title == "Two"));
    let two_tracks = vec![local("One", 1), local("Two", 2)];
    assert_eq!(selected_programs(&two_tracks, &p), vec![0, 1]);
}

#[test]
fn required_tracks_is_a_lower_bound_without_double_counting() {
    let tracks = vec![local("One", 1), local("One again", 1), local("Five", 5)];
    assert_eq!(required_tracks(&tracks), 5);
    let mut untitled = local("Song", 0);
    untitled.evidence.number = None;
    let mut other = local("Other", 0);
    other.evidence.number = None;
    assert_eq!(required_tracks(&[untitled, other, local("One", 1)]), 3);
    assert_eq!(required_tracks(&[]), 0);
}

#[test]
fn programs_fit_unless_they_cannot_explain_the_tracks() {
    let tracks = vec![local("One", 1), local("Two", 2)];
    let good = vec![evidence("One", Some(1), Some(1), &[]), evidence("Two", Some(1), Some(2), &[])];
    assert_eq!(fit(&tracks, &programs(vec![good])), Fit::Supported);
    let short = vec![evidence("One", Some(1), Some(1), &[])];
    assert_eq!(
        fit(&tracks, &programs(vec![short])),
        Fit::Rejected("program cannot contain present positions/Tracks")
    );
    let unrelated = vec![evidence("Uno", Some(2), Some(5), &[]), evidence("Dos", Some(2), Some(6), &[])];
    assert_eq!(
        fit(&tracks, &programs(vec![unrelated])),
        Fit::Rejected("at least two present Tracks cannot be explained")
    );
    assert_eq!(fit(&tracks, &programs(vec![])), Fit::Uncertain);
}
