use music_library::album_program::{Program, Programs, RecordingStatus};
use music_library::domain::{ExternalIdentity, TrackId};
use music_library::edition::{RecordingEvidence, TrackEvidence};
use music_library::manual_track::{candidates, confirmation, Association, Candidate, Confirmation};

fn id(kind: &str, value: &str) -> ExternalIdentity {
    ExternalIdentity {
        provider: "musicbrainz".into(),
        kind: kind.into(),
        external_id: value.into(),
    }
}

fn track(
    title: Option<&str>,
    number: u32,
    recordings: &[&str],
    occurrences: &[&str],
    isrcs: &[&str],
) -> TrackEvidence {
    TrackEvidence {
        identities: occurrences.iter().map(|o| id("track", o)).collect(),
        disc: Some(1),
        number: Some(number),
        title: title.map(|t| t.to_string()),
        artists: vec![],
        duration_ms: None,
        recording: RecordingEvidence {
            identities: recordings.iter().map(|r| id("recording", r)).collect(),
            isrcs: isrcs.iter().map(|i| i.to_string()).collect(),
        },
    }
}

fn programs(list: Vec<Vec<TrackEvidence>>) -> Programs {
    Programs {
        album: id("release_group", "g"),
        programs: list
            .into_iter()
            .map(|tracks| Program { identity: None, tracks, complete: true })
            .collect(),
        note: "Sampled.".into(),
    }
}

fn titles(cs: &[Candidate]) -> Vec<Option<String>> {
    cs.iter().map(|c| c.evidence.title.clone()).collect()
}

#[test]
fn shared_recording_identity_merges_programs_and_gathers_identities() {
    let ps = programs(vec![
        vec![track(Some("Song"), 1, &["r1"], &["t-a"], &["ISRC1"])],
        vec![track(Some("Song"), 1, &["r1"], &["t-b", "t-a"], &["ISRC2", "ISRC1"])],
    ]);
    let cs = candidates(&ps);
    assert_eq!(cs.len(), 1);
    assert_eq!(cs[0].supporting_programs, 2);
    assert_eq!(cs[0].evidence.identities, vec![id("track", "t-a"), id("track", "t-b")]);
    assert_eq!(cs[0].evidence.recording.isrcs, vec!["ISRC1".to_string(), "ISRC2".to_string()]);
    assert_eq!(cs[0].evidence.recording.identities, vec![id("recording", "r1")]);
}

#[test]
fn recording_identity_sets_group_regardless_of_order_and_repeats() {
    let ps = programs(vec![
        vec![track(Some("Song"), 1, &["r2", "r1", "r1"], &[], &[])],
        vec![track(Some("Song"), 1, &["r1", "r2"], &[], &[])],
        vec![track(Some("Song"), 1, &["r1"], &[], &[])],
    ]);
    let cs = candidates(&ps);
    assert_eq!(cs.len(), 2);
    let supports: Vec<usize> = cs.iter().map(|c| c.supporting_programs).collect();
    // Equal placing: the key of the identity set {r1} sorts before {r1, r2}.
    assert_eq!(supports, vec![1, 2]);
    assert_eq!(cs[0].evidence.recording.identities, vec![id("recording", "r1")]);
}

#[test]
fn text_alone_never_merges_candidates() {
    let ps = programs(vec![
        vec![track(Some("Song"), 1, &[], &[], &[])],
        vec![track(Some("Song"), 1, &[], &[], &[])],
        vec![track(Some("Song"), 1, &["r1"], &[], &[]), track(Some("Song"), 2, &["r2"], &[], &[])],
    ]);
    let cs = candidates(&ps);
    assert_eq!(cs.len(), 4);
    assert!(cs.iter().all(|c| c.supporting_programs == 1));
    // Track 1 three times: recording-keyed first, then the unidentified ones
    // in program order; track 2 last.
    assert_eq!(cs[0].evidence.recording.identities, vec![id("recording", "r1")]);
    assert!(cs[1].evidence.recording.identities.is_empty());
    assert!(cs[2].evidence.recording.identities.is_empty());
    assert_eq!(cs[3].evidence.number, Some(2));
}

#[test]
fn occurrence_identities_group_when_no_recording_is_known() {
    let ps = programs(vec![
        vec![track(Some("B side"), 2, &[], &["t1"], &["X"])],
        vec![track(Some("A side"), 2, &[], &["t1"], &["Y"])],
        vec![track(Some("Other"), 1, &[], &["t9"], &[])],
    ]);
    let cs = candidates(&ps);
    assert_eq!(cs.len(), 2);
    assert_eq!(titles(&cs), vec![Some("Other".to_string()), Some("A side".to_string())]);
    // The first track in title order leads; the other's ISRC joins.
    assert_eq!(cs[1].supporting_programs, 2);
    assert_eq!(cs[1].evidence.recording.isrcs, vec!["Y".to_string(), "X".to_string()]);
}

#[test]
fn listing_orders_by_disc_number_title_and_duration() {
    let mut a = track(Some("Zed"), 3, &["ra"], &[], &[]);
    a.disc = Some(2);
    let b = track(Some("Beta"), 3, &["rb"], &[], &[]);
    let c = track(Some("Alpha"), 3, &["rc"], &[], &[]);
    let mut d = track(None, 1, &["rd"], &[], &[]);
    d.disc = None;
    let mut e = track(Some("Alpha"), 3, &["re"], &[], &[]);
    e.duration_ms = Some(1000);
    let mut f = track(Some("Alpha"), 3, &["rf"], &[], &[]);
    f.duration_ms = Some(500);
    let ps = programs(vec![vec![a, b, c, d, e, f]]);
    let cs = candidates(&ps);
    let ids: Vec<String> = cs
        .iter()
        .map(|c| c.evidence.recording.identities[0].external_id.clone())
        .collect();
    assert_eq!(ids, vec!["rd", "rc", "rf", "re", "rb", "ra"]);
}

#[test]
fn untitled_member_leads_its_group() {
    let ps = programs(vec![
        vec![track(Some("Named"), 1, &["r1"], &["t-named"], &[])],
        vec![track(None, 1, &["r1"], &["t-untitled"], &[])],
    ]);
    let cs = candidates(&ps);
    assert_eq!(cs.len(), 1);
    assert_eq!(cs[0].evidence.title, None);
    assert_eq!(cs[0].evidence.identities, vec![id("track", "t-untitled"), id("track", "t-named")]);
}

#[test]
fn no_programs_give_no_candidates() {
    assert!(candidates(&programs(vec![])).is_empty());
    assert!(candidates(&programs(vec![vec![], vec![]])).is_empty());
}

#[test]
fn confirmed_association_matches_without_edition_claim() {
    let evidence = track(Some("Song"), 1, &["r1"], &["t1"], &[]);
    let association = Association {
        track_id: TrackId("t".into()),
        album: id("release_group", "g"),
        candidate: Candidate { evidence, supporting_programs: 1 },
    };
    let m = association.matched();
    assert_eq!(m.title, "Song");
    assert_eq!(m.recording_status, RecordingStatus::Identified);
    assert_eq!(m.occurrences, vec![id("track", "t1")]);
    assert_eq!(
        m.explanation,
        "Explicit user confirmation within the known Album; no exact edition claim"
    );
    let bare = Association {
        track_id: TrackId("t".into()),
        album: id("release_group", "g"),
        candidate: Candidate { evidence: track(None, 1, &[], &[], &[]), supporting_programs: 1 },
    };
    assert_eq!(bare.matched().title, "");
    assert_eq!(bare.matched().recording_status, RecordingStatus::NotProvided);
}

#[test]
fn confirmations_are_refused_on_contradictions() {
    let ids = vec![id("recording", "r1")];
    assert_eq!(
        confirmation(2, 2, None, &ids, &vec![]),
        Confirmation::Refused("Select a candidate before confirming".into())
    );
    assert_eq!(confirmation(2, 0, Some(true), &ids, &vec![]), Confirmation::AlreadyRecorded);
    assert!(matches!(confirmation(2, 0, Some(false), &ids, &vec![]), Confirmation::Refused(m) if m.starts_with("Clear the current manual association first")));
    assert_eq!(confirmation(2, 0, None, &ids, &vec![id("recording", "r1")]), Confirmation::Record);
    assert_eq!(
        confirmation(2, 0, None, &vec![id("recording", "r1"), id("recording", "r2")], &vec![]),
        Confirmation::Refused("Candidate has contradictory Recording identities".into())
    );
    assert!(matches!(confirmation(2, 1, None, &ids, &vec![id("recording", "r9")]), Confirmation::Refused(m) if m.starts_with("Conflicting existing canonical Recording identity")));
}

#[test]
fn candidates_come_in_listing_order_with_support_within_program_count() {
    let ps = programs(vec![
        vec![track(Some("Third"), 3, &["r3"], &[], &[]), track(Some("First"), 1, &["r1"], &[], &[])],
        vec![track(Some("Second"), 2, &[], &["t2"], &[]), track(Some("First"), 1, &["r1"], &[], &[])],
        vec![track(Some("First"), 1, &["r1"], &[], &[])],
    ]);
    let cs = candidates(&ps);
    assert_eq!(
        titles(&cs),
        vec![Some("First".to_string()), Some("Second".to_string()), Some("Third".to_string())]
    );
    let numbers: Vec<Option<u32>> = cs.iter().map(|c| c.evidence.number).collect();
    assert_eq!(numbers, vec![Some(1), Some(2), Some(3)]);
    let support: Vec<usize> = cs.iter().map(|c| c.supporting_programs).collect();
    assert_eq!(support, vec![3, 1, 1]);
    assert!(cs.iter().all(|c| 1 <= c.supporting_programs && c.supporting_programs <= 3));
}
