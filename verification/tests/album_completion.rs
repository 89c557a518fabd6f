use music_library::album_completion::{evidence_current, reply_programs, settle_album, track_artists};
use music_library::album_program::{Input, Outcome, Program, Programs, Reply, TrackOutcome};
use music_library::catalog::CatalogError;
use music_library::domain::{AlbumId, ExternalIdentity, RecordingId, TrackId};
use music_library::edition::{ArtistEvidence, LocalTrackEvidence, RecordingEvidence, TrackEvidence};
use music_library::manual_track::{Association, Candidate};

fn id(provider: &str, kind: &str, value: &str) -> ExternalIdentity {
    ExternalIdentity {
        provider: provider.into(),
        kind: kind.into(),
        external_id: value.into(),
    }
}

fn evidence(title: &str, number: u32, recording: Vec<ExternalIdentity>) -> TrackEvidence {
    TrackEvidence {
        identities: vec![],
        disc: Some(1),
        number: Some(number),
        title: Some(title.into()),
        artists: vec![],
        duration_ms: None,
        recording: RecordingEvidence { identities: recording, isrcs: vec![] },
    }
}

fn local(track: &str, recording: &str, title: &str, number: u32) -> LocalTrackEvidence {
    LocalTrackEvidence {
        track_id: TrackId(track.into()),
        recording_id: RecordingId(recording.into()),
        evidence: evidence(title, number, vec![]),
    }
}

fn album() -> ExternalIdentity {
    id("musicbrainz", "release_group", "g")
}

fn programs(tracks: Vec<TrackEvidence>, complete: bool) -> Programs {
    Programs {
        album: album(),
        programs: vec![Program { identity: None, tracks, complete }],
        note: "Sampled.".into(),
    }
}

fn input(tracks: Vec<LocalTrackEvidence>, conflicts: Vec<TrackId>) -> Input {
    Input {
        album_id: AlbumId("album".into()),
        album: album(),
        tracks,
        artist_conflicts: conflicts,
    }
}

#[test]
fn incomplete_programs_settle_nothing_but_confirmations_stand() {
    let input = input(vec![local("t1", "r1", "One", 1), local("t2", "r2", "Two", 2)], vec![]);
    let p = programs(vec![evidence("One", 1, vec![])], false);
    let manual = vec![Association {
        track_id: TrackId("t2".into()),
        album: album(),
        candidate: Candidate { evidence: evidence("Two", 2, vec![]), supporting_programs: 1 },
    }];
    let results = settle_album(&input, &p, &manual);
    assert_eq!(results.len(), 2);
    assert_eq!(results[0].0, input.tracks[0].clone());
    assert_eq!(results[0].1, TrackOutcome::NoConfidentMatch);
    match &results[1].1 {
        TrackOutcome::ManuallyMatched(m) => {
            assert_eq!(m.title, "Two");
            assert_eq!(
                m.explanation,
                "Explicit user confirmation within the known Album; no exact edition claim"
            );
        }
        other => panic!("unexpected outcome {other:?}"),
    }
}

#[test]
fn confirmations_for_another_provider_do_not_apply() {
    let input = input(vec![local("t1", "r1", "One", 1)], vec![]);
    let p = programs(vec![evidence("One", 1, vec![])], false);
    let manual = vec![Association {
        track_id: TrackId("t1".into()),
        album: id("spotify", "album", "x"),
        candidate: Candidate { evidence: evidence("One", 1, vec![]), supporting_programs: 1 },
    }];
    let results = settle_album(&input, &p, &manual);
    assert_eq!(results[0].1, TrackOutcome::NoConfidentMatch);
}

#[test]
fn shared_recordings_with_contradictory_claims_conflict() {
    let mb = |v: &str| vec![id("musicbrainz", "recording", v)];
    let p = programs(vec![evidence("One", 1, mb("x1")), evidence("Two", 2, mb("x2"))], true);
    let shared = input(vec![local("t1", "r", "One", 1), local("t2", "r", "Two", 2)], vec![]);
    let results = settle_album(&shared, &p, &[]);
    assert_eq!(results[0].1, TrackOutcome::ConflictingIdentity);
    assert_eq!(results[1].1, TrackOutcome::ConflictingIdentity);
    let separate = input(vec![local("t1", "r1", "One", 1), local("t2", "r2", "Two", 2)], vec![]);
    let results = settle_album(&separate, &p, &[]);
    match &results[0].1 {
        TrackOutcome::Matched(m) => assert_eq!(m.recording.identities, mb("x1")),
        other => panic!("unexpected outcome {other:?}"),
    }
}

#[test]
fn conflicting_artist_metadata_does_not_vote() {
    let p = programs(vec![evidence("One", 1, vec![])], true);
    let conflicted = input(vec![local("t1", "r1", "One", 1)], vec![TrackId("t1".into())]);
    let results = settle_album(&conflicted, &p, &[]);
    assert_eq!(results[0].1, TrackOutcome::NoConfidentMatch);
}

#[test]
fn replies_defer_on_outages_and_refuse_other_albums() {
    let outage = Reply {
        input: input(vec![], vec![]),
        result: Err(CatalogError::Timeout("slow".into())),
    };
    assert_eq!(
        reply_programs(outage).err(),
        Some(Outcome::Deferred(CatalogError::Timeout("slow".into())))
    );
    let refused = Reply {
        input: input(vec![], vec![]),
        result: Err(CatalogError::Other("bad request".into())),
    };
    assert_eq!(reply_programs(refused).err(), Some(Outcome::Error("bad request".into())));
    let mut other = programs(vec![], true);
    other.album = id("musicbrainz", "release_group", "h");
    let wrong = Reply { input: input(vec![], vec![]), result: Ok(other) };
    assert_eq!(
        reply_programs(wrong).err(),
        Some(Outcome::Error("provider returned another Album".into()))
    );
    let right = Reply { input: input(vec![], vec![]), result: Ok(programs(vec![], true)) };
    assert!(reply_programs(right).is_ok());
}

fn artist(name: &str, join: &str, ids: Vec<ExternalIdentity>) -> ArtistEvidence {
    ArtistEvidence { identities: ids, name: name.into(), join_phrase: join.into() }
}

#[test]
fn album_credit_is_reused_only_on_exact_agreement() {
    let album = vec![
        artist("Simon", " & ", vec![id("musicbrainz", "artist", "s")]),
        artist("Garfunkel", "", vec![id("musicbrainz", "artist", "g")]),
    ];
    let (chosen, conflict) = track_artists(&"simon & garfunkel".into(), &vec![], &album);
    assert!(!conflict);
    assert_eq!(chosen.len(), 2);
    assert_eq!(chosen[0].identities, vec![id("musicbrainz", "artist", "s")]);
    let (chosen, _) = track_artists(&"Simon and Garfunkel".into(), &vec![], &album);
    assert_eq!(chosen.len(), 1);
    assert!(chosen[0].identities.is_empty());
    assert_eq!(chosen[0].name, "Simon and Garfunkel");
    let sources = vec![
        vec!["Simon".to_string(), "Garfunkel".to_string()],
        vec!["SIMON".to_string(), "Garfunkel".to_string()],
    ];
    let (chosen, conflict) = track_artists(&String::new(), &sources, &album);
    assert!(conflict);
    assert!(chosen.is_empty());
    let agreeing = vec![sources[0].clone(), sources[0].clone()];
    let (chosen, conflict) = track_artists(&String::new(), &agreeing, &album);
    assert!(!conflict);
    assert_eq!(chosen.len(), 2);
    assert_eq!(chosen[1].identities, vec![id("musicbrainz", "artist", "g")]);
    let (chosen, conflict) = track_artists(&"  ".into(), &sources, &album);
    assert!(!conflict);
    assert!(chosen.is_empty());
}

#[test]
fn changed_local_evidence_is_not_applied() {
    let tracks = vec![local("t1", "r1", "One", 1), local("t2", "r2", "Two", 2)];
    let input = input(tracks.clone(), vec![TrackId("t2".into())]);
    let conflicts = vec![TrackId("t2".into())];
    assert_eq!(evidence_current(&input, true, &tracks, &conflicts), Ok(()));
    let stale = Err(Outcome::Error("local evidence changed; retry enrichment".into()));
    assert_eq!(evidence_current(&input, false, &tracks, &conflicts), stale);
    assert_eq!(evidence_current(&input, true, &tracks, &[]), stale);
    let mut retitled = tracks.clone();
    retitled[1].evidence.title = Some("Two (Live)".into());
    assert_eq!(evidence_current(&input, true, &retitled, &conflicts), stale);
    assert_eq!(evidence_current(&input, true, &tracks[..1], &conflicts), stale);
}
