use music_library::album_matching::MatchOutcome;
use music_library::catalog::{ArtistCandidate, CatalogError};
use music_library::domain::{AlbumId, ExternalIdentity};
use music_library::provider_chain::{
    after_attempt, chain_configuration, chain_step, exhaust, gate, new_job, next_job, preferred_attempt, wake, wake_all,
    Attempt, ChainStep, Gate, Job,
};

fn job(album: &str, order: Vec<usize>) -> Job {
    Job {
        album: AlbumId(album.into()),
        order,
        at: 0,
        deferred: vec![],
        pinned: false,
        resolved: false,
    }
}

fn attempt(provider: &str, outcome: MatchOutcome) -> Attempt {
    Attempt { provider: provider.into(), outcome }
}

fn artist() -> ArtistCandidate {
    ArtistCandidate {
        identity: ExternalIdentity {
            provider: "musicbrainz".into(),
            kind: "artist".into(),
            external_id: "a".into(),
        },
        name: "A".into(),
        aliases: vec![],
        comment: String::new(),
        country: String::new(),
        artist_type: String::new(),
        score: None,
    }
}

#[test]
fn manual_choices_then_known_identities_pin_the_provider() {
    let j = new_job(AlbumId("x".into()), &[false, false, false], &[false, false, false]);
    assert_eq!(j.order, vec![0, 1, 2]);
    assert!(!j.pinned && !j.resolved);
    let j = new_job(AlbumId("x".into()), &[false, false, false], &[false, true, true]);
    assert_eq!(j.order, vec![1]);
    assert!(j.pinned && j.resolved);
    let j = new_job(AlbumId("x".into()), &[false, false, true], &[false, true, false]);
    assert_eq!(j.order, vec![2]);
    assert!(j.pinned && !j.resolved);
}

#[test]
fn misses_fall_back_in_order_and_deferrals_are_remembered() {
    let j = job("x", vec![0, 1]);
    let (next, shown) = after_attempt(j, &MatchOutcome::NoConfidentMatch, false);
    let next = next.unwrap();
    assert_eq!((next.at, shown), (1, false));
    let (next, shown) = after_attempt(next, &MatchOutcome::Deferred(CatalogError::Timeout("t".into())), false);
    let next = next.unwrap();
    assert_eq!((next.at, next.deferred.clone(), shown), (2, vec![1], false));
    let mut resolved = job("y", vec![3]);
    resolved.resolved = true;
    let (_, shown) = after_attempt(resolved, &MatchOutcome::Deferred(CatalogError::Timeout("t".into())), false);
    assert!(shown);
    assert_eq!(after_attempt(job("z", vec![0, 1]), &MatchOutcome::AlreadyMatched, false), (None, false));
    assert_eq!(after_attempt(job("z", vec![0, 1]), &MatchOutcome::Skipped, false), (None, false));
    assert_eq!(after_attempt(job("z", vec![0, 1]), &MatchOutcome::NoConfidentMatch, true), (None, false));
}

#[test]
fn the_most_useful_manual_result_is_kept() {
    let attempts = vec![
        attempt("a", MatchOutcome::NoConfidentMatch),
        attempt("b", MatchOutcome::AlbumAmbiguous(vec![])),
        attempt("c", MatchOutcome::ArtistAmbiguous(vec![artist()])),
    ];
    assert_eq!(preferred_attempt(&attempts), Some(2));
    assert_eq!(preferred_attempt(&attempts[..2]), Some(1));
    assert_eq!(preferred_attempt(&attempts[..1]), None);
    let mut done = job("x", vec![0, 1, 2]);
    done.at = 3;
    done.deferred = vec![1];
    let (keep, waiting) = exhaust(done, &attempts);
    assert_eq!(keep, Some(2));
    let waiting = waiting.unwrap();
    assert_eq!((waiting.order.clone(), waiting.at, waiting.deferred.len()), (vec![1], 0, 0));
    let mut pinned = job("y", vec![0]);
    pinned.at = 1;
    pinned.pinned = true;
    assert_eq!(exhaust(pinned, &attempts), (None, None));
}

#[test]
fn a_ready_provider_wakes_waiting_work() {
    let mut waiting = vec![job("a", vec![0]), job("b", vec![2, 1]), job("c", vec![1])];
    let mut queue = vec![job("q", vec![0])];
    wake(&mut waiting, &mut queue, 1);
    assert_eq!(waiting.iter().map(|j| j.album.0.clone()).collect::<Vec<_>>(), vec!["a", "c"]);
    assert_eq!(queue[0].album.0, "b");
    assert_eq!(queue[0].order, vec![1, 2]);
    assert_eq!(queue.len(), 2);
    wake(&mut waiting, &mut queue, 5);
    assert_eq!((waiting.len(), queue.len()), (2, 2));

    let mut waiting = vec![job("a", vec![0]), job("b", vec![1]), job("c", vec![1, 0])];
    let mut queue = vec![];
    wake_all(&mut waiting, &mut queue, 1);
    assert_eq!(queue.iter().map(|j| j.album.0.clone()).collect::<Vec<_>>(), vec!["b", "c"]);
    assert_eq!(waiting.iter().map(|j| j.album.0.clone()).collect::<Vec<_>>(), vec!["a"]);
}

#[test]
fn the_next_job_comes_from_the_queue_or_a_ready_provider() {
    let mut waiting = vec![job("a", vec![0]), job("b", vec![1])];
    let mut queue = vec![];
    assert_eq!(next_job(&mut waiting, &mut queue, &[false, false]), None);
    let next = next_job(&mut waiting, &mut queue, &[false, true]).unwrap();
    assert_eq!(next.album.0, "b");
    assert_eq!(waiting.len(), 1);
    let mut queue = vec![job("q", vec![0])];
    let next = next_job(&mut waiting, &mut queue, &[true, true]).unwrap();
    assert_eq!(next.album.0, "q");
    assert_eq!(waiting.len(), 1);
    assert!(queue.is_empty());
}

#[test]
fn misconfiguration_comes_before_unavailability() {
    assert_eq!(gate(true, true, false), Gate::Misconfigured);
    assert_eq!(gate(false, true, false), Gate::Defer);
    assert_eq!(gate(false, true, true), Gate::Run { probe: true });
    assert_eq!(gate(false, false, false), Gate::Run { probe: false });
}

#[test]
fn each_step_gates_the_next_provider_of_a_job() {
    let attempts = vec![attempt("a", MatchOutcome::AlbumAmbiguous(vec![]))];
    let mis = [true, false, false];
    let unavailable = [false, true, true];
    let ready = [false, false, true];
    match chain_step(job("x", vec![0, 1, 2]), &attempts, &mis, &unavailable, &ready) {
        ChainStep::Misconfigured { slot, job } => assert_eq!((slot, job.at), (0, 1)),
        other => panic!("unexpected step {other:?}"),
    }
    let mut j = job("x", vec![0, 1, 2]);
    j.at = 1;
    j.resolved = true;
    match chain_step(j, &attempts, &mis, &unavailable, &ready) {
        ChainStep::Deferred { slot, already_matched, job } => {
            assert_eq!((slot, already_matched, job.at, job.deferred), (1, true, 2, vec![1]));
        }
        other => panic!("unexpected step {other:?}"),
    }
    let mut j = job("x", vec![0, 1, 2]);
    j.at = 2;
    match chain_step(j, &attempts, &mis, &unavailable, &ready) {
        ChainStep::Run { slot, probe, job } => assert_eq!((slot, probe, job.at), (2, true, 2)),
        other => panic!("unexpected step {other:?}"),
    }
    let mut j = job("x", vec![0, 1, 2]);
    j.at = 3;
    j.deferred = vec![1];
    match chain_step(j, &attempts, &mis, &unavailable, &ready) {
        ChainStep::Exhausted { keep, waiting } => {
            assert_eq!(keep, Some(0));
            assert_eq!(waiting.unwrap().order, vec![1]);
        }
        other => panic!("unexpected step {other:?}"),
    }
}

#[test]
fn a_chain_needs_distinct_providers_that_match_their_scopes() {
    let refused = Err("Configure a nonempty chain of distinct providers".to_string());
    assert_eq!(chain_configuration(&vec![], &[]), refused);
    assert_eq!(chain_configuration(&vec!["musicbrainz".into(), "spotify".into()], &[true, true]), Ok(()));
    assert_eq!(chain_configuration(&vec!["spotify".into(), "spotify".into()], &[true, true]), refused);
    assert_eq!(chain_configuration(&vec!["musicbrainz".into()], &[false]), refused);
}
