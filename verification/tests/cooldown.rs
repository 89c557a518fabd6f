use music_library::album_matching::{CircuitState, Cooldown, MatchQueue, WorkerTimer, Work};
use music_library::catalog::CatalogError;
use music_library::domain::AlbumId;
use std::time::{Duration, UNIX_EPOCH};

fn unavailable(retry_after: Option<&str>) -> CatalogError {
    CatalogError::ServiceUnavailable {
        message: "MusicBrainz is unavailable".into(),
        retry_after: retry_after.map(str::to_owned),
    }
}

#[test]
fn backoff_caps_resets_and_retry_after_is_bounded() {
    let now: u64 = 1_700_000_000;
    let now_ms = now * 1000;
    let secs = |s: u64| Duration::from_secs(s).as_millis() as u64;
    let mut cooldown = Cooldown::new();
    for expected in [15, 30, 60, 120, 120, 120] {
        assert_eq!(cooldown.arm(&unavailable(None), now_ms).delay, secs(expected));
    }
    cooldown.reset();
    assert_eq!(cooldown.arm(&unavailable(None), now_ms).delay, secs(15));
    for (header, expected) in [
        ("0", 15),
        ("45", 45),
        ("999999999", 120),
        ("broken", 15),
        ("-1", 15),
    ] {
        let mut cooldown = Cooldown::new();
        assert_eq!(cooldown.arm(&unavailable(Some(header)), now_ms).delay, secs(expected));
    }
    let date = httpdate::fmt_http_date(UNIX_EPOCH + Duration::from_secs(now + 80));
    assert_eq!(Cooldown::new().arm(&unavailable(Some(&date)), now_ms).delay, secs(80));
    let past = httpdate::fmt_http_date(UNIX_EPOCH + Duration::from_secs(now - 80));
    assert_eq!(Cooldown::new().arm(&unavailable(Some(&past)), now_ms).delay, secs(15));
}

#[test]
fn a_retry_date_is_waited_for_to_the_millisecond() {
    let now: u64 = 1_700_000_000;
    let date = httpdate::fmt_http_date(UNIX_EPOCH + Duration::from_secs(now + 80));
    assert_eq!(Cooldown::new().arm(&unavailable(Some(&date)), now * 1000 + 500).delay, 79_500);
    assert_eq!(Cooldown::new().arm(&unavailable(Some(&date)), now * 1000 + 70_250).delay, 15_000);
}

#[test]
fn fake_time_emits_once_and_cancel_invalidates_callbacks() {
    let now: u64 = 5_000;
    let mut timer = WorkerTimer(Some((1, now + 15_000)));
    assert_eq!(timer.due(now + 14_000), None);
    assert_eq!(timer.due(now + 15_000), Some(1));
    assert_eq!(timer.due(now + 120_000), None);
    let mut cooldown = Cooldown::new();
    let first = cooldown.arm(&unavailable(None), 1_700_000_000_000);
    cooldown.cancel();
    assert!(cooldown.scheduled().is_none());
    let second = cooldown.arm(&unavailable(None), 1_700_000_000_000);
    assert_ne!(first.token, second.token);
    assert_eq!(second.delay, 30_000);
    timer.0 = Some((second.token, now + second.delay));
    timer.0 = None;
    assert_eq!(timer.due(now + 1_000_000), None);
}

#[test]
fn other_errors_use_the_backoff_alone() {
    let mut cooldown = Cooldown::new();
    let schedule = cooldown.arm(&CatalogError::Timeout("slow".into()), 0);
    assert_eq!(schedule.delay, 15_000);
    assert_eq!(cooldown.scheduled(), Some(schedule));
    let limited = CatalogError::RateLimited {
        status: 429,
        message: "slow down".into(),
        retry_after: Some("100".into()),
    };
    assert_eq!(cooldown.arm(&limited, 0).delay, 30_000);
}

#[test]
fn remaining_time_is_never_negative() {
    let timer = WorkerTimer(Some((7, 1_000)));
    assert_eq!(timer.remaining(400), Some(600));
    assert_eq!(timer.remaining(2_000), Some(0));
    assert_eq!(WorkerTimer(None).remaining(0), None);
}

#[test]
fn work_names_its_album() {
    let album = AlbumId("album-1".into());
    assert_eq!(Work::Album(album.clone()).album_id(), &album);
    assert_eq!(Work::Recordings(album.clone()).album_id(), &album);
}

fn albums(q: &MatchQueue) -> Vec<(bool, String)> {
    q.queue
        .iter()
        .map(|w| match w {
            Work::Album(id) => (true, id.0.clone()),
            Work::Recordings(id) => (false, id.0.clone()),
        })
        .collect()
}

#[test]
fn pending_requests_coalesce() {
    let mut q = MatchQueue::new();
    q.enqueue_album(AlbumId("a".into()));
    q.enqueue_album(AlbumId("a".into()));
    q.enqueue_recordings(AlbumId("b".into()));
    q.enqueue_album(AlbumId("b".into()));
    q.enqueue_recordings(AlbumId("a".into()));
    q.enqueue_recordings(AlbumId("a".into()));
    assert_eq!(
        albums(&q),
        vec![(true, "a".into()), (false, "b".into()), (false, "a".into())]
    );
    assert_eq!(q.pending_count(), 3);
}

#[test]
fn an_outage_opens_the_circuit_until_a_reply_succeeds() {
    let mut q = MatchQueue::new();
    assert!(q.may_dispatch(false));
    q.active = true;
    assert!(!q.may_dispatch(true));
    assert_eq!(q.pending_count(), 1);
    let schedule = q
        .settle(Some(unavailable(Some("45"))), Work::Album(AlbumId("a".into())), 0)
        .unwrap();
    assert_eq!(schedule.delay, 45_000);
    assert!(matches!(q.circuit, CircuitState::Unavailable(_)));
    assert_eq!(albums(&q), vec![(true, "a".into())]);
    assert!(!q.may_dispatch(false));
    assert!(q.may_dispatch(true));
    assert!(q.callback_current(schedule.token));
    assert!(!q.callback_current(schedule.token + 1));
    assert!(q.retry_now());
    assert!(!q.callback_current(schedule.token));
    q.active = true;
    assert!(q.probe_pending());
    assert!(!q.retry_now());
    assert_eq!(q.settle(None, Work::Album(AlbumId("a".into())), 0), None);
    assert_eq!(q.circuit, CircuitState::Available);
    assert!(q.may_dispatch(false));
    assert!(!q.probe_pending());
}
