use music_library::catalog::Page;
use music_library::domain::{ExternalIdentity, RecordingId, TrackId};
use music_library::recording::{compare, Candidate, LocalTrack, TrackOutcome};

fn id(provider: &str, kind: &str, value: &str) -> ExternalIdentity {
    ExternalIdentity {
        provider: provider.into(),
        kind: kind.into(),
        external_id: value.into(),
    }
}

fn candidate(value: &str, title: &str, artist: &str, duration: Option<u64>) -> Candidate {
    Candidate {
        identity: id("musicbrainz", "recording", value),
        title: title.into(),
        artist: artist.into(),
        artist_ids: vec![],
        duration_ms: duration,
        isrcs: vec![],
    }
}

fn track(title: &str, artist: &str, duration: Option<u64>) -> LocalTrack {
    LocalTrack {
        track_id: TrackId("t".into()),
        recording_id: RecordingId("r".into()),
        title: title.into(),
        artist: artist.into(),
        artist_ids: vec![],
        duration_ms: duration,
        known: false,
    }
}

fn page(items: Vec<Candidate>, next_offset: Option<u32>) -> Page<Candidate> {
    Page { items, next_offset }
}

#[test]
fn one_exact_title_within_tolerance_matches() {
    let t = track("Song", "Band", Some(200_000));
    let p = page(vec![candidate("a", " song ", "band", Some(202_000)), candidate("b", "Other", "Band", None)], None);
    assert_eq!(compare(&t, &p), TrackOutcome::Matched(candidate("a", " song ", "band", Some(202_000))));
}

#[test]
fn durations_artists_and_pages_veto() {
    let t = track("Song", "Band", Some(200_000));
    assert_eq!(compare(&t, &page(vec![candidate("a", "Song", "Band", Some(204_000))], None)), TrackOutcome::NoConfidentMatch);
    assert_eq!(compare(&t, &page(vec![candidate("a", "Song", "Other", None)], None)), TrackOutcome::NoConfidentMatch);
    assert_eq!(compare(&t, &page(vec![candidate("a", "Song", "Band", None)], Some(10))), TrackOutcome::Incomplete);
    let two = page(vec![candidate("a", "Song", "Band", None), candidate("b", "Song", "Band", None)], None);
    assert_eq!(compare(&t, &two), TrackOutcome::Ambiguous);
    let same_twice = page(vec![candidate("a", "Song", "Band", None), candidate("a", "Song", "Band", None)], None);
    assert!(matches!(compare(&t, &same_twice), TrackOutcome::Matched(_)));
    let mut known = track("Song", "Band", None);
    known.known = true;
    assert_eq!(compare(&known, &two), TrackOutcome::AlreadyMatched);
}

#[test]
fn only_musicbrainz_recordings_are_considered() {
    let t = track("Song", "", None);
    let mut other = candidate("a", "Song", "Band", None);
    other.identity = id("spotify", "track", "a");
    assert_eq!(compare(&t, &page(vec![other], None)), TrackOutcome::NoConfidentMatch);
    let mut ids = track("Song", "Band", None);
    ids.artist_ids = vec![id("musicbrainz", "artist", "x")];
    let mut c = candidate("a", "Song", "Different Name", None);
    c.artist_ids = vec![id("musicbrainz", "artist", "x")];
    assert!(matches!(compare(&ids, &page(vec![c], None)), TrackOutcome::Matched(_)));
}
