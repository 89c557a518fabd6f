use music_library::album_candidates::{
    cached_programs, candidate_list, disambiguate, programs_needed, remember_programs, resolve,
    surviving_candidates, CandidatePrograms, PROGRAM_CACHE_SIZE,
};
use std::cell::Cell;
use music_library::album_matching::MatchOutcome;
use music_library::album_program::{Program, Programs, TrackOutcome};
use music_library::catalog::{ArtistAlbumCandidate, CatalogError, Page};
use music_library::domain::{ExternalIdentity, RecordingId, TrackId};
use music_library::edition::{LocalTrackEvidence, RecordingEvidence, TrackEvidence};

fn id(kind: &str, value: &str) -> ExternalIdentity {
    ExternalIdentity {
        provider: "musicbrainz".into(),
        kind: kind.into(),
        external_id: value.into(),
    }
}

fn group(value: &str, title: &str) -> ArtistAlbumCandidate {
    ArtistAlbumCandidate {
        identity: id("release_group", value),
        title: title.into(),
        artist_ids: vec![id("artist", "a1")],
        comment: String::new(),
        date: String::new(),
        primary_type: "Album".into(),
    }
}

fn evidence(title: &str, number: u32) -> TrackEvidence {
    TrackEvidence {
        identities: vec![],
        disc: Some(1),
        number: Some(number),
        title: Some(title.into()),
        artists: vec![],
        duration_ms: None,
        recording: RecordingEvidence { identities: vec![], isrcs: vec![] },
    }
}

fn local(title: &str, number: u32) -> LocalTrackEvidence {
    LocalTrackEvidence {
        track_id: TrackId(format!("t{number}")),
        recording_id: RecordingId(format!("r{number}")),
        evidence: evidence(title, number),
    }
}

fn tracks() -> Vec<LocalTrackEvidence> {
    vec![local("One", 1), local("Two", 2), local("Three", 3)]
}

fn programs(album: &str, titles: &[&str]) -> Programs {
    Programs {
        album: id("release_group", album),
        programs: vec![Program {
            identity: None,
            tracks: titles.iter().enumerate().map(|(i, t)| evidence(t, i as u32 + 1)).collect(),
            complete: true,
        }],
        note: "Sampled.".into(),
    }
}

fn page() -> Page<ArtistAlbumCandidate> {
    Page { items: vec![group("g1", "Album"), group("g2", "Album")], next_offset: None }
}

#[test]
fn open_candidates_follow_the_first_verdict() {
    let artist = id("artist", "a1");
    assert_eq!(candidate_list("Album", &artist, &page(), false), Some(page().items));
    let single = Page { items: vec![group("g1", "Album"), group("g2", "Other")], next_offset: None };
    assert_eq!(candidate_list("Album", &artist, &single, false), Some(vec![group("g1", "Album")]));
    assert_eq!(candidate_list("Nothing Alike", &artist, &single, false), None);
}

#[test]
fn track_counts_drop_candidates_too_small_for_the_local_tracks() {
    let cands = page().items;
    assert_eq!(
        surviving_candidates(&cands, &[Some(2), Some(10)], &tracks()),
        vec![group("g2", "Album")]
    );
    assert_eq!(surviving_candidates(&cands, &[None, Some(3)], &tracks()), cands);
    let artist = id("artist", "a1");
    let outcome = disambiguate("Album", &artist, &page(), false, true, &tracks(), &[Some(2), Some(10)], &[]);
    assert_eq!(outcome, Some(Ok(MatchOutcome::Matched(id("release_group", "g2")))));
}

#[test]
fn programs_are_compared_only_for_a_few_ambiguous_candidates() {
    let artist = id("artist", "a1");
    assert!(programs_needed("Album", &artist, &page(), false, &page().items));
    let open = Page { items: page().items, next_offset: Some(100) };
    assert!(!programs_needed("Album", &artist, &open, false, &page().items));
    let many = vec![group("g1", "Album"), group("g2", "Album"), group("g3", "Album"), group("g4", "Album")];
    assert!(!programs_needed("Album", &artist, &page(), false, &many));
    // Without program support the first verdict stands.
    match disambiguate("Album", &artist, &page(), false, false, &tracks(), &[], &[]) {
        Some(Ok(MatchOutcome::AlbumAmbiguous(v))) => assert_eq!(v.len(), 2),
        other => panic!("unexpected outcome {other:?}"),
    }
}

#[test]
fn one_supported_candidate_with_three_exact_positions_is_accepted() {
    let artist = id("artist", "a1");
    let ps = vec![programs("g1", &["One", "Two", "Three"]), programs("g2", &["Red", "Green", "Blue"])];
    let outcome = disambiguate("Album", &artist, &page(), false, true, &tracks(), &[None, None], &ps);
    assert_eq!(outcome, Some(Ok(MatchOutcome::Matched(id("release_group", "g1")))));
}

#[test]
fn equal_programs_make_representations_equivalent() {
    let artist = id("artist", "a1");
    let ps = vec![programs("g1", &["One", "Two", "Three"]), programs("g2", &["One", "Two", "Three"])];
    match disambiguate("Album", &artist, &page(), false, true, &tracks(), &[None, None], &ps) {
        Some(Ok(MatchOutcome::AlbumEquivalent { candidates, tracks: t })) => {
            assert_eq!(candidates, page().items);
            assert_eq!(t.len(), 3);
            assert_eq!(t[0].0, tracks()[0]);
            match &t[1].1 {
                TrackOutcome::Matched(m) => assert_eq!(m.title, "Two"),
                other => panic!("unexpected track outcome {other:?}"),
            }
        }
        other => panic!("unexpected outcome {other:?}"),
    }
}

#[test]
fn rejected_programs_leave_no_confident_match() {
    let artist = id("artist", "a1");
    let ps = vec![programs("g1", &["Red", "Green", "Blue"]), programs("g2", &["Cyan", "Magenta", "Yellow"])];
    let outcome = disambiguate("Album", &artist, &page(), false, true, &tracks(), &[None, None], &ps);
    assert_eq!(outcome, Some(Ok(MatchOutcome::NoConfidentMatch)));
}

#[test]
fn programs_of_another_album_are_an_error() {
    let artist = id("artist", "a1");
    let ps = vec![programs("g1", &["One", "Two", "Three"]), programs("g9", &["One", "Two", "Three"])];
    let outcome = disambiguate("Album", &artist, &page(), false, true, &tracks(), &[None, None], &ps);
    assert_eq!(
        outcome,
        Some(Err(CatalogError::Other("Candidate programs belong to another Album".into())))
    );
}

#[test]
fn missing_answers_are_refused() {
    let artist = id("artist", "a1");
    assert_eq!(disambiguate("Album", &artist, &page(), false, true, &tracks(), &[None], &[]), None);
    assert_eq!(disambiguate("Album", &artist, &page(), false, true, &tracks(), &[None, None], &[]), None);
}

#[test]
fn the_program_cache_keeps_the_latest_four() {
    let mut cache: Vec<Programs> = vec![];
    for k in 0..6 {
        remember_programs(&mut cache, programs(&format!("g{k}"), &["One"]));
        assert!(cache.len() <= PROGRAM_CACHE_SIZE);
    }
    assert_eq!(cache.len(), 4);
    assert_eq!(cached_programs(&cache, &id("release_group", "g1")), None);
    assert_eq!(cached_programs(&cache, &id("release_group", "g2")), Some(0));
    assert_eq!(cached_programs(&cache, &id("release_group", "g5")), Some(3));
}

struct Fake {
    supported: bool,
    counts: Cell<usize>,
    fetched: Vec<String>,
    programs: Vec<Programs>,
}

impl CandidatePrograms for Fake {
    fn album_candidate_programs(&self) -> bool {
        self.supported
    }
    fn album_candidate_track_count(&self, _album: &ExternalIdentity) -> Option<u32> {
        self.counts.set(self.counts.get() + 1);
        None
    }
    fn album_programs(&mut self, album: &ExternalIdentity) -> Result<Programs, CatalogError> {
        self.fetched.push(album.external_id.clone());
        if self.programs.is_empty() {
            Err(CatalogError::Timeout("slow".into()))
        } else {
            Ok(self.programs.remove(0))
        }
    }
}

fn fake(supported: bool) -> Fake {
    Fake {
        supported,
        counts: Cell::new(0),
        fetched: vec![],
        programs: vec![programs("g1", &["One", "Two", "Three"]), programs("g2", &["Red", "Green", "Blue"])],
    }
}

#[test]
fn without_program_support_the_first_verdict_stands_and_nothing_more_is_asked() {
    let artist = id("artist", "a1");
    let mut provider = fake(false);
    let mut cache = vec![programs("g9", &["One"])];
    let (outcome, _) = resolve(&mut provider, "Album", &artist, &page(), false, &tracks(), &mut cache);
    assert!(matches!(outcome, Ok(MatchOutcome::AlbumAmbiguous(ref v)) if v.len() == 2));
    assert_eq!(provider.counts.get(), 0);
    assert!(provider.fetched.is_empty());
    assert_eq!(cache.len(), 1);
    let mut provider = fake(true);
    let (outcome, _) = resolve(&mut provider, "Album", &artist, &page(), false, &[], &mut cache);
    assert!(matches!(outcome, Ok(MatchOutcome::AlbumAmbiguous(_))));
    assert_eq!(provider.counts.get(), 0);
}

#[test]
fn programs_are_fetched_once_and_then_reused_from_the_cache() {
    let artist = id("artist", "a1");
    let mut provider = fake(true);
    let mut cache: Vec<Programs> = vec![];
    let (outcome, _) = resolve(&mut provider, "Album", &artist, &page(), false, &tracks(), &mut cache);
    assert_eq!(outcome, Ok(MatchOutcome::Matched(id("release_group", "g1"))));
    assert_eq!(provider.counts.get(), 2);
    assert_eq!(provider.fetched, vec!["g1".to_string(), "g2".to_string()]);
    assert_eq!(cache.len(), 2);
    let (again, _) = resolve(&mut provider, "Album", &artist, &page(), false, &tracks(), &mut cache);
    assert_eq!(again, Ok(MatchOutcome::Matched(id("release_group", "g1"))));
    assert_eq!(provider.fetched.len(), 2);
}

#[test]
fn a_failed_fetch_is_the_result() {
    let artist = id("artist", "a1");
    let mut provider = fake(true);
    provider.programs.clear();
    let mut cache: Vec<Programs> = vec![];
    let (outcome, _) = resolve(&mut provider, "Album", &artist, &page(), false, &tracks(), &mut cache);
    assert_eq!(outcome, Err(CatalogError::Timeout("slow".into())));
    assert_eq!(provider.fetched, vec!["g1".to_string()]);
    assert!(cache.is_empty());
    let mut provider = fake(true);
    provider.programs[1].album = id("release_group", "g9");
    let (outcome, _) = resolve(&mut provider, "Album", &artist, &page(), false, &tracks(), &mut cache);
    assert_eq!(
        outcome,
        Err(CatalogError::Other("Candidate programs belong to another Album".into()))
    );
    assert_eq!(cache.len(), 1);
}
