use music_library::album_matching::{
    accepted_album, accepted_album_confirmed, album_title_variants, close_album_title,
    corroborate_artist_album, eligible_text, matched_album, provider_outcome, resolve_artist,
    matcher_step, starting_artist, AlbumTitleVariant, ArtistCache, MatchInput, MatchOutcome,
    MatcherAction, MatcherEvent, MatcherState,
};
use music_library::domain::{AlbumId, ArtistId};
use music_library::catalog::{ArtistAlbumCandidate, ArtistCandidate, CatalogError, Page};
use music_library::domain::ExternalIdentity;

fn id(kind: &str, value: &str) -> ExternalIdentity {
    ExternalIdentity {
        provider: "musicbrainz".into(),
        kind: kind.into(),
        external_id: value.into(),
    }
}

fn artist(value: &str, name: &str, aliases: &[&str]) -> ArtistCandidate {
    ArtistCandidate {
        identity: id("artist", value),
        name: name.into(),
        aliases: aliases.iter().map(|a| a.to_string()).collect(),
        comment: String::new(),
        country: String::new(),
        artist_type: String::new(),
        score: None,
    }
}

fn group(value: &str, title: &str, artist: &str, primary_type: &str) -> ArtistAlbumCandidate {
    ArtistAlbumCandidate {
        identity: id("release_group", value),
        title: title.into(),
        artist_ids: vec![id("artist", artist)],
        comment: String::new(),
        date: String::new(),
        primary_type: primary_type.into(),
    }
}

#[test]
fn close_titles_allow_one_edit_but_keep_qualifiers() {
    assert!(close_album_title("Acoustic", "Acoustics"));
    assert!(!close_album_title("Echo", "Echos"));
    assert!(!close_album_title("Songs (Live)", "Songs (Love)"));
    assert!(close_album_title("Nevermind", "Nevermine"));
}

#[test]
fn title_variants_strip_trailing_format_tags() {
    assert_eq!(
        album_title_variants("Hello EP"),
        vec![AlbumTitleVariant { title: "hello".into(), requires_ep: true, requires_album: false }]
    );
    assert_eq!(
        album_title_variants("Best Of (Disc 1)"),
        vec![AlbumTitleVariant { title: "best of".into(), requires_ep: false, requires_album: false }]
    );
    assert_eq!(
        album_title_variants("Thing - LP"),
        vec![AlbumTitleVariant { title: "thing".into(), requires_ep: false, requires_album: true }]
    );
    assert!(album_title_variants("EP").is_empty());
    assert!(album_title_variants("Plain").is_empty());
}

#[test]
fn artists_resolve_only_when_unique() {
    let page = Page { items: vec![artist("a", "Hella", &[]), artist("b", "Other", &["Else"])], next_offset: None };
    assert_eq!(resolve_artist("hella", &page), Ok(id("artist", "a")));
    assert_eq!(resolve_artist("else", &page), Ok(id("artist", "b")));
    assert_eq!(resolve_artist("nobody", &page), Err(MatchOutcome::NoConfidentMatch));
    let twins = Page { items: vec![artist("a", "Hella", &[]), artist("b", "Hella", &[])], next_offset: None };
    assert!(matches!(resolve_artist("Hella", &twins), Err(MatchOutcome::ArtistAmbiguous(v)) if v.len() == 2));
    let more = Page { items: vec![artist("a", "Hella", &[])], next_offset: Some(10) };
    assert!(matches!(resolve_artist("Hella", &more), Err(MatchOutcome::ArtistAmbiguous(_))));
}

#[test]
fn albums_are_accepted_exactly_then_structurally_then_closely() {
    let hella = id("artist", "a");
    let page = Page {
        items: vec![group("g1", "Hold Your Horse Is", "a", "Album"), group("g2", "Other", "b", "Album")],
        next_offset: None,
    };
    assert_eq!(accepted_album("hold your horse is", &hella, &page), MatchOutcome::Matched(id("release_group", "g1")));
    assert_eq!(accepted_album("Other", &hella, &page), MatchOutcome::NoConfidentMatch);
    let ep = Page { items: vec![group("g3", "Hello", "a", "EP")], next_offset: None };
    assert_eq!(accepted_album("Hello EP", &hella, &ep), MatchOutcome::MatchedClose(id("release_group", "g3")));
    let lp = Page { items: vec![group("g3", "Hello", "a", "Album")], next_offset: None };
    assert_eq!(accepted_album("Hello EP", &hella, &lp), MatchOutcome::NoConfidentMatch);
    let close = Page { items: vec![group("g4", "Acoustics", "a", "Album")], next_offset: None };
    assert_eq!(accepted_album("Acoustic", &hella, &close), MatchOutcome::MatchedClose(id("release_group", "g4")));
    let far = Page { items: vec![group("g5", "Aftermath Tour", "a", "Album")], next_offset: None };
    assert_eq!(accepted_album_confirmed("Aftermath Tuor", &hella, &far, false), MatchOutcome::NoConfidentMatch);
    assert_eq!(
        accepted_album_confirmed("Aftermath Tuor", &hella, &far, true),
        MatchOutcome::MatchedClose(id("release_group", "g5"))
    );
    let partial = Page { items: vec![group("g1", "Hold Your Horse Is", "a", "Album")], next_offset: Some(10) };
    assert!(matches!(accepted_album("Hold Your Horse Is", &hella, &partial), MatchOutcome::AlbumAmbiguous(_)));
    assert_eq!(accepted_album("Hold Your Horse Is", &id("label", "a"), &page), MatchOutcome::NoConfidentMatch);
}

#[test]
fn album_evidence_disambiguates_supplied_artists() {
    let candidates = vec![artist("a", "Hella", &[]), artist("b", "Hela", &[])];
    let page = Page { items: vec![group("g1", "Acoustics", "a", "Album")], next_offset: None };
    let (artist_id, outcome) = corroborate_artist_album("Hella", "Acoustics", &candidates, &page);
    assert_eq!(artist_id, Some(id("artist", "a")));
    assert_eq!(outcome, MatchOutcome::Matched(id("release_group", "g1")));
    let (artist_id, outcome) = corroborate_artist_album("Helah", "Acoustics", &candidates, &page);
    assert_eq!(artist_id, None);
    match outcome {
        MatchOutcome::ArtistAmbiguous(v) => assert_eq!(v[0].identity, id("artist", "a")),
        other => panic!("unexpected outcome {other:?}"),
    }
    assert_eq!(
        matched_album(&MatchOutcome::Matched(id("release_group", "g1")), &page),
        Some(group("g1", "Acoustics", "a", "Album"))
    );
    assert_eq!(matched_album(&MatchOutcome::NoConfidentMatch, &page), None);
}

#[test]
fn provider_failures_defer_or_report() {
    assert_eq!(
        provider_outcome(CatalogError::Timeout("slow".into())),
        MatchOutcome::Deferred(CatalogError::Timeout("slow".into()))
    );
    assert_eq!(provider_outcome(CatalogError::Other("bad".into())), MatchOutcome::Error("bad".into()));
    assert!(eligible_text("Album", "Artist"));
    assert!(!eligible_text("Unknown Album", "Artist"));
    assert!(!eligible_text("Album", "  "));
}

#[test]
fn artists_are_remembered_by_name_within_a_bound() {
    let mut cache = ArtistCache::new();
    assert_eq!(cache.get("Hella"), None);
    cache.remember("Hella", id("artist", "a"));
    assert_eq!(cache.get("Hella"), Some(id("artist", "a")));
    cache.remember("Hella", id("artist", "b"));
    assert_eq!(cache.get("Hella"), Some(id("artist", "b")));
    for k in 1..64 {
        cache.remember(&format!("name{k}"), id("artist", &format!("x{k}")));
    }
    assert_eq!(cache.get("Hella"), Some(id("artist", "b")));
    assert_eq!(cache.get("name63"), Some(id("artist", "x63")));
    // The cache is full: the next name starts it over.
    cache.remember("Other", id("artist", "o"));
    assert_eq!(cache.get("Hella"), None);
    assert_eq!(cache.get("name63"), None);
    assert_eq!(cache.get("Other"), Some(id("artist", "o")));
    let known = Some(id("artist", "k"));
    assert_eq!(starting_artist(&known, &cache, "Other"), known);
    assert_eq!(starting_artist(&None, &cache, "Other"), Some(id("artist", "o")));
    assert_eq!(starting_artist(&None, &cache, "Nobody"), None);
}

fn input(known: Option<ExternalIdentity>, manual: bool) -> MatchInput {
    MatchInput {
        album_id: AlbumId("album".into()),
        title: "Acoustics".into(),
        artist: "Hella".into(),
        artist_id: ArtistId("artist".into()),
        known_artist: known,
        manual_artist: manual,
    }
}

#[test]
fn the_worker_searches_then_asks_for_albums_and_remembers_the_artist() {
    let mut cache = ArtistCache::new();
    let (state, action) = matcher_step(MatcherState::Idle, &mut cache, MatcherEvent::Match(input(None, false)));
    assert!(matches!(action, MatcherAction::SearchArtists(ref n) if n == "Hella"));
    let page = Page { items: vec![artist("a", "Hella", &[])], next_offset: None };
    let (state, action) = matcher_step(state, &mut cache, MatcherEvent::Artists(Ok(page)));
    assert!(matches!(action, MatcherAction::ArtistAlbums { ref artist, confirmed: false, .. } if *artist == id("artist", "a")));
    assert_eq!(cache.get("Hella"), Some(id("artist", "a")));
    let albums = Page { items: vec![group("g1", "Acoustics", "a", "Album")], next_offset: None };
    let (state, action) = matcher_step(state, &mut cache, MatcherEvent::Albums(Ok(albums)));
    assert!(matches!(state, MatcherState::Idle));
    match action {
        MatcherAction::Reply(reply) => {
            assert_eq!(reply.artist, Some(id("artist", "a")));
            assert_eq!(reply.outcome, MatchOutcome::Matched(id("release_group", "g1")));
            assert_eq!(reply.matched_album, Some(group("g1", "Acoustics", "a", "Album")));
        }
        _ => panic!("expected a reply"),
    }
    // The remembered Artist skips the search; a manual Artist asks for confirmed Albums.
    let (_, action) = matcher_step(MatcherState::Idle, &mut cache, MatcherEvent::Match(input(None, false)));
    assert!(matches!(action, MatcherAction::ArtistAlbums { .. }));
    let known = Some(id("artist", "k"));
    let (_, action) = matcher_step(MatcherState::Idle, &mut cache, MatcherEvent::Match(input(known, true)));
    assert!(matches!(action, MatcherAction::ArtistAlbums { ref artist, confirmed: true, .. } if *artist == id("artist", "k")));
}

#[test]
fn several_plausible_artists_are_settled_by_their_albums_and_not_remembered() {
    let mut cache = ArtistCache::new();
    let (state, _) = matcher_step(MatcherState::Idle, &mut cache, MatcherEvent::Match(input(None, false)));
    let page = Page { items: vec![artist("a", "Hella", &[]), artist("b", "Hella", &[])], next_offset: None };
    let (state, action) = matcher_step(state, &mut cache, MatcherEvent::Artists(Ok(page)));
    match &action {
        MatcherAction::AlbumsForArtists(ids, title) => {
            assert_eq!(ids.len(), 2);
            assert_eq!(title, "Acoustics");
        }
        _ => panic!("expected an Album search for the candidates"),
    }
    let albums = Page { items: vec![group("g1", "Acoustics", "b", "Album")], next_offset: None };
    let (_, action) = matcher_step(state, &mut cache, MatcherEvent::Albums(Ok(albums)));
    match action {
        MatcherAction::Reply(reply) => {
            assert_eq!(reply.artist, Some(id("artist", "b")));
            assert_eq!(reply.outcome, MatchOutcome::Matched(id("release_group", "g1")));
        }
        _ => panic!("expected a reply"),
    }
    assert_eq!(cache.get("Hella"), None);
}

#[test]
fn provider_failures_are_replies_and_stray_answers_are_ignored() {
    let mut cache = ArtistCache::new();
    let (state, _) = matcher_step(MatcherState::Idle, &mut cache, MatcherEvent::Match(input(None, false)));
    let (state, action) = matcher_step(state, &mut cache, MatcherEvent::Artists(Err(CatalogError::Timeout("slow".into()))));
    assert!(matches!(state, MatcherState::Idle));
    match action {
        MatcherAction::Reply(reply) => {
            assert_eq!(reply.outcome, MatchOutcome::Deferred(CatalogError::Timeout("slow".into())));
        }
        _ => panic!("expected a reply"),
    }
    let (state, action) = matcher_step(MatcherState::Idle, &mut cache, MatcherEvent::Albums(Ok(Page { items: vec![], next_offset: None })));
    assert!(matches!(state, MatcherState::Idle));
    assert!(matches!(action, MatcherAction::Ignore));
}
