use music_library::catalog::CatalogError;
use music_library::domain::ExternalIdentity;
use music_library::spotify_catalog::{
    album_candidates, album_query, artist_query, fallback_query, fallback_token, more, quoted,
    require, scope_bound, distinct_names, song_candidates, song_query, AlbumHit, ArtistHit, SongHit,
};

fn id(kind: &str, value: &str) -> ExternalIdentity {
    ExternalIdentity {
        provider: "spotify".into(),
        kind: kind.into(),
        external_id: value.into(),
    }
}

fn artist(id: &str, name: &str) -> ArtistHit {
    ArtistHit { id: id.into(), name: name.into() }
}

fn album(id: &str, name: &str, artists: Vec<ArtistHit>, album_type: &str) -> AlbumHit {
    AlbumHit {
        id: id.into(),
        name: name.into(),
        artists,
        release_date: "2003-03-31".into(),
        album_type: album_type.into(),
        total_tracks: Some(4),
    }
}

fn song(id: Option<&str>, local: bool) -> SongHit {
    SongHit {
        id: id.map(str::to_owned),
        name: "Song & Title".into(),
        disc_number: 1,
        track_number: 2,
        duration_ms: 123456,
        artists: vec![artist("artist1", "Artist"), artist("artist2", "Guest")],
        is_local: local,
        album: album("album1", "Album Deluxe", vec![], "album"),
    }
}

#[test]
fn search_texts_quote_and_escape() {
    assert_eq!(quoted(r#"Song "Title" \ x"#), r#""Song \"Title\" \\ x""#);
    assert_eq!(artist_query("Artist"), r#"artist:"Artist""#);
    assert_eq!(
        song_query("Song \"Title\"", "Artist"),
        Ok(r#"track:"Song \"Title\"" artist:"Artist""#.to_string())
    );
    assert_eq!(
        song_query("  ", "Artist"),
        Err(CatalogError::Other("Song resolution needs a Track title and credited Artist".into()))
    );
    assert_eq!(album_query("Hello EP", &vec!["Artist".into()]), r#"album:"hello" artist:"Artist""#);
    assert_eq!(album_query("Title", &vec!["A".into(), "B".into()]), r#"album:"Title""#);
}

#[test]
fn empty_full_title_uses_one_distinctive_token() {
    let base = "Bitches Ain't Shit But Good People";
    assert_eq!(fallback_token(base), Some("Bitches".into()));
    assert_eq!(
        fallback_query(base, &vec!["Artist".into()], true),
        Some(r#"album:"Bitches" artist:"Artist""#.into())
    );
    assert_eq!(fallback_query(base, &vec!["Artist".into()], false), None);
    assert_eq!(fallback_query("Wretches", &vec!["Artist".into()], true), None);
    assert_eq!(fallback_query(base, &vec!["A".into(), "B".into()], true), None);
    assert_eq!(fallback_token("Good Food"), Some("Food".into()));
    assert_eq!(fallback_token("a b c"), None);
}

#[test]
fn paging_reports_more_from_links_or_totals() {
    assert!(more(true, 0, 10, 10));
    assert!(more(false, 0, 10, 11));
    assert!(!more(false, 0, 10, 10));
}

#[test]
fn song_results_keep_playable_distinct_ids_among_the_first_ten() {
    let good = "1234567890123456789012";
    let hits = vec![
        song(Some(good), false),
        song(Some(good), false),
        song(Some("short"), false),
        song(Some("2234567890123456789012"), true),
        song(None, false),
    ];
    let found = song_candidates(&hits);
    assert_eq!(found.len(), 1);
    assert_eq!(found[0].identity, id("track", good));
    assert_eq!(found[0].artist, "Artist, Guest");
    assert_eq!(found[0].album, "Album Deluxe");
    let many: Vec<_> = (0..12).map(|i| song(Some(&format!("{i:022}")), false)).collect();
    assert_eq!(song_candidates(&many).len(), 10);
}

#[test]
fn album_results_must_credit_a_candidate_artist() {
    let albums = vec![
        album("album1", "Bitches Ain't Shit But Good People", vec![artist("artist1", "Artist")], "single"),
        album("album2", "Other", vec![artist("artist9", "Someone")], "album"),
        album("album3", "Third", vec![artist("artist9", "Someone"), artist("artist1", "Artist")], "compilation"),
    ];
    let found = album_candidates(&albums, &[id("artist", "artist1")]);
    assert_eq!(found.len(), 2);
    assert_eq!(found[0].identity, id("album", "album1"));
    assert_eq!(found[0].primary_type, "Single");
    assert_eq!(found[1].primary_type, "Compilation");
    assert_eq!(found[1].artist_ids, vec![id("artist", "artist9"), id("artist", "artist1")]);
}

#[test]
fn catalog_identities_must_be_spotify_ids_of_the_kind() {
    assert!(require(&id("album", "abc123"), "album").is_ok());
    assert!(require(&id("album", "abc-123"), "album").is_err());
    assert!(require(&id("album", ""), "album").is_err());
    assert_eq!(
        require(&id("artist", "abc"), "album"),
        Err(CatalogError::Configuration { status: 0, message: "Invalid Spotify catalog identity".into() })
    );
}

#[test]
fn album_searches_are_scoped_to_a_bounded_artist_set() {
    let bounded = Err(CatalogError::Configuration {
        status: 0,
        message: "Expected bounded Artist candidates".into(),
    });
    assert_eq!(scope_bound(&[]), bounded);
    let ten: Vec<ExternalIdentity> = (0..10).map(|k| id("artist", &format!("a{k}"))).collect();
    assert_eq!(scope_bound(&ten), Ok(()));
    assert_eq!(scope_bound(&ten[..1]), Ok(()));
    let eleven: Vec<ExternalIdentity> = (0..11).map(|k| id("artist", &format!("a{k}"))).collect();
    assert_eq!(scope_bound(&eleven), bounded);
}

#[test]
fn artist_names_are_kept_once_in_first_seen_order() {
    let names = vec!["Hella".to_string(), "Hela".to_string(), "Hella".to_string()];
    assert_eq!(distinct_names(&names), vec!["Hella".to_string(), "Hela".to_string()]);
    assert_eq!(distinct_names(&vec![]), Vec::<String>::new());
}
