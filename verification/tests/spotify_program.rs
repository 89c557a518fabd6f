use music_library::catalog::CatalogError;
use music_library::spotify_catalog::{read_program_page, AlbumTrack, ArtistHit, ProgramRead, TrackPage};

fn track(id: Option<&str>, number: u32, isrc: Option<&str>) -> AlbumTrack {
    AlbumTrack {
        id: id.map(String::from),
        name: format!("Song {number}"),
        disc_number: 1,
        track_number: number,
        duration_ms: 1000 * number as u64,
        artists: vec![
            ArtistHit { id: "a1".into(), name: "First".into() },
            ArtistHit { id: "a2".into(), name: "Second".into() },
        ],
        isrc: isrc.map(String::from),
        is_local: false,
    }
}

fn start() -> ProgramRead {
    ProgramRead { offset: 0, expected: None, tracks: vec![], complete: false }
}

fn message(r: Result<(), CatalogError>) -> String {
    match r {
        Err(CatalogError::Other(m)) => m,
        other => panic!("unexpected {other:?}"),
    }
}

#[test]
fn pages_join_in_order_until_the_last() {
    let mut read = start();
    let first = TrackPage { items: vec![track(Some("t1"), 1, Some("ISRC1"))], total: 2, offset: 0, next: true };
    read_program_page(&mut read, &first).unwrap();
    assert!(!read.complete);
    assert_eq!((read.offset, read.expected), (1, Some(2)));
    let second = TrackPage { items: vec![track(Some("t2"), 2, None)], total: 2, offset: 1, next: false };
    read_program_page(&mut read, &second).unwrap();
    assert!(read.complete);
    assert_eq!(read.tracks.len(), 2);
    let t = &read.tracks[0];
    assert_eq!(t.identities[0].provider, "spotify");
    assert_eq!(t.identities[0].kind, "track");
    assert_eq!(t.identities[0].external_id, "t1");
    assert_eq!(t.title.as_deref(), Some("Song 1"));
    assert_eq!((t.disc, t.number, t.duration_ms), (Some(1), Some(1), Some(1000)));
    assert_eq!(t.artists[0].join_phrase, ", ");
    assert_eq!(t.artists[1].join_phrase, "");
    assert_eq!(t.artists[1].identities[0].external_id, "a2");
    assert!(t.recording.identities.is_empty());
    assert_eq!(t.recording.isrcs, vec!["ISRC1".to_string()]);
    // A missing ISRC is normal.
    assert!(read.tracks[1].recording.isrcs.is_empty());
}

#[test]
fn changing_and_incomplete_pages_are_errors() {
    let mut read = start();
    let moved = TrackPage { items: vec![track(Some("t1"), 1, None)], total: 2, offset: 5, next: false };
    assert_eq!(message(read_program_page(&mut read, &moved)), "Spotify Album program changed during pagination");

    let mut read = start();
    read_program_page(&mut read, &TrackPage { items: vec![track(Some("t1"), 1, None)], total: 3, offset: 0, next: true }).unwrap();
    let regrown = TrackPage { items: vec![track(Some("t2"), 2, None)], total: 4, offset: 1, next: true };
    assert_eq!(message(read_program_page(&mut read, &regrown)), "Spotify Album program changed during pagination");

    let mut read = start();
    let empty = TrackPage { items: vec![], total: 3, offset: 0, next: false };
    assert_eq!(message(read_program_page(&mut read, &empty)), "Incomplete Spotify Album page");

    let mut read = start();
    let mut local = track(Some("t1"), 1, None);
    local.is_local = true;
    let page = TrackPage { items: vec![local], total: 1, offset: 0, next: false };
    assert_eq!(message(read_program_page(&mut read, &page)), "Unavailable Spotify Album Track identity");

    let mut read = start();
    let page = TrackPage { items: vec![track(Some(""), 1, None)], total: 1, offset: 0, next: false };
    assert_eq!(message(read_program_page(&mut read, &page)), "Unavailable Spotify Album Track identity");

    let mut read = start();
    let page = TrackPage { items: vec![], total: 0, offset: 0, next: false };
    read_program_page(&mut read, &page).unwrap();
    assert!(read.complete && read.tracks.is_empty());
}
