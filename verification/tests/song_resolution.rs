use music_library::catalog::Page;
use music_library::domain::{ExternalIdentity, TrackId};
use music_library::song_resolution::{assess, Assessment, Candidate, Input, Selection};

fn input() -> Input {
    Input {
        track_id: TrackId("t".into()),
        title: "Song".into(),
        artist: "Band".into(),
        album: "Album".into(),
        duration_ms: Some(200_000),
        disc: Some(1),
        number: Some(3),
    }
}

fn candidate(value: &str, title: &str, album: &str, number: u32) -> Candidate {
    Candidate {
        identity: ExternalIdentity {
            provider: "spotify".into(),
            kind: "track".into(),
            external_id: value.into(),
        },
        title: title.into(),
        artist: "band".into(),
        album: album.into(),
        date: "2001".into(),
        duration_ms: 201_000,
        disc: 1,
        number,
    }
}

#[test]
fn one_exact_candidate_on_a_complete_page_is_unique() {
    let page = Page { items: vec![candidate("x", "Other", "Album", 3), candidate("a", "SONG", "album", 3)], next_offset: None };
    assert_eq!(assess(&input(), &page), Assessment::Unique(1));
    let more = Page { items: vec![candidate("a", "Song", "Album", 3)], next_offset: Some(10) };
    assert_eq!(assess(&input(), &more), Assessment::NeedsSelection);
}

#[test]
fn contradictions_need_selection_or_find_nothing() {
    let wrong_position = Page { items: vec![candidate("a", "Song", "Album", 4)], next_offset: None };
    assert_eq!(assess(&input(), &wrong_position), Assessment::NeedsSelection);
    let other_album = Page { items: vec![candidate("a", "Song", "Live", 3)], next_offset: None };
    assert_eq!(assess(&input(), &other_album), Assessment::NeedsSelection);
    let unrelated = Page { items: vec![candidate("a", "Other", "Album", 3)], next_offset: None };
    assert_eq!(assess(&input(), &unrelated), Assessment::NoMatch);
    let mut blank = input();
    blank.title = "  ".into();
    let page = Page { items: vec![candidate("a", "  ", "Album", 3)], next_offset: None };
    assert_eq!(assess(&blank, &page), Assessment::NoMatch);
}

#[test]
fn selections_keep_their_input_and_candidates() {
    let selection = Selection::new(input(), vec![candidate("a", "Song", "Album", 3)]);
    assert_eq!(selection.input(), &input());
    assert_eq!(selection.candidates().len(), 1);
}
