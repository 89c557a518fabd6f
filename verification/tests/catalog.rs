use music_library::catalog::{
    credit_display, representative_release, AlbumCandidate, CatalogError, Credit, ReleaseCandidate,
};
use music_library::domain::ExternalIdentity;

fn id(value: &str) -> ExternalIdentity {
    ExternalIdentity {
        provider: "musicbrainz".into(),
        kind: "release".into(),
        external_id: value.into(),
    }
}

fn album(date: &str) -> AlbumCandidate {
    AlbumCandidate {
        credits: vec![],
        identity: id("group"),
        title: "Album".into(),
        artist: "Artist".into(),
        date: date.into(),
        primary_type: "Album".into(),
        secondary_types: vec![],
        comment: String::new(),
        score: None,
    }
}

fn release(value: &str, date: &str, status: &str, comment: &str, discs: usize, tracks: u32) -> ReleaseCandidate {
    ReleaseCandidate {
        identity: id(value),
        title: "Album".into(),
        artist: "Artist".into(),
        date: date.into(),
        country: "XW".into(),
        status: status.into(),
        comment: comment.into(),
        barcode: String::new(),
        labels: vec![],
        formats: vec!["CD".into()],
        disc_count: discs,
        track_count: tracks,
    }
}

#[test]
fn representative_prefers_official_near_plain_editions() {
    let candidates = vec![
        release("bootleg", "1979", "Bootleg", "", 1, 10),
        release("deluxe", "1979", "Official", "Deluxe Edition", 1, 14),
        release("later", "1990", "official", "", 1, 10),
        release("plain", "1979", "OFFICIAL", "", 1, 10),
        release("empty", "1979", "Official", "", 0, 0),
    ];
    let chosen = representative_release(&album("1979-05-01"), &candidates).unwrap();
    assert_eq!(chosen.identity.external_id, "plain");
    let chosen = representative_release(&album(""), &candidates).unwrap();
    assert_eq!(chosen.identity.external_id, "plain");
    let chosen = representative_release(&album("1991"), &candidates[..3]).unwrap();
    assert_eq!(chosen.identity.external_id, "later");
    assert!(representative_release(&album("1979"), &candidates[4..]).is_none());
}

#[test]
fn ties_fall_back_to_date_and_identifier() {
    let candidates = vec![
        release("b", "1979-02", "Official", "", 1, 10),
        release("a", "1979-02", "Official", "", 1, 10),
        release("c", "1979-01", "Official", "", 2, 10),
    ];
    let chosen = representative_release(&album("1979"), &candidates).unwrap();
    assert_eq!(chosen.identity.external_id, "a");
}

#[test]
fn credits_display_with_their_join_phrases() {
    let credits = vec![
        Credit { identity: None, name: "Simon".into(), join_phrase: " & ".into() },
        Credit { identity: None, name: "Garfunkel".into(), join_phrase: String::new() },
    ];
    assert_eq!(credit_display(&credits), "Simon & Garfunkel");
    assert_eq!(credit_display(&[]), "");
}

#[test]
fn outages_are_told_apart_from_refusals() {
    assert!(CatalogError::Timeout("t".into()).is_provider_unavailable());
    assert!(CatalogError::TransportUnavailable("t".into()).is_provider_unavailable());
    assert!(CatalogError::ServiceUnavailable { message: "m".into(), retry_after: None }.is_provider_unavailable());
    assert!(CatalogError::RateLimited { status: 429, message: "m".into(), retry_after: None }.is_provider_unavailable());
    assert!(!CatalogError::Other("o".into()).is_provider_unavailable());
    assert!(!CatalogError::Configuration { status: 401, message: "c".into() }.is_provider_unavailable());
    assert_eq!(CatalogError::Configuration { status: 401, message: "c".into() }.message(), "c");
}
