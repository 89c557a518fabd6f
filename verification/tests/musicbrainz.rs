use music_library::catalog::CatalogError;
use music_library::domain::ExternalIdentity;
use music_library::musicbrainz::{
    artist_query, escaped, mbid, next_offset, quoted, release_group_query, require_identity,
    retry_delay,
};
use std::time::{Duration, UNIX_EPOCH};

fn seconds(date: &str) -> u64 {
    httpdate::parse_http_date(date)
        .unwrap()
        .duration_since(UNIX_EPOCH)
        .unwrap()
        .as_secs()
}

#[test]
fn retry_after_policy_uses_seconds_or_dates_without_sleeping() {
    let now = seconds("Tue, 08 Sep 2026 12:00:00 GMT");
    assert_eq!(retry_delay(0, None, now), Some(2));
    assert_eq!(retry_delay(1, None, now), Some(4));
    assert_eq!(retry_delay(2, Some("0"), now), None);
    assert_eq!(retry_delay(0, Some("7"), now), Some(7));
    assert_eq!(retry_delay(0, Some("Tue, 08 Sep 2026 12:00:09 GMT"), now), Some(9));
    assert_eq!(retry_delay(0, Some("Tue, 08 Sep 2026 11:59:59 GMT"), now), Some(0));
    assert_eq!(retry_delay(0, Some("invalid"), now), Some(2));
    assert_eq!(retry_delay(0, Some("61"), now), None);
    assert_eq!(retry_delay(0, Some("999999999999999999999999"), now), None);
}

#[test]
fn retry_delay_trims_the_header_and_honours_a_minute() {
    assert_eq!(retry_delay(1, Some("  60 "), 0), Some(60));
    assert_eq!(retry_delay(1, Some(""), 0), Some(4));
    assert_eq!(retry_delay(5, None, 0), None);
    let now = seconds("Tue, 08 Sep 2026 12:00:00 GMT");
    let later = httpdate::fmt_http_date(UNIX_EPOCH + Duration::from_secs(now + 120));
    assert_eq!(retry_delay(0, Some(&later), now), None);
}

#[test]
fn quoted_escapes_lucene_syntax() {
    assert_eq!(quoted(r#"A" OR *"#), r#""A\" OR \*""#);
    assert_eq!(escaped("AC/DC: (Live)"), r#"AC\/DC\: \(Live\)"#);
    assert_eq!(escaped("plain words"), "plain words");
    assert_eq!(quoted(""), "\"\"");
}

#[test]
fn paging_stops_at_the_count_and_on_empty_pages() {
    assert_eq!(next_offset(0, 10, 25), Some(10));
    assert_eq!(next_offset(20, 5, 25), None);
    assert_eq!(next_offset(0, 0, 25), None);
    assert_eq!(next_offset(u32::MAX - 1, 10, u32::MAX), None);
}

#[test]
fn identifiers_are_checked_before_requests() {
    assert!(mbid("00000000-0000-4000-8000-000000000002").is_ok());
    assert!(mbid("00000000-0000-4000-8000-00000000000G").is_err());
    assert!(mbid("00000000000040008000000000000002").is_err());
    assert_eq!(
        mbid("nope"),
        Err(CatalogError::Other("Invalid MusicBrainz identifier".into()))
    );
    let id = ExternalIdentity {
        provider: "musicbrainz".into(),
        kind: "artist".into(),
        external_id: "00000000-0000-4000-8000-000000000002".into(),
    };
    assert!(require_identity(&id, "artist").is_ok());
    assert_eq!(
        require_identity(&id, "release_group"),
        Err(CatalogError::Other("Unsupported MusicBrainz identity kind/provider".into()))
    );
}

fn artist(value: &str) -> ExternalIdentity {
    ExternalIdentity {
        provider: "musicbrainz".into(),
        kind: "artist".into(),
        external_id: value.into(),
    }
}

#[test]
fn artist_and_scoped_album_queries_match_the_request_shapes() {
    assert_eq!(artist_query("Hella"), r#"(artist:"Hella" OR alias:"Hella")"#);
    let hella = artist("00000000-0000-4000-8000-000000000002");
    assert_eq!(
        release_group_query(&[hella.clone()], "Acoustic", 1).unwrap(),
        r#"arid:00000000-0000-4000-8000-000000000002 AND (releasegroup:"Acoustic" OR (releasegroup:Acoustic~1))"#
    );
    let both = [
        artist("00000000-0000-4000-8000-000000000002"),
        artist("00000000-0000-4000-8000-000000000001"),
        artist("00000000-0000-4000-8000-000000000002"),
    ];
    let q = release_group_query(&both, "Floral LP", 1).unwrap();
    assert!(q.starts_with("(arid:00000000-0000-4000-8000-000000000001 OR arid:00000000-0000-4000-8000-000000000002) AND "));
    assert!(q.contains(r#"releasegroup:"Floral LP""#));
    assert!(q.contains(r#"releasegroup:"floral""#));
    assert!(!q.contains("~2"));
    let q = release_group_query(&[hella.clone()], "Hugs EP", 1).unwrap();
    assert_eq!(
        q,
        r#"arid:00000000-0000-4000-8000-000000000002 AND ((releasegroup:"Hugs EP" OR (releasegroup:Hugs~1 AND releasegroup:EP~1)) OR releasegroup:"hugs")"#
    );
    assert!(release_group_query(&[hella.clone()], "Nevermimd!", 2).unwrap().contains("~2"));
    assert_eq!(
        release_group_query(&[hella], "Kid", 1).unwrap(),
        r#"arid:00000000-0000-4000-8000-000000000002 AND releasegroup:"Kid""#
    );
}

#[test]
fn scoped_album_queries_need_bounded_valid_artists() {
    assert_eq!(
        release_group_query(&[], "Title", 1),
        Err(CatalogError::Other("Expected a bounded nonempty Artist candidate set".into()))
    );
    let many: Vec<_> = (0..11).map(|i| artist(&format!("00000000-0000-4000-8000-0000000000{i:02}"))).collect();
    assert!(release_group_query(&many, "Title", 1).is_err());
    let mut label = artist("00000000-0000-4000-8000-000000000002");
    label.kind = "label".into();
    assert_eq!(
        release_group_query(&[label], "Title", 1),
        Err(CatalogError::Other("Unsupported MusicBrainz identity kind/provider".into()))
    );
    assert_eq!(
        release_group_query(&[artist("nope")], "Title", 1),
        Err(CatalogError::Other("Invalid MusicBrainz identifier".into()))
    );
}
