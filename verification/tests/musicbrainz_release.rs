use music_library::catalog::CatalogError;
use music_library::domain::ExternalIdentity;
use music_library::musicbrainz::{
    convert_edition, convert_release, credits, recording_candidate, recording_page_next,
    ArtistCredit, Edition, FullRelease, GroupRef, LabelInfo, MediaSummary, ReleaseMedium,
    ReleaseTrack, TrackRecording,
};

const RELEASE_ID: &str = "00000000-0000-0000-0000-000000000001";
const GROUP_ID: &str = "00000000-0000-0000-0000-000000000002";

fn mbid(n: u32) -> String {
    format!("00000000-0000-0000-0000-{n:012}")
}

fn identity(kind: &str, id: &str) -> ExternalIdentity {
    ExternalIdentity {
        provider: "musicbrainz".into(),
        kind: kind.into(),
        external_id: id.into(),
    }
}

fn credit(name: &str, artist: Option<&str>, joinphrase: &str) -> ArtistCredit {
    ArtistCredit {
        name: name.into(),
        artist: artist.map(|a| a.to_string()),
        joinphrase: joinphrase.into(),
    }
}

fn track(n: u32, position: u32, title: &str) -> ReleaseTrack {
    ReleaseTrack {
        id: mbid(100 + n),
        position,
        title: None,
        credits: None,
        recording: TrackRecording {
            id: mbid(200 + n),
            title: title.into(),
            credits: vec![],
            isrcs: vec![],
            length: None,
        },
    }
}

fn medium(position: u32, tracks: Vec<ReleaseTrack>) -> ReleaseMedium {
    ReleaseMedium {
        position,
        track_count: tracks.len(),
        tracks,
        data_tracks: vec![],
        pregap: None,
    }
}

/// Two media listed out of order: the second disc first with one track, then
/// the first disc with two.
fn release() -> FullRelease {
    FullRelease {
        id: RELEASE_ID.into(),
        title: "Edition".into(),
        date: Some("2001-02-03".into()),
        credits: vec![credit("Band", Some("artist-mbid"), "")],
        group: GroupRef {
            id: GROUP_ID.into(),
            title: "Album".into(),
            date: None,
            credits: vec![],
        },
        media: vec![
            medium(2, vec![track(3, 1, "Third")]),
            medium(1, vec![track(2, 2, "Second"), track(1, 1, "First")]),
        ],
    }
}

fn refused(r: Result<music_library::catalog::Release, CatalogError>) -> String {
    match r {
        Err(CatalogError::Other(m)) => m,
        other => panic!("unexpected {other:?}"),
    }
}

#[test]
fn credits_retain_artist_identity_separately_from_printed_name() {
    let values = vec![credit("Printed alias", Some("artist-mbid"), " feat. "), credit("Text only", None, "")];
    let converted = credits(&values);
    assert_eq!(converted[0].identity, Some(identity("artist", "artist-mbid")));
    assert_eq!(converted[0].name, "Printed alias");
    assert_eq!(converted[0].join_phrase, " feat. ");
    assert_eq!(converted[1].identity, None);
}

#[test]
fn pregap_and_data_tracks_are_not_lost_when_regular_tracks_are_absent() {
    let mut r = release();
    let moved = std::mem::take(&mut r.media[0].tracks);
    let mut pregap = track(99, 0, "Hidden");
    pregap.id = mbid(99);
    r.media[0].pregap = Some(pregap);
    r.media[0].data_tracks = moved;
    r.media[0].track_count = 0;
    let release = convert_release(r).unwrap();
    assert_eq!(
        release.media[1].tracks.iter().map(|t| t.position).collect::<Vec<_>>(),
        [0, 1]
    );
}

#[test]
fn media_and_tracks_come_by_position_with_identities_and_fallbacks() {
    let mut r = release();
    r.media[1].tracks[0].recording.isrcs = vec!["USX1".into()];
    r.media[1].tracks[0].title = Some("Second (edit)".into());
    r.media[1].tracks[1].recording.credits = vec![credit("Guest", None, "")];
    let release = convert_release(r).unwrap();
    assert_eq!(release.identity, identity("release", RELEASE_ID));
    assert!(release.identities.is_empty());
    assert_eq!(release.date, "2001-02-03");
    assert_eq!(release.album.identity, identity("release_group", GROUP_ID));
    assert_eq!(release.album.title, "Album");
    assert_eq!(release.album.date, "");
    // Group credits fall back to the Release's.
    assert_eq!(release.album.credits.len(), 1);
    assert_eq!(release.album.credits[0].name, "Band");
    let positions: Vec<(u32, Vec<u32>)> = release
        .media
        .iter()
        .map(|m| (m.position, m.tracks.iter().map(|t| t.position).collect()))
        .collect();
    assert_eq!(positions, vec![(1, vec![1, 2]), (2, vec![1])]);
    let first = &release.media[0].tracks[0];
    assert_eq!(first.title, "First");
    assert_eq!(first.credits[0].name, "Guest");
    assert_eq!(
        first.identities,
        vec![identity("track", &mbid(101)), identity("recording", &mbid(201))]
    );
    let second = &release.media[0].tracks[1];
    assert_eq!(second.title, "Second (edit)");
    assert_eq!(second.credits[0].name, "Band");
    assert_eq!(
        second.identities[2],
        ExternalIdentity { provider: "isrc".into(), kind: "recording".into(), external_id: "USX1".into() }
    );
}

#[test]
fn malformed_documents_are_refused_with_the_first_problem() {
    let mut r = release();
    r.id = "../bad".into();
    assert_eq!(refused(convert_release(r)), "Invalid MusicBrainz identifier");

    let mut r = release();
    r.media.clear();
    assert_eq!(refused(convert_release(r)), "Release has missing or duplicate media");

    let mut r = release();
    r.media[0].position = 1;
    assert_eq!(refused(convert_release(r)), "Release has missing or duplicate media");

    let mut r = release();
    r.media[1].track_count = 5;
    assert_eq!(refused(convert_release(r)), "Release tracklist is incomplete");

    let mut r = release();
    r.media[0].position = 0;
    assert_eq!(refused(convert_release(r)), "Release tracklist is incomplete");

    let mut r = release();
    r.media[1].tracks[0].position = 1;
    assert_eq!(refused(convert_release(r)), "Duplicate track positions");

    // The first disc's bad identifier is met before the second disc's gap.
    let mut r = release();
    r.media[1].tracks[1].recording.id = "nope".into();
    r.media[0].track_count = 3;
    assert_eq!(refused(convert_release(r)), "Invalid MusicBrainz identifier");

    let mut r = release();
    r.media = vec![medium(1, vec![])];
    assert_eq!(refused(convert_release(r)), "Release has no Tracks");
}

#[test]
fn editions_become_release_candidates_with_labels_media_and_counts() {
    let e = Edition {
        id: RELEASE_ID.into(),
        title: "Edition".into(),
        credits: vec![credit("A", Some("x"), " & "), credit("B", None, "")],
        date: Some("2001".into()),
        country: None,
        status: Some("Official".into()),
        disambiguation: Some("remaster".into()),
        barcode: None,
        labels: vec![
            LabelInfo { label: Some("Label".into()), catalog_number: Some("CAT-1".into()) },
            LabelInfo { label: None, catalog_number: Some("CAT-2".into()) },
            LabelInfo { label: Some("Only".into()), catalog_number: None },
        ],
        media: vec![
            MediaSummary { format: Some("CD".into()), track_count: 10 },
            MediaSummary { format: None, track_count: 3 },
        ],
    };
    let c = convert_edition(&e).unwrap();
    assert_eq!(c.identity, identity("release", RELEASE_ID));
    assert_eq!(c.artist, "A & B");
    assert_eq!((c.date.as_str(), c.country.as_str(), c.status.as_str()), ("2001", "", "Official"));
    assert_eq!((c.comment.as_str(), c.barcode.as_str()), ("remaster", ""));
    assert_eq!(c.labels, vec!["Label CAT-1".to_string(), "CAT-2".to_string(), "Only".to_string()]);
    assert_eq!(c.formats, vec!["CD".to_string(), "".to_string()]);
    assert_eq!((c.disc_count, c.track_count), (2, 13));
    let mut bad = e;
    bad.id = "not-an-mbid".into();
    assert!(matches!(convert_edition(&bad), Err(CatalogError::Other(m)) if m == "Invalid MusicBrainz identifier"));
}

#[test]
fn searched_recordings_keep_lengths_credits_and_isrcs() {
    let first = TrackRecording {
        id: "00000000-0000-4000-8000-000000000001".into(),
        title: "Song 1".into(),
        credits: vec![credit("Credited Artist", Some("00000000-0000-4000-8000-000000000002"), "")],
        isrcs: vec!["USAAA0100001".into(), "USAAA0100002".into()],
        length: Some(100001),
    };
    let second = TrackRecording {
        id: "00000000-0000-4000-8000-000000000003".into(),
        title: "Song 2".into(),
        credits: vec![],
        isrcs: vec![],
        length: None,
    };
    let a = recording_candidate(&first).unwrap();
    assert_eq!(a.duration_ms, Some(100001));
    assert_eq!(a.artist, "Credited Artist");
    assert_eq!(a.isrcs.len(), 2);
    assert_eq!(a.identity, identity("recording", "00000000-0000-4000-8000-000000000001"));
    assert_eq!(a.artist_ids, vec![identity("artist", "00000000-0000-4000-8000-000000000002")]);
    let b = recording_candidate(&second).unwrap();
    assert!(b.isrcs.is_empty());
    assert_eq!(b.duration_ms, None);
    // Two recordings counted, two held: complete.
    assert_eq!(recording_page_next(2, 2), None);
}

#[test]
fn truncated_recording_search_stays_incomplete() {
    assert!(recording_page_next(101, 0).is_some());
    assert_eq!(recording_page_next(101, 100), Some(100));
}

#[test]
fn recording_credits_need_musicbrainz_artists() {
    let mut r = TrackRecording {
        id: "00000000-0000-4000-8000-000000000001".into(),
        title: "Song".into(),
        credits: vec![credit("Text only", None, ""), credit("Bad", Some("nope"), "")],
        isrcs: vec![],
        length: None,
    };
    assert!(matches!(recording_candidate(&r), Err(CatalogError::Other(m)) if m == "Recording credit lacks Artist identity"));
    r.credits.reverse();
    assert!(matches!(recording_candidate(&r), Err(CatalogError::Other(m)) if m == "Invalid MusicBrainz identifier"));
    r.id = "bad".into();
    r.credits.clear();
    assert!(matches!(recording_candidate(&r), Err(CatalogError::Other(m)) if m == "Invalid MusicBrainz identifier"));
}
