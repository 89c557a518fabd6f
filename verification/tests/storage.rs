use music_library::domain::{
    AlbumId, ArtistCreditInput, ImportReleaseRequest, ImportTrackInput, SourceId,
};
use music_library::storage::{
    bounded_limit, existing_album, fts_prefix_query, import_check, local_album_credit,
    reuse_existing_release,
    split_artist_names, ImportObservation,
};
use std::cell::Cell;

#[test]
fn page_sizes_are_clamped() {
    assert_eq!(bounded_limit(0), 1);
    assert_eq!(bounded_limit(50), 50);
    assert_eq!(bounded_limit(200), 200);
    assert_eq!(bounded_limit(10_000), 200);
}

#[test]
fn prefix_queries_quote_every_word() {
    assert_eq!(fts_prefix_query("  abba  gold "), "\"abba\"* AND \"gold\"*");
    assert_eq!(fts_prefix_query("say \"hi\""), "\"say\"* AND \"\"\"hi\"\"\"*");
    assert_eq!(fts_prefix_query("   "), "");
    assert_eq!(fts_prefix_query("one"), "\"one\"*");
}

#[test]
fn stored_artist_names_split_on_unit_separators() {
    assert!(split_artist_names(String::new()).is_empty());
    assert_eq!(split_artist_names("A".into()), vec!["A".to_string()]);
    assert_eq!(
        split_artist_names("A\u{1f}B\u{1f}".into()),
        vec!["A".to_string(), "B".to_string(), String::new()]
    );
}

fn credit(name: &str) -> ArtistCreditInput {
    ArtistCreditInput { name: name.into(), role: None }
}

fn track(artists: Vec<ArtistCreditInput>) -> ImportTrackInput {
    ImportTrackInput {
        source_id: SourceId("s".into()),
        title_fallback: None,
        artists,
        disc_number: Some(1),
        track_number: Some(1),
    }
}

fn observation(album: Option<&str>, album_artists: &[&str], track_artists: &[&str]) -> ImportObservation {
    ImportObservation {
        album: album.map(str::to_owned),
        title: Some("Song".into()),
        album_artists: album_artists.iter().map(|s| s.to_string()).collect(),
        track_artists: track_artists.iter().map(|s| s.to_string()).collect(),
    }
}

#[test]
fn album_credit_needs_agreeing_local_evidence() {
    let request = ImportReleaseRequest {
        release_title: "Gold".into(),
        release_artists: vec![],
        tracks: vec![track(vec![]), track(vec![])],
    };
    let agreeing = vec![observation(Some("gold"), &[], &["ABBA"]), observation(None, &[], &["abba"])];
    assert_eq!(local_album_credit(&request, &agreeing), Some(vec![credit("ABBA")]));
    let disagreeing = vec![observation(None, &[], &["ABBA"]), observation(None, &[], &["Other"])];
    assert_eq!(local_album_credit(&request, &disagreeing), None);
    let other_album = vec![observation(Some("Silver"), &[], &["ABBA"])];
    assert_eq!(local_album_credit(&request, &other_album), None);
    let tagged = vec![observation(None, &["ABBA"], &["Someone"]), observation(None, &[], &["Else"])];
    assert_eq!(local_album_credit(&request, &tagged), Some(vec![credit("ABBA")]));
    let explicit = ImportReleaseRequest {
        release_title: "Gold".into(),
        release_artists: vec![credit("ABBA")],
        tracks: vec![track(vec![])],
    };
    assert_eq!(
        local_album_credit(&explicit, &[observation(None, &["abba"], &[])]),
        Some(vec![credit("ABBA")])
    );
    assert_eq!(local_album_credit(&explicit, &[observation(None, &["Other"], &[])]), None);
}

#[test]
fn an_existing_release_stays_in_its_album() {
    assert_eq!(reuse_existing_release("a1", &AlbumId("a1".into())), Ok(()));
    assert_eq!(
        reuse_existing_release("a2", &AlbumId("a1".into())),
        Err("existing Release belongs to another Album; reconcile explicitly".to_string())
    );
}

#[test]
fn only_a_single_supported_album_is_joined() {
    let names: Vec<String> = (0..5).map(|k| format!("a{k}")).collect();
    let probes = Cell::new(0);
    let one = |id: &String| {
        probes.set(probes.get() + 1);
        id == "a3"
    };
    assert_eq!(existing_album(&names, &one), Some(3));
    assert_eq!(probes.get(), 5);
    probes.set(0);
    let two = |id: &String| {
        probes.set(probes.get() + 1);
        id == "a1" || id == "a2"
    };
    assert_eq!(existing_album(&names, &two), None);
    assert_eq!(probes.get(), 3);
    assert_eq!(existing_album(&names, &|_: &String| false), None);
}

#[test]
fn oversized_same_name_groups_are_never_probed() {
    let names: Vec<String> = (0..65).map(|k| format!("a{k}")).collect();
    let probes = Cell::new(0);
    let all = |_: &String| {
        probes.set(probes.get() + 1);
        true
    };
    assert_eq!(existing_album(&names, &all), None);
    assert_eq!(probes.get(), 0);
    assert_eq!(existing_album(&names[..64].to_vec(), &|id: &String| id == "a63"), Some(63));
}

#[test]
fn imports_need_tracks_with_free_sources() {
    let empty = ImportReleaseRequest { release_title: "R".into(), release_artists: vec![], tracks: vec![] };
    assert_eq!(import_check(&empty, &[]), Err("a Release import needs at least one Track".to_string()));
    let mut second = track(vec![]);
    second.source_id = SourceId("s2".into());
    let request = ImportReleaseRequest {
        release_title: "R".into(),
        release_artists: vec![],
        tracks: vec![track(vec![]), second],
    };
    assert_eq!(import_check(&request, &[true, true]), Ok(()));
    assert_eq!(
        import_check(&request, &[true, false]),
        Err("source s2 is unavailable, unknown, or already associated".to_string())
    );
    assert_eq!(
        import_check(&request, &[false, false]),
        Err("source s is unavailable, unknown, or already associated".to_string())
    );
}
