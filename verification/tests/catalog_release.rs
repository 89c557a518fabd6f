use music_library::catalog::{Album, Credit, Medium, Release, Track};
use music_library::domain::{AlbumId, ArtistCreditInput, ExternalIdentity, ReleaseId};
use music_library::storage::{
    catalog_credits, catalog_release_input, catalog_release_plan, leading_year_of, AlbumSource,
    CatalogPlan,
};

fn identity(kind: &str, id: &str) -> ExternalIdentity {
    ExternalIdentity { provider: "musicbrainz".into(), kind: kind.into(), external_id: id.into() }
}

fn credit(name: &str, join: &str) -> Credit {
    Credit { identity: None, name: name.into(), join_phrase: join.into() }
}

fn track(position: u32, title: &str, credits: Vec<Credit>) -> Track {
    Track { position, title: title.into(), credits, identities: vec![] }
}

fn release(media: Vec<Medium>) -> Release {
    Release {
        album: Album {
            identity: identity("release_group", "g"),
            title: "Album".into(),
            date: "1999".into(),
            credits: vec![credit("Band", "")],
        },
        identity: identity("release", "r"),
        identities: vec![],
        title: "Edition".into(),
        date: "2001-02-03".into(),
        credits: vec![credit("Band", " & "), credit("Guest", "")],
        media,
    }
}

fn plain(name: &str) -> ArtistCreditInput {
    ArtistCreditInput { name: name.into(), role: None }
}

#[test]
fn store_years_read_the_first_four_characters_as_a_number() {
    assert_eq!(leading_year_of("2001-02-03"), Some(2001));
    assert_eq!(leading_year_of("0042"), Some(42));
    assert_eq!(leading_year_of("+123-x"), Some(123));
    assert_eq!(leading_year_of("-999-01-01"), Some(-999));
    assert_eq!(leading_year_of("-+12"), None);
    assert_eq!(leading_year_of("--12"), None);
    assert_eq!(leading_year_of("199"), None);
    assert_eq!(leading_year_of(""), None);
    assert_eq!(leading_year_of("19x9"), None);
    assert_eq!(leading_year_of("12é4"), None);
}

#[test]
fn release_input_flattens_media_with_their_positions() {
    let r = release(vec![
        Medium { position: 2, tracks: vec![track(1, "Later", vec![credit("Solo", "")])] },
        Medium { position: 1, tracks: vec![track(1, "One", vec![]), track(2, "Two", vec![])] },
    ]);
    let input = catalog_release_input(&r).unwrap();
    assert_eq!(input.title, "Edition");
    assert_eq!(input.year, Some(2001));
    assert_eq!(input.artists, vec![plain("Band"), plain("Guest")]);
    let shape: Vec<(String, Option<u32>, Option<u32>)> = input
        .tracks
        .iter()
        .map(|t| (t.title.clone(), t.disc_number, t.track_number))
        .collect();
    assert_eq!(
        shape,
        vec![
            ("Later".to_string(), Some(2), Some(1)),
            ("One".to_string(), Some(1), Some(1)),
            ("Two".to_string(), Some(1), Some(2)),
        ]
    );
    assert_eq!(input.tracks[0].artists, vec![plain("Solo")]);
    assert!(input.tracks[1].artists.is_empty());
}

#[test]
fn release_without_tracks_is_refused() {
    let r = release(vec![Medium { position: 1, tracks: vec![] }]);
    assert_eq!(catalog_release_input(&r).unwrap_err(), "catalog Release has no Tracks");
    assert!(catalog_release_input(&release(vec![])).is_err());
}

#[test]
fn album_credits_become_plain_names() {
    assert_eq!(catalog_credits(&vec![credit("A", " feat. "), credit("B", "")]), vec![plain("A"), plain("B")]);
}

#[test]
fn release_plans_follow_existing_identities() {
    let ids = |v: &[&str]| v.iter().map(|s| s.to_string()).collect::<Vec<_>>();
    assert_eq!(
        catalog_release_plan(&ids(&[]), &ids(&[])),
        Ok(CatalogPlan { album: AlbumSource::New, existing: None })
    );
    assert_eq!(
        catalog_release_plan(&ids(&["rel"]), &ids(&[])),
        Ok(CatalogPlan {
            album: AlbumSource::OfRelease(ReleaseId("rel".into())),
            existing: Some(ReleaseId("rel".into())),
        })
    );
    assert_eq!(
        catalog_release_plan(&ids(&["rel"]), &ids(&["alb"])),
        Ok(CatalogPlan {
            album: AlbumSource::Known(AlbumId("alb".into())),
            existing: Some(ReleaseId("rel".into())),
        })
    );
    assert_eq!(
        catalog_release_plan(&ids(&[]), &ids(&["alb"])),
        Ok(CatalogPlan { album: AlbumSource::Known(AlbumId("alb".into())), existing: None })
    );
    assert_eq!(
        catalog_release_plan(&ids(&["a", "b"]), &ids(&["x", "y"])).unwrap_err(),
        "catalog Release identity has multiple existing associations; resolve ambiguity before adding"
    );
    assert_eq!(
        catalog_release_plan(&ids(&["a"]), &ids(&["x", "y"])).unwrap_err(),
        "catalog Album identity has multiple associations; resolve ambiguity before adding"
    );
}
