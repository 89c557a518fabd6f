use music_library::domain::{ExternalIdentity, PlayableSource, SourceId, SourceLocation};
use music_library::playback_resolver::{
    local_route, remote_route, remote_route_with, route, RemoteCapability, Route, SourceCheck,
};
use std::cell::{Cell, RefCell};

fn source(id: &str) -> PlayableSource {
    PlayableSource {
        source_id: SourceId(id.into()),
        location: SourceLocation::LocalFile(format!("/music/{id}.flac").into_bytes()),
    }
}

fn track(value: &str) -> ExternalIdentity {
    ExternalIdentity {
        provider: "spotify".into(),
        kind: "track".into(),
        external_id: value.into(),
    }
}

fn remote(unavailable: Option<&str>, catalog_available: bool) -> RemoteCapability {
    RemoteCapability {
        provider: "spotify".into(),
        unavailable: unavailable.map(str::to_owned),
        catalog_available,
    }
}

#[test]
fn the_first_present_local_source_decides() {
    assert_eq!(
        local_route(vec![(source("a"), SourceCheck::Missing), (source("b"), SourceCheck::Usable)]),
        Some(Route::Local(source("b")))
    );
    assert_eq!(
        local_route(vec![
            (source("a"), SourceCheck::Failed("Local source check failed: denied".into())),
            (source("b"), SourceCheck::Usable),
        ]),
        Some(Route::Unavailable("Local source check failed: denied".into()))
    );
    assert_eq!(local_route(vec![(source("a"), SourceCheck::Missing)]), None);
    assert_eq!(local_route(vec![]), None);
}

#[test]
fn remote_routes_need_one_accepted_association() {
    let ids = vec![track("x"), track("bad")];
    assert_eq!(remote_route(&remote(None, true), &ids, &[true, false]), Route::Remote(track("x")));
    assert_eq!(
        remote_route(&remote(None, true), &ids, &[true, true]),
        Route::Unavailable(
            "Existing provider association is invalid or ambiguous; explicit correction required".into()
        )
    );
    assert_eq!(remote_route(&remote(None, true), &[], &[]), Route::NeedsEnrichment);
    assert_eq!(
        remote_route(&remote(None, false), &[], &[]),
        Route::Unavailable("No playable source; remote catalog is not configured".into())
    );
    assert_eq!(
        remote_route(&remote(Some("Spotify is not connected"), true), &ids, &[true, false]),
        Route::Unavailable("No usable local source; Spotify is not connected".into())
    );
    let accepts = |id: &ExternalIdentity| id.external_id.len() == 22;
    let good = track("4uLU6hMCjMI75M1A2tKUQC");
    assert_eq!(
        remote_route_with(&remote(None, true), &accepts, &[good.clone(), track("bad")]),
        Route::Remote(good)
    );
}

#[test]
fn routes_probe_in_order_and_read_associations_only_when_needed() {
    let sources = vec![source("a"), source("b"), source("c")];
    let probed = RefCell::new(Vec::new());
    let probe = |s: &PlayableSource| {
        probed.borrow_mut().push(s.source_id.0.clone());
        if s.source_id.0 == "b" { SourceCheck::Usable } else { SourceCheck::Missing }
    };
    let reads = Cell::new(0);
    let associations = || {
        reads.set(reads.get() + 1);
        vec![track("t1")]
    };
    let accepts = |_: &ExternalIdentity| true;
    assert_eq!(route(&sources, &probe, &remote(None, true), &accepts, &associations), Route::Local(source("b")));
    assert_eq!(*probed.borrow(), vec!["a".to_string(), "b".to_string()]);
    assert_eq!(reads.get(), 0);

    let missing = |_: &PlayableSource| SourceCheck::Missing;
    assert_eq!(route(&sources, &missing, &remote(None, true), &accepts, &associations), Route::Remote(track("t1")));
    assert_eq!(reads.get(), 1);
    assert_eq!(
        route(&sources, &missing, &remote(Some("offline"), true), &accepts, &associations),
        Route::Unavailable("No usable local source; offline".into())
    );
    assert_eq!(reads.get(), 1);

    let failing = |_: &PlayableSource| SourceCheck::Failed("Local source check failed: denied".into());
    assert_eq!(
        route(&sources, &failing, &remote(None, true), &accepts, &associations),
        Route::Unavailable("Local source check failed: denied".into())
    );
}
