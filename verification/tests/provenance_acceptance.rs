use music_library::domain::ExternalIdentity;
use music_library::provenance::{Observation, Origin, Scope, Semantics};
use music_library::provenance_acceptance::{
    assess, assess_validated, desired_identities, identity_changes, non_promotable, Assessment,
    Decision, Validation,
};

fn id(provider: &str, kind: &str, value: &str) -> ExternalIdentity {
    ExternalIdentity {
        provider: provider.into(),
        kind: kind.into(),
        external_id: value.into(),
    }
}

fn embedded(kind: &str, value: &str) -> Observation {
    Observation {
        identity: id("musicbrainz", kind, value),
        scope: Scope::Album,
        semantics: Semantics::AlbumIdentity,
        origin: Origin::EmbeddedTag { format: "vorbis".into(), field: "MUSICBRAINZ_RELEASEGROUPID".into() },
    }
}

fn from_provider(kind: &str, value: &str) -> Observation {
    Observation {
        identity: id("musicbrainz", kind, value),
        scope: Scope::Album,
        semantics: Semantics::AlbumIdentity,
        origin: Origin::ProviderResponse,
    }
}

#[test]
fn one_agreed_claim_is_accepted() {
    let obs = vec![embedded("release_group", "g"), embedded("release_group", "g")];
    let r = assess_validated(&obs, &[], &[Validation::Valid, Validation::Valid]);
    assert_eq!(r.len(), 1);
    assert_eq!(r[0].provider, "musicbrainz");
    assert_eq!(r[0].kind, "release_group");
    assert_eq!(r[0].values, vec!["g".to_string()]);
    assert_eq!(r[0].decision, Decision::Accepted);
}

#[test]
fn invalid_claims_block_their_namespace() {
    let obs = vec![embedded("release_group", "g"), embedded("release_group", "g")];
    let r = assess_validated(&obs, &[], &[Validation::Valid, Validation::Invalid]);
    assert_eq!(r[0].decision, Decision::Invalid);
    let obs = vec![embedded("release_group", "b"), embedded("release_group", "a")];
    let r = assess_validated(&obs, &[], &[Validation::Invalid, Validation::Valid]);
    assert_eq!(r[0].values, vec!["a".to_string(), "b".to_string()]);
    assert_eq!(r[0].decision, Decision::ConflictingObservations);
}

#[test]
fn unsupported_and_provider_observations_stay_raw() {
    let obs = vec![embedded("release_group", "g"), from_provider("release", "r")];
    let r = assess_validated(&obs, &[], &[Validation::Unsupported, Validation::Valid]);
    assert!(r.is_empty());
    let held = non_promotable(&obs, &[Validation::Unsupported, Validation::Valid]);
    assert_eq!(held.len(), 2);
    let held = non_promotable(&obs, &[Validation::Valid, Validation::Valid]);
    assert_eq!(held, vec![from_provider("release", "r")]);
}

#[test]
fn independent_identities_constrain_acceptance() {
    let obs = vec![embedded("release_group", "g"), embedded("release", "r")];
    let independent = vec![id("musicbrainz", "release_group", "other"), id("musicbrainz", "release", "r")];
    let r = assess(&obs, &independent, |_| Validation::Valid);
    assert_eq!(r.len(), 2);
    assert_eq!(r[0].kind, "release");
    assert_eq!(r[0].decision, Decision::Accepted);
    assert_eq!(r[1].kind, "release_group");
    assert_eq!(r[1].decision, Decision::ConflictingIndependentIdentity);
    let desired = desired_identities(&r, &independent);
    assert!(desired.is_empty());
    let desired = desired_identities(&r, &[]);
    assert_eq!(desired, vec![id("musicbrainz", "release", "r")]);
}

#[test]
fn managed_identities_are_reconciled_by_difference() {
    let managed = vec![id("p", "k", "old"), id("p", "k", "kept")];
    let desired = vec![id("p", "k", "kept"), id("p", "k", "new")];
    let (remove, add) = identity_changes(&managed, &desired);
    assert_eq!(remove, vec![id("p", "k", "old")]);
    assert_eq!(add, vec![id("p", "k", "new")]);
    let accepted = vec![Assessment {
        provider: "p".into(),
        kind: "k".into(),
        values: vec!["v".into()],
        decision: Decision::Accepted,
    }];
    assert_eq!(desired_identities(&accepted, &[]), vec![id("p", "k", "v")]);
}
