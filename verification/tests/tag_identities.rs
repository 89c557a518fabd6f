use music_library::domain::ExternalIdentity;
use music_library::provenance::{Observation, Origin, Scope, Semantics};
use music_library::provenance_acceptance::Validation;
use music_library::tag_identities::validate;

fn observation(scope: Scope, semantics: Semantics, provider: &str, kind: &str, value: &str) -> Observation {
    Observation {
        identity: ExternalIdentity {
            provider: provider.into(),
            kind: kind.into(),
            external_id: value.into(),
        },
        scope,
        semantics,
        origin: Origin::EmbeddedTag { format: "VorbisComments".into(), field: "MusicBrainzReleaseGroupId".into() },
    }
}

#[test]
fn canonical_non_nil_mbids_are_valid() {
    let group = |v: &str| observation(Scope::Album, Semantics::AlbumIdentity, "musicbrainz", "release_group", v);
    assert_eq!(validate(&group("67e55044-10b1-426f-9247-bb680e5fe0c8")), Validation::Valid);
    assert_eq!(validate(&group("67E55044-10B1-426F-9247-BB680E5FE0C8")), Validation::Invalid);
    assert_eq!(validate(&group("67e5504410b1426f9247bb680e5fe0c8")), Validation::Invalid);
    assert_eq!(validate(&group("00000000-0000-0000-0000-000000000000")), Validation::Invalid);
    assert_eq!(validate(&group("not an id")), Validation::Invalid);
    let recording = observation(Scope::Recording, Semantics::RecordingIdentity, "musicbrainz", "recording", "67e55044-10b1-426f-9247-bb680e5fe0c8");
    assert_eq!(validate(&recording), Validation::Valid);
}

#[test]
fn other_namespaces_are_unsupported() {
    let id = "67e55044-10b1-426f-9247-bb680e5fe0c8";
    assert_eq!(validate(&observation(Scope::Edition, Semantics::EditionIdentity, "musicbrainz", "release", id)), Validation::Unsupported);
    assert_eq!(validate(&observation(Scope::Album, Semantics::AlbumIdentity, "discogs", "release_group", id)), Validation::Unsupported);
    assert_eq!(validate(&observation(Scope::Album, Semantics::AlbumIdentity, "musicbrainz", "recording", id)), Validation::Unsupported);
}
