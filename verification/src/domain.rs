//! Library entities and their provider-neutral identities.
use vstd::prelude::*;

use crate::text::str_eq;

verus! {

/// Application-owned identifiers; opaque strings persisted exactly.
#[derive(Debug, PartialEq, Eq)]
pub struct AlbumId(pub String);

#[derive(Debug, PartialEq, Eq)]
pub struct ReleaseId(pub String);

#[derive(Debug, PartialEq, Eq)]
pub struct TrackId(pub String);

#[derive(Debug, PartialEq, Eq)]
pub struct ArtistId(pub String);

#[derive(Debug, PartialEq, Eq)]
pub struct SourceId(pub String);

#[derive(Debug, PartialEq, Eq)]
pub struct RootId(pub String);

#[derive(Debug, PartialEq, Eq)]
pub struct RecordingId(pub String);

impl Clone for AlbumId {
    fn clone(&self) -> (r: Self)
        ensures
            r == *self,
    {
        AlbumId(self.0.clone())
    }
}

impl Clone for ReleaseId {
    fn clone(&self) -> (r: Self)
        ensures
            r == *self,
    {
        ReleaseId(self.0.clone())
    }
}

impl Clone for TrackId {
    fn clone(&self) -> (r: Self)
        ensures
            r == *self,
    {
        TrackId(self.0.clone())
    }
}

impl Clone for ArtistId {
    fn clone(&self) -> (r: Self)
        ensures
            r == *self,
    {
        ArtistId(self.0.clone())
    }
}

impl Clone for SourceId {
    fn clone(&self) -> (r: Self)
        ensures
            r == *self,
    {
        SourceId(self.0.clone())
    }
}

impl Clone for RecordingId {
    fn clone(&self) -> (r: Self)
        ensures
            r == *self,
    {
        RecordingId(self.0.clone())
    }
}

/// Provider-neutral identity. Strings are persisted exactly, without normalization.
#[derive(Debug, PartialEq, Eq)]
pub struct ExternalIdentity {
    pub provider: String,
    pub kind: String,
    pub external_id: String,
}

/// The character content of an identity.
pub struct IdentityView {
    pub provider: Seq<char>,
    pub kind: Seq<char>,
    pub external_id: Seq<char>,
}

impl View for ExternalIdentity {
    type V = IdentityView;

    open spec fn view(&self) -> IdentityView {
        IdentityView {
            provider: self.provider@,
            kind: self.kind@,
            external_id: self.external_id@,
        }
    }
}

impl Clone for ExternalIdentity {
    fn clone(&self) -> (r: Self)
        ensures
            r == *self,
    {
        ExternalIdentity {
            provider: self.provider.clone(),
            kind: self.kind.clone(),
            external_id: self.external_id.clone(),
        }
    }
}

/// The views of a list of identities.
pub open spec fn id_views(ids: Seq<ExternalIdentity>) -> Seq<IdentityView> {
    ids.map_values(|i: ExternalIdentity| i@)
}

/// `list` holds an identity equal to `id`.
pub open spec fn holds_identity(list: Seq<ExternalIdentity>, id: IdentityView) -> bool {
    exists|k: int| 0 <= k < list.len() && (#[trigger] list[k])@ == id
}

impl ExternalIdentity {
    /// Build an identity from three strings.
    pub fn new(provider: &str, kind: &str, external_id: &str) -> (r: Self)
        ensures
            r@ == (IdentityView { provider: provider@, kind: kind@, external_id: external_id@ }),
    {
        ExternalIdentity {
            provider: provider.to_owned(),
            kind: kind.to_owned(),
            external_id: external_id.to_owned(),
        }
    }

    /// Equal provider, kind and identifier.
    pub fn same(&self, other: &ExternalIdentity) -> (r: bool)
        ensures
            r == (self@ == other@),
    {
        let r = self.provider == other.provider && self.kind == other.kind && self.external_id
            == other.external_id;
        proof {
            if r {
                assert(self@ == other@);
            }
        }
        r
    }

    /// Same provider and kind (the identity namespace).
    pub fn same_namespace(&self, other: &ExternalIdentity) -> (r: bool)
        ensures
            r == (self@.provider == other@.provider && self@.kind == other@.kind),
    {
        self.provider == other.provider && self.kind == other.kind
    }

    /// The identity's provider and kind are exactly the given literals.
    pub fn is(&self, provider: &str, kind: &str) -> (r: bool)
        ensures
            r == (self@.provider == provider@ && self@.kind == kind@),
    {
        str_eq(self.provider.as_str(), provider) && str_eq(self.kind.as_str(), kind)
    }
}

/// Whether `list` holds an identity equal to `id`.
pub fn contains_identity(list: &[ExternalIdentity], id: &ExternalIdentity) -> (r: bool)
    ensures
        r == holds_identity(list@, id@),
{
    let mut i: usize = 0;
    while i < list.len()
        invariant
            i <= list.len(),
            forall|k: int| 0 <= k < i ==> (#[trigger] list@[k])@ != id@,
        decreases list.len() - i,
    {
        if list[i].same(id) {
            return true;
        }
        i = i + 1;
    }
    false
}

/// Copy a list of identities.
pub fn copy_identities(list: &[ExternalIdentity]) -> (r: Vec<ExternalIdentity>)
    ensures
        r@ == list@,
{
    let mut out: Vec<ExternalIdentity> = Vec::new();
    let mut i: usize = 0;
    while i < list.len()
        invariant
            i <= list.len(),
            out@ == list@.take(i as int),
        decreases list.len() - i,
    {
        out.push(list[i].clone());
        i = i + 1;
        assert(out@ =~= list@.take(i as int));
    }
    assert(list@.take(list.len() as int) =~= list@);
    out
}

/// Copy a list of strings.
pub fn copy_strings(list: &[String]) -> (r: Vec<String>)
    ensures
        r@ == list@,
{
    let mut out: Vec<String> = Vec::new();
    let mut i: usize = 0;
    while i < list.len()
        invariant
            i <= list.len(),
            out@ == list@.take(i as int),
        decreases list.len() - i,
    {
        out.push(list[i].clone());
        i = i + 1;
        assert(out@ =~= list@.take(i as int));
    }
    assert(list@.take(list.len() as int) =~= list@);
    out
}

#[derive(Debug, Default, PartialEq, Eq)]
pub struct ObservedMetadata {
    pub track_title: Option<String>,
    pub release_title: Option<String>,
    pub track_artists: Vec<String>,
    pub release_artists: Vec<String>,
    pub disc_number: Option<u32>,
    pub track_number: Option<u32>,
    pub year: Option<i32>,
    pub duration_ms: Option<u64>,
    pub format: Option<String>,
}

/// Where a source's media lives, as a platform path held in bytes.
#[derive(Debug, PartialEq, Eq)]
#[non_exhaustive]
pub enum SourceLocation {
    LocalFile(Vec<u8>),
}

/// A resolved source snapshot, separate from durable Track identity.
#[derive(Debug, PartialEq, Eq)]
pub struct PlayableSource {
    pub source_id: SourceId,
    pub location: SourceLocation,
}

/// Copy a byte string.
pub fn copy_bytes(bytes: &Vec<u8>) -> (r: Vec<u8>)
    ensures
        r@ == bytes@,
{
    let mut out: Vec<u8> = Vec::new();
    let mut i: usize = 0;
    while i < bytes.len()
        invariant
            i <= bytes.len(),
            out@ == bytes@.take(i as int),
        decreases bytes.len() - i,
    {
        out.push(bytes[i]);
        i = i + 1;
        assert(out@ =~= bytes@.take(i as int));
    }
    assert(bytes@.take(bytes.len() as int) =~= bytes@);
    out
}

/// The content of a source: its id and the bytes of its path.
pub struct SourceView {
    pub source_id: Seq<char>,
    pub path: Seq<u8>,
}

impl View for PlayableSource {
    type V = SourceView;

    open spec fn view(&self) -> SourceView {
        SourceView {
            source_id: self.source_id.0@,
            path: match self.location {
                SourceLocation::LocalFile(p) => p@,
            },
        }
    }
}

impl Clone for SourceLocation {
    fn clone(&self) -> (r: Self)
        ensures
            match (r, *self) {
                (SourceLocation::LocalFile(a), SourceLocation::LocalFile(b)) => a@ == b@,
            },
    {
        match self {
            SourceLocation::LocalFile(path) => SourceLocation::LocalFile(copy_bytes(path)),
        }
    }
}

impl Clone for PlayableSource {
    fn clone(&self) -> (r: Self)
        ensures
            r@ == self@,
    {
        PlayableSource { source_id: self.source_id.clone(), location: self.location.clone() }
    }
}

#[derive(Debug, PartialEq, Eq)]
pub struct DiscoveryCandidate {
    pub source_id: SourceId,
    pub path: Vec<u8>,
    pub available: bool,
    pub metadata: ObservedMetadata,
}

#[derive(Debug, PartialEq, Eq)]
pub struct ArtistCreditInput {
    pub name: String,
    pub role: Option<String>,
}

impl Clone for ArtistCreditInput {
    fn clone(&self) -> (r: Self)
        ensures
            r == *self,
    {
        ArtistCreditInput { name: self.name.clone(), role: self.role.clone() }
    }
}

#[derive(Debug, PartialEq, Eq)]
pub struct ImportReleaseRequest {
    pub release_title: String,
    pub release_artists: Vec<ArtistCreditInput>,
    pub tracks: Vec<ImportTrackInput>,
}

#[derive(Debug, PartialEq, Eq)]
pub struct ImportTrackInput {
    pub source_id: SourceId,
    pub title_fallback: Option<String>,
    pub artists: Vec<ArtistCreditInput>,
    pub disc_number: Option<u32>,
    pub track_number: Option<u32>,
}

#[derive(Debug, PartialEq, Eq)]
pub struct CatalogReleaseInput {
    pub title: String,
    pub year: Option<i32>,
    pub artists: Vec<ArtistCreditInput>,
    pub tracks: Vec<CatalogTrackInput>,
}

#[derive(Debug, PartialEq, Eq)]
pub struct CatalogTrackInput {
    pub title: String,
    pub artists: Vec<ArtistCreditInput>,
    pub disc_number: Option<u32>,
    pub track_number: Option<u32>,
}

/// The content of a catalog Track row request.
pub struct TrackInputView {
    pub title: Seq<char>,
    pub artists: Seq<ArtistCreditInput>,
    pub disc_number: Option<u32>,
    pub track_number: Option<u32>,
}

impl View for CatalogTrackInput {
    type V = TrackInputView;

    open spec fn view(&self) -> TrackInputView {
        TrackInputView {
            title: self.title@,
            artists: self.artists@,
            disc_number: self.disc_number,
            track_number: self.track_number,
        }
    }
}

/// The content of a catalog Release row request.
pub struct ReleaseInputView {
    pub title: Seq<char>,
    pub year: Option<i32>,
    pub artists: Seq<ArtistCreditInput>,
    pub tracks: Seq<TrackInputView>,
}

impl View for CatalogReleaseInput {
    type V = ReleaseInputView;

    open spec fn view(&self) -> ReleaseInputView {
        ReleaseInputView {
            title: self.title@,
            year: self.year,
            artists: self.artists@,
            tracks: self.tracks@.map_values(|t: CatalogTrackInput| t@),
        }
    }
}

#[derive(Debug, PartialEq, Eq)]
pub struct ImportedRelease {
    pub release_id: ReleaseId,
    pub track_ids: Vec<TrackId>,
}

#[derive(Debug, PartialEq, Eq)]
pub struct SearchCursor {
    pub title: String,
    pub track_id: TrackId,
}

#[derive(Debug, PartialEq, Eq)]
pub struct SearchRequest {
    pub text: String,
    pub availability: Option<bool>,
    pub release_id: Option<ReleaseId>,
    pub artist_id: Option<ArtistId>,
    pub after: Option<SearchCursor>,
    pub limit: u32,
}

#[derive(Debug, PartialEq, Eq)]
pub struct TrackSearchResult {
    pub track_id: TrackId,
    pub release_id: ReleaseId,
    pub title: String,
    pub release_title: String,
    pub artist_names: String,
    pub year: Option<i32>,
    pub available: bool,
}

#[derive(Debug, Default, PartialEq, Eq)]
pub struct ScanReport {
    pub discovered: u64,
    pub parsed: u64,
    pub unchanged: u64,
    pub unavailable: u64,
}

/// Friendly application-owned grouping; Releases retain edition-specific identity.
#[derive(Debug, PartialEq, Eq)]
pub struct Album {
    pub album_id: AlbumId,
    pub title: String,
    pub artist_names: String,
    pub year: Option<i32>,
}

} // verus!
