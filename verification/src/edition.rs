//! Read-only edition evidence audit. No assessment authorizes persistence.
use vstd::prelude::*;

use crate::catalog::CatalogError;
use crate::domain::{
    copy_identities, copy_strings, id_views, AlbumId, ExternalIdentity, IdentityView, RecordingId,
    ReleaseId, TrackId,
};
use crate::matching::{normalize, normalized};
use crate::text::{append_chars, chars_of, string_of, views};

verus! {

#[derive(Debug, PartialEq, Eq)]
pub struct ArtistEvidence {
    pub identities: Vec<ExternalIdentity>,
    pub name: String,
    pub join_phrase: String,
}

#[derive(Debug, PartialEq, Eq)]
pub struct RecordingEvidence {
    /// Trusted identifiers of a particular recording/version, not occurrence IDs.
    pub identities: Vec<ExternalIdentity>,
    pub isrcs: Vec<String>,
}

#[derive(Debug, PartialEq, Eq)]
pub struct TrackEvidence {
    pub identities: Vec<ExternalIdentity>,
    pub disc: Option<u32>,
    pub number: Option<u32>,
    pub title: Option<String>,
    pub artists: Vec<ArtistEvidence>,
    pub duration_ms: Option<u64>,
    pub recording: RecordingEvidence,
}

pub struct ArtistEvidenceView {
    pub identities: Seq<IdentityView>,
    pub name: Seq<char>,
    pub join_phrase: Seq<char>,
}

pub struct RecordingEvidenceView {
    pub identities: Seq<IdentityView>,
    pub isrcs: Seq<Seq<char>>,
}

pub struct TrackEvidenceView {
    pub identities: Seq<IdentityView>,
    pub disc: Option<u32>,
    pub number: Option<u32>,
    pub title: Option<Seq<char>>,
    pub artists: Seq<ArtistEvidenceView>,
    pub duration_ms: Option<u64>,
    pub recording: RecordingEvidenceView,
}

pub open spec fn opt_chars(s: Option<String>) -> Option<Seq<char>> {
    match s {
        Some(v) => Some(v@),
        None => None,
    }
}

impl View for ArtistEvidence {
    type V = ArtistEvidenceView;

    open spec fn view(&self) -> ArtistEvidenceView {
        ArtistEvidenceView {
            identities: id_views(self.identities@),
            name: self.name@,
            join_phrase: self.join_phrase@,
        }
    }
}

impl View for RecordingEvidence {
    type V = RecordingEvidenceView;

    open spec fn view(&self) -> RecordingEvidenceView {
        RecordingEvidenceView { identities: id_views(self.identities@), isrcs: views(self.isrcs@) }
    }
}

pub open spec fn artist_ev_views(s: Seq<ArtistEvidence>) -> Seq<ArtistEvidenceView> {
    s.map_values(|a: ArtistEvidence| a@)
}

impl View for TrackEvidence {
    type V = TrackEvidenceView;

    open spec fn view(&self) -> TrackEvidenceView {
        TrackEvidenceView {
            identities: id_views(self.identities@),
            disc: self.disc,
            number: self.number,
            title: opt_chars(self.title),
            artists: artist_ev_views(self.artists@),
            duration_ms: self.duration_ms,
            recording: self.recording@,
        }
    }
}

pub open spec fn track_ev_views(s: Seq<TrackEvidence>) -> Seq<TrackEvidenceView> {
    s.map_values(|t: TrackEvidence| t@)
}

impl Clone for ArtistEvidence {
    fn clone(&self) -> (r: Self)
        ensures
            r@ == self@,
    {
        ArtistEvidence {
            identities: copy_identities(self.identities.as_slice()),
            name: self.name.clone(),
            join_phrase: self.join_phrase.clone(),
        }
    }
}

impl Clone for RecordingEvidence {
    fn clone(&self) -> (r: Self)
        ensures
            r@ == self@,
    {
        RecordingEvidence {
            identities: copy_identities(self.identities.as_slice()),
            isrcs: copy_strings(self.isrcs.as_slice()),
        }
    }
}

pub(crate) fn copy_artists(list: &Vec<ArtistEvidence>) -> (r: Vec<ArtistEvidence>)
    ensures
        artist_ev_views(r@) == artist_ev_views(list@),
{
    let mut out: Vec<ArtistEvidence> = Vec::new();
    let mut i: usize = 0;
    while i < list.len()
        invariant
            i <= list.len(),
            artist_ev_views(out@) == artist_ev_views(list@).take(i as int),
        decreases list.len() - i,
    {
        let ghost before = artist_ev_views(out@);
        let a = list[i].clone();
        out.push(a);
        assert(artist_ev_views(out@) =~= before.push(a@));
        assert(artist_ev_views(list@).take(i + 1) =~= artist_ev_views(list@).take(i as int).push(
            list@[i as int]@,
        ));
        i = i + 1;
    }
    assert(artist_ev_views(list@).take(list.len() as int) =~= artist_ev_views(list@));
    out
}

impl Clone for TrackEvidence {
    fn clone(&self) -> (r: Self)
        ensures
            r@ == self@,
    {
        TrackEvidence {
            identities: copy_identities(self.identities.as_slice()),
            disc: self.disc,
            number: self.number,
            title: self.title.clone(),
            artists: copy_artists(&self.artists),
            duration_ms: self.duration_ms,
            recording: self.recording.clone(),
        }
    }
}

impl Default for TrackEvidence {
    fn default() -> (r: Self)
        ensures
            r@.identities.len() == 0,
            r@.disc is None,
            r@.number is None,
            r@.title is None,
            r@.artists.len() == 0,
            r@.duration_ms is None,
            r@.recording.identities.len() == 0,
            r@.recording.isrcs.len() == 0,
    {
        TrackEvidence {
            identities: Vec::new(),
            disc: None,
            number: None,
            title: None,
            artists: Vec::new(),
            duration_ms: None,
            recording: RecordingEvidence { identities: Vec::new(), isrcs: Vec::new() },
        }
    }
}

#[derive(Debug, PartialEq, Eq)]
pub struct EditionMetadata {
    pub title: Option<String>,
    pub artists: Vec<ArtistEvidence>,
    /// ISO partial date; retain precision rather than inventing month/day values.
    pub date: Option<String>,
    pub barcodes: Vec<String>,
    pub labels: Vec<(String, Option<String>)>,
    pub country: Option<String>,
    pub media: Vec<String>,
    pub edition_text: Option<String>,
}

#[derive(Debug)]
pub struct EditionCandidate {
    /// Catalog locator; not automatically proof of exact edition semantics.
    pub identity: ExternalIdentity,
    /// Explicitly verified exact-edition identifiers; never barcode alone.
    pub exact_identities: Vec<ExternalIdentity>,
    pub grouping: Option<ExternalIdentity>,
    pub metadata: EditionMetadata,
    /// Musical order, flattened across media by the adapter; not an unordered set.
    pub tracks: Vec<TrackEvidence>,
    pub tracklist_complete: bool,
}

#[derive(Debug, PartialEq, Eq)]
pub struct LocalTrackEvidence {
    pub track_id: TrackId,
    pub recording_id: RecordingId,
    pub evidence: TrackEvidence,
}

pub struct LocalTrackView {
    pub track_id: Seq<char>,
    pub recording_id: Seq<char>,
    pub evidence: TrackEvidenceView,
}

impl View for LocalTrackEvidence {
    type V = LocalTrackView;

    open spec fn view(&self) -> LocalTrackView {
        LocalTrackView {
            track_id: self.track_id.0@,
            recording_id: self.recording_id.0@,
            evidence: self.evidence@,
        }
    }
}

pub open spec fn local_views(s: Seq<LocalTrackEvidence>) -> Seq<LocalTrackView> {
    s.map_values(|t: LocalTrackEvidence| t@)
}

impl Clone for LocalTrackEvidence {
    fn clone(&self) -> (r: Self)
        ensures
            r@ == self@,
    {
        LocalTrackEvidence {
            track_id: self.track_id.clone(),
            recording_id: self.recording_id.clone(),
            evidence: self.evidence.clone(),
        }
    }
}

#[derive(Clone, Copy, Debug, PartialEq, Eq)]
pub enum Completeness {
    Unknown,
    /// Caller independently established the entire program and its musical order.
    /// Contiguous numbers, membership or equal provider counts are not proof.
    TrustedComplete,
}

impl Default for Completeness {
    fn default() -> (r: Self)
        ensures
            r == Completeness::Unknown,
    {
        Completeness::Unknown
    }
}

#[derive(Debug)]
pub struct LocalEditionEvidence {
    pub album_id: AlbumId,
    pub release_id: ReleaseId,
    pub album_title: String,
    pub grouping_identities: Vec<ExternalIdentity>,
    pub identities: Vec<ExternalIdentity>,
    /// Independently trusted embedded/verified edition IDs; generic mappings aren't promoted.
    pub exact_identities: Vec<ExternalIdentity>,
    pub metadata: EditionMetadata,
    /// Musical order when complete; partial lists retain their original positions.
    pub tracks: Vec<LocalTrackEvidence>,
    pub completeness: Completeness,
}

/// Additive blocking detail capability. Interactive callers must use a worker.
/// Provider discovery and request budgeting remain separate from comparison.
pub trait EditionProvider {
    fn edition(&mut self, identity: &ExternalIdentity) -> Result<EditionCandidate, CatalogError>;
}

#[derive(Clone, Copy, Debug, PartialEq, Eq)]
pub enum Finding {
    TitleSupport,
    ArtistSupport,
    GroupingSupport,
    ExactIdentitySupport,
    EditionIdentityConflict,
    BarcodeSupport,
    PackagingDifference,
    TrackCountConflict,
    PositionUnknown,
    OrderConflict,
    TitleDifference,
    ArtistDifference,
    RecordingSupport,
    RecordingIdentityConflict,
    IsrcSupport,
    IsrcDifference,
    DurationSupport,
    DurationConflict,
    IncompleteTracklist,
}

#[derive(Debug)]
pub struct TrackReport {
    pub track_id: TrackId,
    /// Index in the candidate's flattened list, absent when alignment is unknown.
    pub candidate_index: Option<usize>,
    pub findings: Vec<Finding>,
    pub supported: bool,
    pub contradiction: bool,
}

#[derive(Clone, Copy, Debug, PartialEq, Eq)]
pub enum Assessment {
    ExactEdition,
    ContentEquivalent,
    AlbumOnly,
    InsufficientEvidence,
    Contradictory,
    Ambiguous,
}

#[derive(Debug)]
pub struct CandidateReport {
    pub identity: ExternalIdentity,
    pub assessment: Assessment,
    pub findings: Vec<Finding>,
    pub tracks: Vec<TrackReport>,
    pub supported_tracks: usize,
}

#[derive(Debug)]
pub struct Report {
    pub assessment: Assessment,
    /// Discovery completeness is separate from per-candidate identity/content evidence.
    pub candidates_complete: bool,
    pub candidates: Vec<CandidateReport>,
}

// ---------------------------------------------------------------------------
// Identity and text comparisons.

/// All three parts of an identity are present.
pub open spec fn valid_id(i: IdentityView) -> bool {
    i.provider.len() > 0 && i.kind.len() > 0 && i.external_id.len() > 0
}

/// Some valid identity of `a` also occurs in `b`.
pub open spec fn shared_valid(a: Seq<IdentityView>, b: Seq<IdentityView>) -> bool {
    exists|k: int| 0 <= k < a.len() && valid_id(#[trigger] a[k]) && b.contains(a[k])
}

/// Two valid identities of one namespace with different identifiers.
pub open spec fn conflicting(a: Seq<IdentityView>, b: Seq<IdentityView>) -> bool {
    exists|x: int, y: int|
        0 <= x < a.len() && 0 <= y < b.len() && valid_id(#[trigger] a[x]) && valid_id(
            #[trigger] b[y],
        ) && a[x].provider == b[y].provider && a[x].kind == b[y].kind && a[x].external_id
            != b[y].external_id
}

/// Some element of `a` occurs in `b`.
pub open spec fn overlaps<T>(a: Seq<T>, b: Seq<T>) -> bool {
    exists|k: int| 0 <= k < a.len() && b.contains(#[trigger] a[k])
}

fn valid_identity(id: &ExternalIdentity) -> (r: bool)
    ensures
        r == valid_id(id@),
{
    !id.provider.as_str().is_empty() && !id.kind.as_str().is_empty()
        && !id.external_id.as_str().is_empty()
}

pub(crate) fn holds(list: &Vec<ExternalIdentity>, id: &ExternalIdentity) -> (r: bool)
    ensures
        r == id_views(list@).contains(id@),
{
    let r = crate::domain::contains_identity(list.as_slice(), id);
    proof {
        if r {
            let k = choose|k: int| 0 <= k < list@.len() && (#[trigger] list@[k])@ == id@;
            assert(id_views(list@)[k] == id@);
        }
        if id_views(list@).contains(id@) {
            let k = choose|k: int| 0 <= k < list@.len() && id_views(list@)[k] == id@;
            assert(list@[k]@ == id@);
        }
    }
    r
}

fn shared_identity(a: &Vec<ExternalIdentity>, b: &Vec<ExternalIdentity>) -> (r: bool)
    ensures
        r == shared_valid(id_views(a@), id_views(b@)),
{
    let ghost av = id_views(a@);
    let mut i: usize = 0;
    while i < a.len()
        invariant
            i <= a.len(),
            av == id_views(a@),
            forall|k: int| 0 <= k < i ==> !(valid_id(#[trigger] av[k]) && id_views(b@).contains(av[k])),
        decreases a.len() - i,
    {
        if valid_identity(&a[i]) && holds(b, &a[i]) {
            assert(valid_id(av[i as int]) && id_views(b@).contains(av[i as int]));
            return true;
        }
        i = i + 1;
    }
    false
}

fn conflict(a: &Vec<ExternalIdentity>, b: &Vec<ExternalIdentity>) -> (r: bool)
    ensures
        r == conflicting(id_views(a@), id_views(b@)),
{
    let ghost av = id_views(a@);
    let ghost bv = id_views(b@);
    let mut i: usize = 0;
    while i < a.len()
        invariant
            i <= a.len(),
            av == id_views(a@),
            bv == id_views(b@),
            forall|x: int, y: int|
                0 <= x < i && 0 <= y < b.len() ==> !(valid_id(#[trigger] av[x]) && valid_id(
                    #[trigger] bv[y],
                ) && av[x].provider == bv[y].provider && av[x].kind == bv[y].kind
                    && av[x].external_id != bv[y].external_id),
        decreases a.len() - i,
    {
        let mut j: usize = 0;
        while j < b.len()
            invariant
                i < a.len(),
                j <= b.len(),
                av == id_views(a@),
                bv == id_views(b@),
                forall|x: int, y: int|
                    0 <= x < i && 0 <= y < b.len() ==> !(valid_id(#[trigger] av[x]) && valid_id(
                        #[trigger] bv[y],
                    ) && av[x].provider == bv[y].provider && av[x].kind == bv[y].kind
                        && av[x].external_id != bv[y].external_id),
                forall|y: int|
                    0 <= y < j ==> !(valid_id(av[i as int]) && valid_id(#[trigger] bv[y])
                        && av[i as int].provider == bv[y].provider && av[i as int].kind
                        == bv[y].kind && av[i as int].external_id != bv[y].external_id),
            decreases b.len() - j,
        {
            if valid_identity(&a[i]) && valid_identity(&b[j]) && a[i].same_namespace(&b[j])
                && a[i].external_id != b[j].external_id {
                assert(valid_id(av[i as int]) && valid_id(bv[j as int]));
                return true;
            }
            j = j + 1;
        }
        i = i + 1;
    }
    false
}

pub(crate) fn overlap_identities(a: &Vec<ExternalIdentity>, b: &Vec<ExternalIdentity>) -> (r: bool)
    ensures
        r == overlaps(id_views(a@), id_views(b@)),
{
    let ghost av = id_views(a@);
    let mut i: usize = 0;
    while i < a.len()
        invariant
            i <= a.len(),
            av == id_views(a@),
            forall|k: int| 0 <= k < i ==> !id_views(b@).contains(#[trigger] av[k]),
        decreases a.len() - i,
    {
        if holds(b, &a[i]) {
            assert(id_views(b@).contains(av[i as int]));
            return true;
        }
        i = i + 1;
    }
    false
}

pub(crate) fn holds_string(list: &Vec<String>, s: &String) -> (r: bool)
    ensures
        r == views(list@).contains(s@),
{
    let mut i: usize = 0;
    while i < list.len()
        invariant
            i <= list.len(),
            forall|k: int| 0 <= k < i ==> (#[trigger] list@[k])@ != s@,
        decreases list.len() - i,
    {
        if list[i] == *s {
            assert(views(list@)[i as int] == s@);
            return true;
        }
        i = i + 1;
    }
    proof {
        if views(list@).contains(s@) {
            let k = choose|k: int| 0 <= k < list@.len() && views(list@)[k] == s@;
            assert(list@[k]@ == s@);
        }
    }
    false
}

pub(crate) fn overlap_strings(a: &Vec<String>, b: &Vec<String>) -> (r: bool)
    ensures
        r == overlaps(views(a@), views(b@)),
{
    let ghost av = views(a@);
    let mut i: usize = 0;
    while i < a.len()
        invariant
            i <= a.len(),
            av == views(a@),
            forall|k: int| 0 <= k < i ==> !views(b@).contains(#[trigger] av[k]),
        decreases a.len() - i,
    {
        if holds_string(b, &a[i]) {
            assert(views(b@).contains(av[i as int]));
            return true;
        }
        i = i + 1;
    }
    false
}

/// Credited names with their join phrases, concatenated.
pub open spec fn evidence_credit(credits: Seq<ArtistEvidenceView>) -> Seq<char>
    decreases credits.len(),
{
    if credits.len() == 0 {
        Seq::empty()
    } else {
        evidence_credit(credits.drop_last()) + credits.last().name + credits.last().join_phrase
    }
}

/// The normalized credit of a list of Artist evidence.
pub open spec fn credit_names(credits: Seq<ArtistEvidenceView>) -> Seq<char> {
    normalized(evidence_credit(credits))
}

pub fn names(credits: &Vec<ArtistEvidence>) -> (r: String)
    ensures
        r@ == credit_names(artist_ev_views(credits@)),
{
    let ghost cv = artist_ev_views(credits@);
    let mut out: Vec<char> = Vec::new();
    let mut i: usize = 0;
    while i < credits.len()
        invariant
            i <= credits.len(),
            cv == artist_ev_views(credits@),
            out@ == evidence_credit(cv.take(i as int)),
        decreases credits.len() - i,
    {
        append_chars(&mut out, &chars_of(credits[i].name.as_str()));
        append_chars(&mut out, &chars_of(credits[i].join_phrase.as_str()));
        assert(cv.take(i + 1).drop_last() =~= cv.take(i as int));
        i = i + 1;
    }
    assert(cv.take(credits.len() as int) =~= cv);
    normalize(string_of(out.as_slice()).as_str())
}

/// Normalized title agreement, unknown unless both titles are present and nonempty.
pub open spec fn title_agreement(a: Option<Seq<char>>, b: Option<Seq<char>>) -> Option<bool> {
    match (a, b) {
        (Some(x), Some(y)) => if normalized(x).len() > 0 && normalized(y).len() > 0 {
            Some(normalized(x) == normalized(y))
        } else {
            None
        },
        _ => None,
    }
}

fn title(a: &Option<String>, b: &Option<String>) -> (r: Option<bool>)
    ensures
        r == title_agreement(opt_chars(*a), opt_chars(*b)),
{
    match (a, b) {
        (Some(x), Some(y)) => {
            let nx = normalize(x.as_str());
            let ny = normalize(y.as_str());
            if !nx.as_str().is_empty() && !ny.as_str().is_empty() {
                Some(nx == ny)
            } else {
                None
            }
        },
        _ => None,
    }
}

// ---------------------------------------------------------------------------
// One local track against one aligned candidate track.

/// A one-finding list when `b` holds, empty otherwise.
pub open spec fn flag(b: bool, f: Finding) -> Seq<Finding> {
    if b {
        seq![f]
    } else {
        Seq::empty()
    }
}

/// Both tracks carry one trusted Recording identity.
pub open spec fn same_recording(t: TrackEvidenceView, c: TrackEvidenceView) -> bool {
    shared_valid(t.recording.identities, c.recording.identities)
}

/// Recording identities disagree, between the tracks or within either one.
pub open spec fn recording_conflict(t: TrackEvidenceView, c: TrackEvidenceView) -> bool {
    ||| conflicting(t.recording.identities, c.recording.identities)
    ||| conflicting(t.recording.identities, t.recording.identities)
    ||| conflicting(c.recording.identities, c.recording.identities)
}

/// Credits of equal length whose artists pairwise share an identity.
pub open spec fn credits_linked(a: Seq<ArtistEvidenceView>, b: Seq<ArtistEvidenceView>) -> bool {
    a.len() == b.len() && forall|k: int|
        0 <= k < a.len() ==> overlaps(#[trigger] a[k].identities, b[k].identities)
}

/// Printed credits differ and no identity links them artist by artist.
pub open spec fn artist_difference(t: TrackEvidenceView, c: TrackEvidenceView) -> bool {
    &&& credit_names(t.artists).len() > 0
    &&& credit_names(c.artists).len() > 0
    &&& credit_names(t.artists) != credit_names(c.artists)
    &&& !credits_linked(t.artists, c.artists)
}

/// Both tracks list ISRCs and none is shared.
pub open spec fn isrc_difference(t: TrackEvidenceView, c: TrackEvidenceView) -> bool {
    t.recording.isrcs.len() > 0 && c.recording.isrcs.len() > 0 && !overlaps(
        t.recording.isrcs,
        c.recording.isrcs,
    )
}

/// Two durations within three seconds of each other.
pub open spec fn duration_close(a: u64, b: u64) -> bool {
    if a >= b {
        a - b <= 3000
    } else {
        b - a <= 3000
    }
}

/// Both durations are known and further apart than three seconds.
pub open spec fn duration_conflict(t: TrackEvidenceView, c: TrackEvidenceView) -> bool {
    match (t.duration_ms, c.duration_ms) {
        (Some(a), Some(b)) => !duration_close(a, b),
        _ => false,
    }
}

/// Findings on two tracks whose durations are both known.
pub open spec fn duration_findings(t: TrackEvidenceView, c: TrackEvidenceView) -> Seq<Finding> {
    match (t.duration_ms, c.duration_ms) {
        (Some(a), Some(b)) => if duration_close(a, b) {
            seq![Finding::DurationSupport]
        } else {
            seq![Finding::DurationConflict]
        },
        _ => Seq::empty(),
    }
}

/// ISRC findings: a difference, else a shared code, else nothing.
pub open spec fn isrc_findings(t: TrackEvidenceView, c: TrackEvidenceView) -> Seq<Finding> {
    if isrc_difference(t, c) {
        seq![Finding::IsrcDifference]
    } else {
        flag(overlaps(t.recording.isrcs, c.recording.isrcs), Finding::IsrcSupport)
    }
}

/// The findings on an aligned pair of tracks, in the order they are checked.
pub open spec fn track_findings(t: TrackEvidenceView, c: TrackEvidenceView) -> Seq<Finding> {
    flag(same_recording(t, c), Finding::RecordingSupport) + flag(
        recording_conflict(t, c),
        Finding::RecordingIdentityConflict,
    ) + flag(title_agreement(t.title, c.title) == Some(false), Finding::TitleDifference) + flag(
        artist_difference(t, c),
        Finding::ArtistDifference,
    ) + isrc_findings(t, c) + duration_findings(t, c)
}

/// A conflicting Recording identity, or a duration conflict that no shared
/// Recording identity overrules.
pub open spec fn track_contradiction(t: TrackEvidenceView, c: TrackEvidenceView) -> bool {
    recording_conflict(t, c) || (duration_conflict(t, c) && !same_recording(t, c))
}

/// Uncontradicted, and either the same Recording or the same title with no
/// artist or ISRC difference.
pub open spec fn track_supported(t: TrackEvidenceView, c: TrackEvidenceView) -> bool {
    &&& !track_contradiction(t, c)
    &&& (same_recording(t, c) || (title_agreement(t.title, c.title) == Some(true) && !artist_difference(
        t,
        c,
    ) && !isrc_difference(t, c)))
}

pub struct TrackReportView {
    pub track_id: Seq<char>,
    pub candidate_index: Option<usize>,
    pub findings: Seq<Finding>,
    pub supported: bool,
    pub contradiction: bool,
}

impl View for TrackReport {
    type V = TrackReportView;

    open spec fn view(&self) -> TrackReportView {
        TrackReportView {
            track_id: self.track_id.0@,
            candidate_index: self.candidate_index,
            findings: self.findings@,
            supported: self.supported,
            contradiction: self.contradiction,
        }
    }
}

fn push_if(findings: &mut Vec<Finding>, b: bool, f: Finding)
    ensures
        final(findings)@ == old(findings)@ + flag(b, f),
{
    if b {
        findings.push(f);
    }
    assert(final(findings)@ =~= old(findings)@ + flag(b, f));
}

fn credits_linked_exec(a: &Vec<ArtistEvidence>, b: &Vec<ArtistEvidence>) -> (r: bool)
    ensures
        r == credits_linked(artist_ev_views(a@), artist_ev_views(b@)),
{
    if a.len() != b.len() {
        return false;
    }
    let ghost av = artist_ev_views(a@);
    let ghost bv = artist_ev_views(b@);
    let mut k: usize = 0;
    while k < a.len()
        invariant
            k <= a.len(),
            a.len() == b.len(),
            av == artist_ev_views(a@),
            bv == artist_ev_views(b@),
            forall|x: int| 0 <= x < k ==> overlaps(#[trigger] av[x].identities, bv[x].identities),
        decreases a.len() - k,
    {
        if !overlap_identities(&a[k].identities, &b[k].identities) {
            assert(!overlaps(av[k as int].identities, bv[k as int].identities));
            return false;
        }
        k = k + 1;
    }
    true
}

#[verifier::spinoff_prover]
#[verifier::rlimit(40)]
fn track_report(local: &LocalTrackEvidence, candidate: Option<(usize, &TrackEvidence)>) -> (r:
    TrackReport)
    ensures
        r@.track_id == local@.track_id,
        match candidate {
            None => {
                &&& r@.candidate_index is None
                &&& r@.findings == seq![Finding::PositionUnknown]
                &&& !r@.supported
                &&& !r@.contradiction
            },
            Some((i, c)) => {
                &&& r@.candidate_index == Some(i)
                &&& r@.findings == track_findings(local@.evidence, c@)
                &&& r@.supported == track_supported(local@.evidence, c@)
                &&& r@.contradiction == track_contradiction(local@.evidence, c@)
            },
        },
{
    let (index, c) = match candidate {
        None => {
            return TrackReport {
                track_id: local.track_id.clone(),
                candidate_index: None,
                findings: vec![Finding::PositionUnknown],
                supported: false,
                contradiction: false,
            };
        },
        Some((i, c)) => (i, c),
    };
    let t = &local.evidence;
    let ghost tv = t@;
    let ghost cv = c@;
    let mut findings: Vec<Finding> = Vec::new();
    let mut contradiction = false;
    let same_rec = shared_identity(&t.recording.identities, &c.recording.identities);
    push_if(&mut findings, same_rec, Finding::RecordingSupport);
    let rec_conflict = conflict(&t.recording.identities, &c.recording.identities) || conflict(
        &t.recording.identities,
        &t.recording.identities,
    ) || conflict(&c.recording.identities, &c.recording.identities);
    push_if(&mut findings, rec_conflict, Finding::RecordingIdentityConflict);
    if rec_conflict {
        contradiction = true;
    }
    let same_title = title(&t.title, &c.title);
    push_if(&mut findings, same_title == Some(false), Finding::TitleDifference);
    let tn = names(&t.artists);
    let cn = names(&c.artists);
    let artist_diff = !tn.as_str().is_empty() && !cn.as_str().is_empty() && !(tn == cn)
        && !credits_linked_exec(&t.artists, &c.artists);
    push_if(&mut findings, artist_diff, Finding::ArtistDifference);
    let shared_isrc = overlap_strings(&t.recording.isrcs, &c.recording.isrcs);
    let isrc_diff = t.recording.isrcs.len() > 0 && c.recording.isrcs.len() > 0 && !shared_isrc;
    if isrc_diff {
        findings.push(Finding::IsrcDifference);
    } else {
        push_if(&mut findings, shared_isrc, Finding::IsrcSupport);
    }
    let ghost before_duration = findings@;
    match (t.duration_ms, c.duration_ms) {
        (Some(a), Some(b)) => {
            let gap = if a >= b {
                a - b
            } else {
                b - a
            };
            if gap <= 3000 {
                findings.push(Finding::DurationSupport);
            } else {
                findings.push(Finding::DurationConflict);
                if !same_rec {
                    contradiction = true;
                }
            }
        },
        _ => {},
    }
    proof {
        assert(findings@ =~= before_duration + duration_findings(tv, cv));
        assert(Seq::<Finding>::empty() + flag(same_recording(tv, cv), Finding::RecordingSupport)
            =~= flag(same_recording(tv, cv), Finding::RecordingSupport));
        assert(findings@ =~= track_findings(tv, cv));
    }
    let supported = !contradiction && (same_rec || (same_title == Some(true) && !artist_diff
        && !isrc_diff));
    TrackReport {
        track_id: local.track_id.clone(),
        candidate_index: Some(index),
        findings,
        supported,
        contradiction,
    }
}

// ---------------------------------------------------------------------------
// Views of the edition evidence.

pub struct MetadataView {
    pub title: Option<Seq<char>>,
    pub artists: Seq<ArtistEvidenceView>,
    pub date: Option<Seq<char>>,
    pub barcodes: Seq<Seq<char>>,
    pub labels: Seq<(Seq<char>, Option<Seq<char>>)>,
    pub country: Option<Seq<char>>,
    pub media: Seq<Seq<char>>,
    pub edition_text: Option<Seq<char>>,
}

pub open spec fn label_views(s: Seq<(String, Option<String>)>) -> Seq<(Seq<char>, Option<Seq<char>>)> {
    s.map_values(|p: (String, Option<String>)| (p.0@, opt_chars(p.1)))
}

impl View for EditionMetadata {
    type V = MetadataView;

    open spec fn view(&self) -> MetadataView {
        MetadataView {
            title: opt_chars(self.title),
            artists: artist_ev_views(self.artists@),
            date: opt_chars(self.date),
            barcodes: views(self.barcodes@),
            labels: label_views(self.labels@),
            country: opt_chars(self.country),
            media: views(self.media@),
            edition_text: opt_chars(self.edition_text),
        }
    }
}

pub struct CandidateView {
    pub identity: IdentityView,
    pub exact_identities: Seq<IdentityView>,
    pub grouping: Option<IdentityView>,
    pub metadata: MetadataView,
    pub tracks: Seq<TrackEvidenceView>,
    pub tracklist_complete: bool,
}

pub open spec fn opt_id(i: Option<ExternalIdentity>) -> Option<IdentityView> {
    match i {
        Some(v) => Some(v@),
        None => None,
    }
}

impl View for EditionCandidate {
    type V = CandidateView;

    open spec fn view(&self) -> CandidateView {
        CandidateView {
            identity: self.identity@,
            exact_identities: id_views(self.exact_identities@),
            grouping: opt_id(self.grouping),
            metadata: self.metadata@,
            tracks: track_ev_views(self.tracks@),
            tracklist_complete: self.tracklist_complete,
        }
    }
}

pub struct LocalEditionView {
    pub album_id: Seq<char>,
    pub release_id: Seq<char>,
    pub album_title: Seq<char>,
    pub grouping_identities: Seq<IdentityView>,
    pub identities: Seq<IdentityView>,
    pub exact_identities: Seq<IdentityView>,
    pub metadata: MetadataView,
    pub tracks: Seq<LocalTrackView>,
    pub completeness: Completeness,
}

impl View for LocalEditionEvidence {
    type V = LocalEditionView;

    open spec fn view(&self) -> LocalEditionView {
        LocalEditionView {
            album_id: self.album_id.0@,
            release_id: self.release_id.0@,
            album_title: self.album_title@,
            grouping_identities: id_views(self.grouping_identities@),
            identities: id_views(self.identities@),
            exact_identities: id_views(self.exact_identities@),
            metadata: self.metadata@,
            tracks: local_views(self.tracks@),
            completeness: self.completeness,
        }
    }
}

// ---------------------------------------------------------------------------
// One candidate edition against the local edition.

/// Both sides carry one trusted exact-edition identity.
pub open spec fn exact_support(l: LocalEditionView, c: CandidateView) -> bool {
    shared_valid(l.exact_identities, c.exact_identities)
}

/// Exact-edition identities disagree, between the sides or within either one.
pub open spec fn edition_conflict(l: LocalEditionView, c: CandidateView) -> bool {
    ||| conflicting(l.exact_identities, c.exact_identities)
    ||| conflicting(l.exact_identities, l.exact_identities)
    ||| conflicting(c.exact_identities, c.exact_identities)
}

pub open spec fn title_support(l: LocalEditionView, c: CandidateView) -> bool {
    title_agreement(Some(l.album_title), c.metadata.title) == Some(true)
}

pub open spec fn artist_support(l: LocalEditionView, c: CandidateView) -> bool {
    credit_names(l.metadata.artists).len() > 0 && credit_names(l.metadata.artists)
        == credit_names(c.metadata.artists)
}

/// The candidate's release group is one the local edition belongs to.
pub open spec fn grouping_support(l: LocalEditionView, c: CandidateView) -> bool {
    match c.grouping {
        Some(g) => l.grouping_identities.contains(g),
        None => false,
    }
}

pub open spec fn barcode_support(l: LocalEditionView, c: CandidateView) -> bool {
    overlaps(l.metadata.barcodes, c.metadata.barcodes)
}

/// Country, barcodes, labels, date or media differ.
pub open spec fn packaging_difference(l: LocalEditionView, c: CandidateView) -> bool {
    ||| l.metadata.country != c.metadata.country
    ||| l.metadata.barcodes != c.metadata.barcodes
    ||| l.metadata.labels != c.metadata.labels
    ||| l.metadata.date != c.metadata.date
    ||| l.metadata.media != c.metadata.media
}

/// Both track lists are trusted to be the whole program in musical order.
pub open spec fn complete_pair(l: LocalEditionView, c: CandidateView) -> bool {
    l.completeness == Completeness::TrustedComplete && c.tracklist_complete
}

pub open spec fn count_conflict(l: LocalEditionView, c: CandidateView) -> bool {
    complete_pair(l, c) && l.tracks.len() != c.tracks.len()
}

/// The candidate-level findings, in the order they are checked.
pub open spec fn candidate_findings(l: LocalEditionView, c: CandidateView) -> Seq<Finding> {
    flag(exact_support(l, c), Finding::ExactIdentitySupport) + flag(
        edition_conflict(l, c),
        Finding::EditionIdentityConflict,
    ) + flag(title_support(l, c), Finding::TitleSupport) + flag(
        artist_support(l, c),
        Finding::ArtistSupport,
    ) + flag(grouping_support(l, c), Finding::GroupingSupport) + flag(
        barcode_support(l, c),
        Finding::BarcodeSupport,
    ) + flag(packaging_difference(l, c), Finding::PackagingDifference) + flag(
        !complete_pair(l, c),
        Finding::IncompleteTracklist,
    ) + flag(count_conflict(l, c), Finding::TrackCountConflict)
}

/// Indices below `upto` of the candidate tracks placed at `disc`/`number`.
pub open spec fn positions_at(tracks: Seq<TrackEvidenceView>, disc: u32, number: u32, upto: int) -> Seq<
    int,
>
    decreases upto,
{
    if upto <= 0 {
        Seq::empty()
    } else {
        positions_at(tracks, disc, number, upto - 1) + (if tracks[upto - 1].disc == Some(disc)
            && tracks[upto - 1].number == Some(number) {
            seq![upto - 1]
        } else {
            Seq::empty()
        })
    }
}

/// The candidate track a local track is aligned with: the same index when both
/// lists are complete, else the one candidate track at the same disc and number.
pub open spec fn aligned_index(l: LocalEditionView, c: CandidateView, i: int) -> Option<int> {
    if complete_pair(l, c) {
        if i < c.tracks.len() {
            Some(i)
        } else {
            None
        }
    } else {
        match (l.tracks[i].evidence.disc, l.tracks[i].evidence.number) {
            (Some(d), Some(n)) => {
                let m = positions_at(c.tracks, d, n, c.tracks.len() as int);
                if m.len() == 1 {
                    Some(m[0])
                } else {
                    None
                }
            },
            _ => None,
        }
    }
}

/// The report of local track `i` against its aligned candidate track.
pub open spec fn aligned_report(l: LocalEditionView, c: CandidateView, i: int) -> TrackReportView {
    let t = l.tracks[i];
    match aligned_index(l, c, i) {
        None => TrackReportView {
            track_id: t.track_id,
            candidate_index: None,
            findings: seq![Finding::PositionUnknown],
            supported: false,
            contradiction: false,
        },
        Some(j) => TrackReportView {
            track_id: t.track_id,
            candidate_index: Some(j as usize),
            findings: track_findings(t.evidence, c.tracks[j]),
            supported: track_supported(t.evidence, c.tracks[j]),
            contradiction: track_contradiction(t.evidence, c.tracks[j]),
        },
    }
}

/// Some track other than the one at `i` carries the same title.
pub open spec fn title_found(title: Option<Seq<char>>, tracks: Seq<TrackEvidenceView>, i: int) -> bool {
    exists|j: int|
        0 <= j < tracks.len() && j != i && title_agreement(title, (#[trigger] tracks[j]).title) == Some(true)
}

/// Some other candidate position carries the same title as local track `i`.
pub open spec fn title_elsewhere(l: LocalEditionView, c: CandidateView, i: int) -> bool {
    title_found(l.tracks[i].evidence.title, c.tracks, i)
}

/// The report of local track `i`: a known sequence permutation turns an
/// unsupported, uncontradicted track into an order conflict.
pub open spec fn track_outcome(l: LocalEditionView, c: CandidateView, i: int) -> TrackReportView {
    let r = aligned_report(l, c, i);
    if complete_pair(l, c) && !r.supported && !r.contradiction && title_elsewhere(l, c, i) {
        TrackReportView {
            track_id: r.track_id,
            candidate_index: r.candidate_index,
            findings: r.findings.push(Finding::OrderConflict),
            supported: r.supported,
            contradiction: true,
        }
    } else {
        r
    }
}

pub open spec fn track_outcomes(l: LocalEditionView, c: CandidateView) -> Seq<TrackReportView> {
    Seq::new(l.tracks.len(), |i: int| track_outcome(l, c, i))
}

pub open spec fn count_supported(rs: Seq<TrackReportView>) -> nat
    decreases rs.len(),
{
    if rs.len() == 0 {
        0
    } else {
        count_supported(rs.drop_last()) + if rs.last().supported {
            1nat
        } else {
            0nat
        }
    }
}

pub open spec fn any_contradiction(rs: Seq<TrackReportView>) -> bool {
    exists|k: int| 0 <= k < rs.len() && (#[trigger] rs[k]).contradiction
}

pub open spec fn candidate_contradictory(l: LocalEditionView, c: CandidateView) -> bool {
    edition_conflict(l, c) || count_conflict(l, c) || any_contradiction(track_outcomes(l, c))
}

/// The assessment of one candidate: contradiction first, then exact identity,
/// then complete supported content, then album-level support.
pub open spec fn candidate_assessment(l: LocalEditionView, c: CandidateView) -> Assessment {
    if candidate_contradictory(l, c) {
        Assessment::Contradictory
    } else if exact_support(l, c) {
        Assessment::ExactEdition
    } else if complete_pair(l, c) && l.tracks.len() > 0 && count_supported(track_outcomes(l, c))
        == l.tracks.len() {
        Assessment::ContentEquivalent
    } else if grouping_support(l, c) || (title_support(l, c) && artist_support(l, c)) {
        Assessment::AlbumOnly
    } else {
        Assessment::InsufficientEvidence
    }
}

pub struct CandidateReportView {
    pub identity: IdentityView,
    pub assessment: Assessment,
    pub findings: Seq<Finding>,
    pub tracks: Seq<TrackReportView>,
    pub supported_tracks: usize,
}

pub open spec fn report_views(s: Seq<TrackReport>) -> Seq<TrackReportView> {
    s.map_values(|t: TrackReport| t@)
}

impl View for CandidateReport {
    type V = CandidateReportView;

    open spec fn view(&self) -> CandidateReportView {
        CandidateReportView {
            identity: self.identity@,
            assessment: self.assessment,
            findings: self.findings@,
            tracks: report_views(self.tracks@),
            supported_tracks: self.supported_tracks,
        }
    }
}

fn ids_eq(a: &Vec<ExternalIdentity>, b: &Vec<ExternalIdentity>) -> (r: bool)
    ensures
        r == (id_views(a@) == id_views(b@)),
{
    if a.len() != b.len() {
        assert(id_views(a@).len() != id_views(b@).len());
        return false;
    }
    let mut i: usize = 0;
    while i < a.len()
        invariant
            i <= a.len(),
            a.len() == b.len(),
            forall|k: int| 0 <= k < i ==> (#[trigger] a@[k])@ == b@[k]@,
        decreases a.len() - i,
    {
        if !a[i].same(&b[i]) {
            assert(id_views(a@)[i as int] != id_views(b@)[i as int]);
            return false;
        }
        i = i + 1;
    }
    assert(id_views(a@) =~= id_views(b@));
    true
}

fn artists_eq(a: &Vec<ArtistEvidence>, b: &Vec<ArtistEvidence>) -> (r: bool)
    ensures
        r == (artist_ev_views(a@) == artist_ev_views(b@)),
{
    if a.len() != b.len() {
        assert(artist_ev_views(a@).len() != artist_ev_views(b@).len());
        return false;
    }
    let mut i: usize = 0;
    while i < a.len()
        invariant
            i <= a.len(),
            a.len() == b.len(),
            forall|k: int| 0 <= k < i ==> (#[trigger] a@[k])@ == b@[k]@,
        decreases a.len() - i,
    {
        let same = ids_eq(&a[i].identities, &b[i].identities) && a[i].name == b[i].name
            && a[i].join_phrase == b[i].join_phrase;
        if !same {
            assert(artist_ev_views(a@)[i as int] != artist_ev_views(b@)[i as int]);
            return false;
        }
        i = i + 1;
    }
    assert(artist_ev_views(a@) =~= artist_ev_views(b@));
    true
}

/// The two pieces of track evidence say the same.
pub fn same_evidence(a: &TrackEvidence, b: &TrackEvidence) -> (r: bool)
    ensures
        r == (a@ == b@),
{
    let r = ids_eq(&a.identities, &b.identities) && a.disc == b.disc && a.number == b.number
        && opt_str_eq(&a.title, &b.title) && artists_eq(&a.artists, &b.artists) && a.duration_ms
        == b.duration_ms && ids_eq(&a.recording.identities, &b.recording.identities)
        && strings_eq(&a.recording.isrcs, &b.recording.isrcs);
    proof {
        if r {
            assert(a@.recording == b@.recording);
            assert(a@ == b@);
        }
    }
    r
}

/// The two lists hold the same local tracks in the same order.
pub fn same_local_tracks(a: &[LocalTrackEvidence], b: &[LocalTrackEvidence]) -> (r: bool)
    ensures
        r == (local_views(a@) == local_views(b@)),
{
    if a.len() != b.len() {
        assert(local_views(a@).len() != local_views(b@).len());
        return false;
    }
    let mut i: usize = 0;
    while i < a.len()
        invariant
            i <= a.len(),
            a.len() == b.len(),
            forall|k: int| 0 <= k < i ==> (#[trigger] a@[k])@ == b@[k]@,
        decreases a.len() - i,
    {
        let same = a[i].track_id.0 == b[i].track_id.0 && a[i].recording_id.0
            == b[i].recording_id.0 && same_evidence(&a[i].evidence, &b[i].evidence);
        if !same {
            assert(local_views(a@)[i as int] != local_views(b@)[i as int]);
            return false;
        }
        i = i + 1;
    }
    assert(local_views(a@) =~= local_views(b@));
    true
}

pub(crate) fn opt_str_eq(a: &Option<String>, b: &Option<String>) -> (r: bool)
    ensures
        r == (opt_chars(*a) == opt_chars(*b)),
{
    match (a, b) {
        (Some(x), Some(y)) => *x == *y,
        (None, None) => true,
        _ => false,
    }
}

fn strings_eq(a: &Vec<String>, b: &Vec<String>) -> (r: bool)
    ensures
        r == (views(a@) == views(b@)),
{
    if a.len() != b.len() {
        assert(views(a@).len() != views(b@).len());
        return false;
    }
    let mut i: usize = 0;
    while i < a.len()
        invariant
            i <= a.len(),
            a.len() == b.len(),
            forall|k: int| 0 <= k < i ==> (#[trigger] a@[k])@ == b@[k]@,
        decreases a.len() - i,
    {
        if !(a[i] == b[i]) {
            assert(views(a@)[i as int] != views(b@)[i as int]);
            return false;
        }
        i = i + 1;
    }
    assert(views(a@) =~= views(b@));
    true
}

fn labels_eq(a: &Vec<(String, Option<String>)>, b: &Vec<(String, Option<String>)>) -> (r: bool)
    ensures
        r == (label_views(a@) == label_views(b@)),
{
    if a.len() != b.len() {
        assert(label_views(a@).len() != label_views(b@).len());
        return false;
    }
    let mut i: usize = 0;
    while i < a.len()
        invariant
            i <= a.len(),
            a.len() == b.len(),
            forall|k: int| 0 <= k < i ==> #[trigger] label_views(a@)[k] == label_views(b@)[k],
        decreases a.len() - i,
    {
        if !(a[i].0 == b[i].0) || !opt_str_eq(&a[i].1, &b[i].1) {
            assert(label_views(a@)[i as int] != label_views(b@)[i as int]);
            return false;
        }
        assert(label_views(a@)[i as int] == label_views(b@)[i as int]);
        i = i + 1;
    }
    assert(label_views(a@) =~= label_views(b@));
    true
}

/// The one track at `disc`/`number`, if exactly one is there.
fn sole_position(tracks: &Vec<TrackEvidence>, disc: u32, number: u32) -> (r: Option<usize>)
    ensures
        ({
            let m = positions_at(track_ev_views(tracks@), disc, number, tracks.len() as int);
            match r {
                Some(j) => m.len() == 1 && m[0] == j && j < tracks.len(),
                None => m.len() != 1,
            }
        }),
{
    let ghost tv = track_ev_views(tracks@);
    let mut count: usize = 0;
    let mut first: usize = 0;
    let mut k: usize = 0;
    while k < tracks.len()
        invariant
            k <= tracks.len(),
            tv == track_ev_views(tracks@),
            count == positions_at(tv, disc, number, k as int).len(),
            count <= k,
            count > 0 ==> first < k && positions_at(tv, disc, number, k as int)[0] == first,
        decreases tracks.len() - k,
    {
        let ghost before = positions_at(tv, disc, number, k as int);
        if tracks[k].disc == Some(disc) && tracks[k].number == Some(number) {
            if count == 0 {
                first = k;
            }
            count = count + 1;
        }
        assert(positions_at(tv, disc, number, k + 1) == before + (if tv[k as int].disc == Some(disc)
            && tv[k as int].number == Some(number) {
            seq![k as int]
        } else {
            Seq::empty()
        }));
        k = k + 1;
    }
    if count == 1 {
        Some(first)
    } else {
        None
    }
}

fn title_found_exec(title_of: &Option<String>, tracks: &Vec<TrackEvidence>, i: usize) -> (r: bool)
    ensures
        r == title_found(opt_chars(*title_of), track_ev_views(tracks@), i as int),
{
    let ghost tv = track_ev_views(tracks@);
    let mut j: usize = 0;
    while j < tracks.len()
        invariant
            j <= tracks.len(),
            tv == track_ev_views(tracks@),
            forall|k: int|
                0 <= k < j && k != i ==> title_agreement(opt_chars(*title_of), (#[trigger] tv[k]).title)
                    != Some(true),
        decreases tracks.len() - j,
    {
        if j != i && title(title_of, &tracks[j].title) == Some(true) {
            assert(title_agreement(opt_chars(*title_of), tv[j as int].title) == Some(true));
            return true;
        }
        j = j + 1;
    }
    false
}

/// The report on local track `i`, aligned and checked as `track_outcome` says.
fn track_outcome_exec(local: &LocalEditionEvidence, c: &EditionCandidate, complete: bool, i: usize) -> (r:
    TrackReport)
    requires
        i < local.tracks.len(),
        complete == complete_pair(local@, c@),
    ensures
        r@ == track_outcome(local@, c@, i as int),
{
    let ghost lv = local@;
    let ghost cv = c@;
    let t = &local.tracks[i];
    assert(lv.tracks[i as int] == t@);
    let aligned: Option<(usize, &TrackEvidence)> = if complete {
        if i < c.tracks.len() {
            Some((i, &c.tracks[i]))
        } else {
            None
        }
    } else {
        match (t.evidence.disc, t.evidence.number) {
            (Some(d), Some(n)) => match sole_position(&c.tracks, d, n) {
                Some(j) => Some((j, &c.tracks[j])),
                None => None,
            },
            _ => None,
        }
    };
    let mut r = track_report(t, aligned);
    let ghost base = aligned_report(lv, cv, i as int);
    assert(r@ == base);
    if complete && !r.supported && !r.contradiction && title_found_exec(
        &t.evidence.title,
        &c.tracks,
        i,
    ) {
        r.findings.push(Finding::OrderConflict);
        r.contradiction = true;
    }
    r
}

/// Assess one candidate edition against the local edition.
fn candidate_report(local: &LocalEditionEvidence, c: &EditionCandidate) -> (r: CandidateReport)
    ensures
        r@.identity == c@.identity,
        r@.findings == candidate_findings(local@, c@),
        r@.tracks == track_outcomes(local@, c@),
        r@.supported_tracks == count_supported(track_outcomes(local@, c@)),
        r@.assessment == candidate_assessment(local@, c@),
{
    let ghost lv = local@;
    let ghost cv = c@;
    let mut findings: Vec<Finding> = Vec::new();
    let exact = shared_identity(&local.exact_identities, &c.exact_identities);
    push_if(&mut findings, exact, Finding::ExactIdentitySupport);
    let edition_conflicted = conflict(&local.exact_identities, &c.exact_identities) || conflict(
        &local.exact_identities,
        &local.exact_identities,
    ) || conflict(&c.exact_identities, &c.exact_identities);
    push_if(&mut findings, edition_conflicted, Finding::EditionIdentityConflict);
    let album_title = Some(local.album_title.clone());
    let title_supported = title(&album_title, &c.metadata.title) == Some(true);
    let local_names = names(&local.metadata.artists);
    let candidate_names = names(&c.metadata.artists);
    let artist_supported = !local_names.as_str().is_empty() && local_names == candidate_names;
    let grouping_supported = match &c.grouping {
        Some(g) => holds(&local.grouping_identities, g),
        None => false,
    };
    push_if(&mut findings, title_supported, Finding::TitleSupport);
    push_if(&mut findings, artist_supported, Finding::ArtistSupport);
    push_if(&mut findings, grouping_supported, Finding::GroupingSupport);
    let barcodes_shared = overlap_strings(&local.metadata.barcodes, &c.metadata.barcodes);
    push_if(&mut findings, barcodes_shared, Finding::BarcodeSupport);
    let packaging = !opt_str_eq(&local.metadata.country, &c.metadata.country) || !strings_eq(
        &local.metadata.barcodes,
        &c.metadata.barcodes,
    ) || !labels_eq(&local.metadata.labels, &c.metadata.labels) || !opt_str_eq(
        &local.metadata.date,
        &c.metadata.date,
    ) || !strings_eq(&local.metadata.media, &c.metadata.media);
    push_if(&mut findings, packaging, Finding::PackagingDifference);
    let complete = matches!(local.completeness, Completeness::TrustedComplete)
        && c.tracklist_complete;
    push_if(&mut findings, !complete, Finding::IncompleteTracklist);
    let count_conflicted = complete && local.tracks.len() != c.tracks.len();
    push_if(&mut findings, count_conflicted, Finding::TrackCountConflict);
    proof {
        assert(Seq::<Finding>::empty() + flag(exact, Finding::ExactIdentitySupport) =~= flag(
            exact,
            Finding::ExactIdentitySupport,
        ));
        assert(findings@ =~= candidate_findings(lv, cv));
    }
    let ghost outcomes = track_outcomes(lv, cv);
    let mut tracks: Vec<TrackReport> = Vec::new();
    let mut supported_tracks: usize = 0;
    let mut any_contradicted = false;
    let mut i: usize = 0;
    while i < local.tracks.len()
        invariant
            i <= local.tracks.len(),
            lv == local@,
            cv == c@,
            outcomes == track_outcomes(lv, cv),
            complete == complete_pair(lv, cv),
            report_views(tracks@) == outcomes.take(i as int),
            supported_tracks == count_supported(outcomes.take(i as int)),
            supported_tracks <= i,
            any_contradicted == any_contradiction(outcomes.take(i as int)),
        decreases local.tracks.len() - i,
    {
        let r = track_outcome_exec(local, c, complete, i);
        let ghost rv = r@;
        proof {
            assert(outcomes.take(i + 1).drop_last() =~= outcomes.take(i as int));
            assert(outcomes.take(i + 1) =~= outcomes.take(i as int).push(rv));
            if rv.contradiction {
                assert(outcomes.take(i + 1)[i as int].contradiction);
            }
            if any_contradiction(outcomes.take(i + 1)) && !rv.contradiction {
                let k = choose|k: int|
                    0 <= k < i + 1 && (#[trigger] outcomes.take(i + 1)[k]).contradiction;
                assert(outcomes.take(i as int)[k].contradiction);
            }
        }
        if r.supported {
            supported_tracks = supported_tracks + 1;
        }
        if r.contradiction {
            any_contradicted = true;
        }
        tracks.push(r);
        proof {
            assert(report_views(tracks@) =~= outcomes.take(i + 1));
        }
        i = i + 1;
    }
    proof {
        assert(outcomes.take(local.tracks.len() as int) =~= outcomes);
    }
    let contradictory = edition_conflicted || count_conflicted || any_contradicted;
    let assessment = if contradictory {
        Assessment::Contradictory
    } else if exact {
        Assessment::ExactEdition
    } else if complete && local.tracks.len() > 0 && supported_tracks == local.tracks.len() {
        Assessment::ContentEquivalent
    } else if grouping_supported || (title_supported && artist_supported) {
        Assessment::AlbumOnly
    } else {
        Assessment::InsufficientEvidence
    };
    CandidateReport {
        identity: c.identity.clone(),
        assessment,
        findings,
        tracks,
        supported_tracks,
    }
}

// ---------------------------------------------------------------------------
// A bounded candidate set.

/// What `candidate_report` gives for one candidate.
pub open spec fn candidate_outcome(l: LocalEditionView, c: CandidateView) -> CandidateReportView {
    CandidateReportView {
        identity: c.identity,
        assessment: candidate_assessment(l, c),
        findings: candidate_findings(l, c),
        tracks: track_outcomes(l, c),
        supported_tracks: count_supported(track_outcomes(l, c)) as usize,
    }
}

pub open spec fn count_assessed(rs: Seq<CandidateReportView>, a: Assessment) -> nat
    decreases rs.len(),
{
    if rs.len() == 0 {
        0
    } else {
        count_assessed(rs.drop_last(), a) + if rs.last().assessment == a {
            1nat
        } else {
            0nat
        }
    }
}

/// The local exact identities disagree among themselves, or a candidate that
/// shares an exact identity is contradictory.
pub open spec fn exact_blocked(l: LocalEditionView, rs: Seq<CandidateReportView>) -> bool {
    ||| conflicting(l.exact_identities, l.exact_identities)
    ||| exists|k: int|
        0 <= k < rs.len() && (#[trigger] rs[k]).assessment == Assessment::Contradictory
            && rs[k].findings.contains(Finding::ExactIdentitySupport)
}

pub open spec fn any_assessed(rs: Seq<CandidateReportView>, a: Assessment) -> bool {
    exists|k: int| 0 <= k < rs.len() && (#[trigger] rs[k]).assessment == a
}

pub open spec fn all_assessed(rs: Seq<CandidateReportView>, a: Assessment) -> bool {
    forall|k: int| 0 <= k < rs.len() ==> (#[trigger] rs[k]).assessment == a
}

/// The overall assessment of a candidate set. A blocked exact identity wins;
/// then one exact candidate; then one content-equivalent candidate, which
/// stands only in a complete set with no other uncontradicted candidate; more
/// than one of either kind is ambiguous.
pub open spec fn overall(l: LocalEditionView, rs: Seq<CandidateReportView>, complete: bool) -> Assessment {
    let exact = count_assessed(rs, Assessment::ExactEdition);
    let content = count_assessed(rs, Assessment::ContentEquivalent);
    if exact_blocked(l, rs) {
        Assessment::Contradictory
    } else if exact > 1 {
        Assessment::Ambiguous
    } else if exact == 1 {
        Assessment::ExactEdition
    } else if content > 1 {
        Assessment::Ambiguous
    } else if content == 1 && complete && rs.len() - count_assessed(rs, Assessment::Contradictory)
        == 1 {
        Assessment::ContentEquivalent
    } else if content == 1 {
        Assessment::Ambiguous
    } else if any_assessed(rs, Assessment::AlbumOnly) {
        Assessment::AlbumOnly
    } else if rs.len() > 0 && all_assessed(rs, Assessment::Contradictory) {
        Assessment::Contradictory
    } else {
        Assessment::InsufficientEvidence
    }
}

pub struct ReportView {
    pub assessment: Assessment,
    pub candidates_complete: bool,
    pub candidates: Seq<CandidateReportView>,
}

pub open spec fn candidate_views(s: Seq<CandidateReport>) -> Seq<CandidateReportView> {
    s.map_values(|r: CandidateReport| r@)
}

impl View for Report {
    type V = ReportView;

    open spec fn view(&self) -> ReportView {
        ReportView {
            assessment: self.assessment,
            candidates_complete: self.candidates_complete,
            candidates: candidate_views(self.candidates@),
        }
    }
}

fn assessed(r: &CandidateReport, a: Assessment) -> (b: bool)
    ensures
        b == (r@.assessment == a),
{
    match (r.assessment, a) {
        (Assessment::ExactEdition, Assessment::ExactEdition) => true,
        (Assessment::ContentEquivalent, Assessment::ContentEquivalent) => true,
        (Assessment::AlbumOnly, Assessment::AlbumOnly) => true,
        (Assessment::InsufficientEvidence, Assessment::InsufficientEvidence) => true,
        (Assessment::Contradictory, Assessment::Contradictory) => true,
        (Assessment::Ambiguous, Assessment::Ambiguous) => true,
        _ => false,
    }
}

fn lists_exact_support(findings: &Vec<Finding>) -> (b: bool)
    ensures
        b == findings@.contains(Finding::ExactIdentitySupport),
{
    let mut i: usize = 0;
    while i < findings.len()
        invariant
            i <= findings.len(),
            forall|k: int| 0 <= k < i ==> findings@[k] != Finding::ExactIdentitySupport,
        decreases findings.len() - i,
    {
        if matches!(findings[i], Finding::ExactIdentitySupport) {
            assert(findings@[i as int] == Finding::ExactIdentitySupport);
            return true;
        }
        i = i + 1;
    }
    false
}

/// Compare a bounded candidate set. No score or result ordering resolves identity.
pub fn compare(local: &LocalEditionEvidence, candidates: &[EditionCandidate], complete: bool) -> (r:
    Report)
    ensures
        r@.candidates.len() == candidates@.len(),
        forall|k: int|
            0 <= k < candidates@.len() ==> #[trigger] r@.candidates[k] == candidate_outcome(
                local@,
                candidates@[k]@,
            ),
        r@.candidates_complete == complete,
        r@.assessment == overall(local@, r@.candidates, complete),
{
    let ghost lv = local@;
    let mut reports: Vec<CandidateReport> = Vec::new();
    let mut exact: usize = 0;
    let mut content: usize = 0;
    let mut contradictory: usize = 0;
    let mut blocked_by_candidate = false;
    let mut album_only = false;
    let mut all_contradictory = true;
    let mut i: usize = 0;
    while i < candidates.len()
        invariant
            i <= candidates.len(),
            lv == local@,
            reports@.len() == i,
            forall|k: int|
                0 <= k < i ==> #[trigger] candidate_views(reports@)[k] == candidate_outcome(
                    lv,
                    candidates@[k]@,
                ),
            exact == count_assessed(candidate_views(reports@), Assessment::ExactEdition),
            content == count_assessed(candidate_views(reports@), Assessment::ContentEquivalent),
            contradictory == count_assessed(candidate_views(reports@), Assessment::Contradictory),
            exact <= i,
            content <= i,
            contradictory <= i,
            blocked_by_candidate == exists|k: int|
                0 <= k < i && (#[trigger] candidate_views(reports@)[k]).assessment
                    == Assessment::Contradictory && candidate_views(reports@)[k].findings.contains(
                    Finding::ExactIdentitySupport,
                ),
            album_only == any_assessed(candidate_views(reports@), Assessment::AlbumOnly),
            all_contradictory == all_assessed(candidate_views(reports@), Assessment::Contradictory),
        decreases candidates.len() - i,
    {
        let r = candidate_report(local, &candidates[i]);
        let ghost old_views = candidate_views(reports@);
        let ghost rv = r@;
        assert(rv == candidate_outcome(lv, candidates@[i as int]@));
        if assessed(&r, Assessment::ExactEdition) {
            exact = exact + 1;
        }
        if assessed(&r, Assessment::ContentEquivalent) {
            content = content + 1;
        }
        if assessed(&r, Assessment::Contradictory) {
            contradictory = contradictory + 1;
            if lists_exact_support(&r.findings) {
                blocked_by_candidate = true;
            }
        } else {
            all_contradictory = false;
        }
        if assessed(&r, Assessment::AlbumOnly) {
            album_only = true;
        }
        reports.push(r);
        proof {
            let nv = candidate_views(reports@);
            assert(nv =~= old_views.push(rv));
            assert(nv.drop_last() =~= old_views);
            assert(nv[i as int] == rv);
            if rv.assessment != Assessment::Contradictory || !rv.findings.contains(
                Finding::ExactIdentitySupport,
            ) {
                if exists|k: int|
                    0 <= k < i + 1 && (#[trigger] nv[k]).assessment == Assessment::Contradictory
                        && nv[k].findings.contains(Finding::ExactIdentitySupport) {
                    let k = choose|k: int|
                        0 <= k < i + 1 && (#[trigger] nv[k]).assessment
                            == Assessment::Contradictory && nv[k].findings.contains(
                            Finding::ExactIdentitySupport,
                        );
                    assert(old_views[k] == nv[k]);
                }
            }
            if any_assessed(nv, Assessment::AlbumOnly) && rv.assessment != Assessment::AlbumOnly {
                let k = choose|k: int|
                    0 <= k < nv.len() && (#[trigger] nv[k]).assessment == Assessment::AlbumOnly;
                assert(old_views[k] == nv[k]);
            }
            if any_assessed(old_views, Assessment::AlbumOnly) {
                let k = choose|k: int|
                    0 <= k < old_views.len() && (#[trigger] old_views[k]).assessment
                        == Assessment::AlbumOnly;
                assert(nv[k] == old_views[k]);
            }
            if !all_assessed(old_views, Assessment::Contradictory) {
                let k = choose|k: int|
                    0 <= k < old_views.len() && (#[trigger] old_views[k]).assessment
                        != Assessment::Contradictory;
                assert(nv[k] == old_views[k]);
            }
        }
        i = i + 1;
    }
    let self_conflict = conflict(&local.exact_identities, &local.exact_identities);
    let blocked = self_conflict || blocked_by_candidate;
    let assessment = if blocked {
        Assessment::Contradictory
    } else if exact > 1 {
        Assessment::Ambiguous
    } else if exact == 1 {
        Assessment::ExactEdition
    } else if content > 1 {
        Assessment::Ambiguous
    } else if content == 1 && complete && reports.len() - contradictory == 1 {
        Assessment::ContentEquivalent
    } else if content == 1 {
        Assessment::Ambiguous
    } else if album_only {
        Assessment::AlbumOnly
    } else if reports.len() > 0 && all_contradictory {
        Assessment::Contradictory
    } else {
        Assessment::InsufficientEvidence
    };
    Report { assessment, candidates_complete: complete, candidates: reports }
}

// ---------------------------------------------------------------------------
// Laws.

proof fn lemma_count_remove(s: Seq<CandidateReportView>, k: int, a: Assessment)
    requires
        0 <= k < s.len(),
    ensures
        count_assessed(s, a) == count_assessed(s.remove(k), a) + if s[k].assessment == a {
            1nat
        } else {
            0nat
        },
    decreases s.len(),
{
    if k == s.len() - 1 {
        assert(s.remove(k) =~= s.drop_last());
    } else {
        lemma_count_remove(s.drop_last(), k, a);
        assert(s.remove(k).drop_last() =~= s.drop_last().remove(k));
        assert(s.remove(k).last() == s.last());
    }
}

proof fn lemma_count_permutation(s1: Seq<CandidateReportView>, s2: Seq<CandidateReportView>, a: Assessment)
    requires
        s1.to_multiset() == s2.to_multiset(),
    ensures
        count_assessed(s1, a) == count_assessed(s2, a),
    decreases s1.len(),
{
    broadcast use vstd::seq_lib::group_to_multiset_ensures;

    if s1.len() == 0 {
        assert(s2.to_multiset().len() == 0);
        assert(s2.len() == 0);
    } else {
        let v = s1.last();
        assert(s1.contains(v)) by {
            assert(s1[s1.len() - 1] == v);
        }
        assert(s2.to_multiset().count(v) > 0);
        assert(s2.contains(v));
        let k = choose|k: int| 0 <= k < s2.len() && s2[k] == v;
        assert(s1.remove(s1.len() - 1) =~= s1.drop_last());
        assert(s1.drop_last().to_multiset() =~= s2.remove(k).to_multiset());
        lemma_count_permutation(s1.drop_last(), s2.remove(k), a);
        lemma_count_remove(s2, k, a);
    }
}

proof fn lemma_outcomes_permutation(l: LocalEditionView, a: Seq<CandidateView>, b: Seq<CandidateView>)
    requires
        a.to_multiset() == b.to_multiset(),
    ensures
        a.map_values(|c: CandidateView| candidate_outcome(l, c)).to_multiset() == b.map_values(
            |c: CandidateView| candidate_outcome(l, c),
        ).to_multiset(),
    decreases a.len(),
{
    broadcast use vstd::seq_lib::group_to_multiset_ensures;

    let f = |c: CandidateView| candidate_outcome(l, c);
    if a.len() == 0 {
        assert(b.to_multiset().len() == 0);
        assert(b.len() == 0);
        assert(a.map_values(f) =~= b.map_values(f));
    } else {
        let v = a.last();
        assert(a[a.len() - 1] == v);
        assert(b.to_multiset().count(v) > 0);
        let k = choose|k: int| 0 <= k < b.len() && b[k] == v;
        assert(a.remove(a.len() - 1) =~= a.drop_last());
        assert(a.drop_last().to_multiset() =~= b.remove(k).to_multiset());
        lemma_outcomes_permutation(l, a.drop_last(), b.remove(k));
        let ma = a.map_values(f);
        let mb = b.map_values(f);
        assert(ma.drop_last() =~= a.drop_last().map_values(f));
        assert(mb.remove(k) =~= b.remove(k).map_values(f));
        assert(ma.remove(ma.len() - 1) =~= ma.drop_last());
        assert(ma.to_multiset() =~= ma.drop_last().to_multiset().insert(f(v))) by {
            assert(ma =~= ma.drop_last().push(f(v)));
        }
        assert(mb.remove(k).to_multiset() =~= mb.to_multiset().remove(mb[k]));
        assert(mb.to_multiset().count(f(v)) > 0) by {
            assert(mb[k] == f(v));
        }
        assert(mb.to_multiset() =~= mb.remove(k).to_multiset().insert(f(v)));
    }
}

/// No score or result order resolves identity: the overall assessment of a
/// candidate set does not depend on the order of its candidates.
pub proof fn lemma_candidate_order_irrelevant(
    l: LocalEditionView,
    a: Seq<CandidateView>,
    b: Seq<CandidateView>,
    complete: bool,
)
    requires
        a.to_multiset() == b.to_multiset(),
    ensures
        overall(l, a.map_values(|c: CandidateView| candidate_outcome(l, c)), complete) == overall(
            l,
            b.map_values(|c: CandidateView| candidate_outcome(l, c)),
            complete,
        ),
{
    broadcast use vstd::seq_lib::group_to_multiset_ensures;

    let ra = a.map_values(|c: CandidateView| candidate_outcome(l, c));
    let rb = b.map_values(|c: CandidateView| candidate_outcome(l, c));
    lemma_outcomes_permutation(l, a, b);
    lemma_count_permutation(ra, rb, Assessment::ExactEdition);
    lemma_count_permutation(ra, rb, Assessment::ContentEquivalent);
    lemma_count_permutation(ra, rb, Assessment::Contradictory);
    assert(ra.len() == rb.len()) by {
        assert(ra.to_multiset().len() == rb.to_multiset().len());
    }
    assert forall|x: CandidateReportView| ra.contains(x) <==> rb.contains(x) by {
        assert(ra.contains(x) <==> ra.to_multiset().count(x) > 0);
        assert(rb.contains(x) <==> rb.to_multiset().count(x) > 0);
    }
    if exact_blocked(l, ra) && !conflicting(l.exact_identities, l.exact_identities) {
        let k = choose|k: int|
            0 <= k < ra.len() && (#[trigger] ra[k]).assessment == Assessment::Contradictory
                && ra[k].findings.contains(Finding::ExactIdentitySupport);
        assert(ra.contains(ra[k]));
        let j = choose|j: int| 0 <= j < rb.len() && rb[j] == ra[k];
        assert(exact_blocked(l, rb));
    }
    if exact_blocked(l, rb) && !conflicting(l.exact_identities, l.exact_identities) {
        let k = choose|k: int|
            0 <= k < rb.len() && (#[trigger] rb[k]).assessment == Assessment::Contradictory
                && rb[k].findings.contains(Finding::ExactIdentitySupport);
        assert(rb.contains(rb[k]));
        let j = choose|j: int| 0 <= j < ra.len() && ra[j] == rb[k];
        assert(exact_blocked(l, ra));
    }
    if any_assessed(ra, Assessment::AlbumOnly) {
        let k = choose|k: int| 0 <= k < ra.len() && (#[trigger] ra[k]).assessment == Assessment::AlbumOnly;
        assert(ra.contains(ra[k]));
        let j = choose|j: int| 0 <= j < rb.len() && rb[j] == ra[k];
        assert(any_assessed(rb, Assessment::AlbumOnly));
    }
    if any_assessed(rb, Assessment::AlbumOnly) {
        let k = choose|k: int| 0 <= k < rb.len() && (#[trigger] rb[k]).assessment == Assessment::AlbumOnly;
        assert(rb.contains(rb[k]));
        let j = choose|j: int| 0 <= j < ra.len() && ra[j] == rb[k];
        assert(any_assessed(ra, Assessment::AlbumOnly));
    }
    if !all_assessed(ra, Assessment::Contradictory) {
        let k = choose|k: int| 0 <= k < ra.len() && (#[trigger] ra[k]).assessment != Assessment::Contradictory;
        assert(ra.contains(ra[k]));
        let j = choose|j: int| 0 <= j < rb.len() && rb[j] == ra[k];
        assert(!all_assessed(rb, Assessment::Contradictory));
    }
    if !all_assessed(rb, Assessment::Contradictory) {
        let k = choose|k: int| 0 <= k < rb.len() && (#[trigger] rb[k]).assessment != Assessment::Contradictory;
        assert(rb.contains(rb[k]));
        let j = choose|j: int| 0 <= j < ra.len() && ra[j] == rb[k];
        assert(!all_assessed(ra, Assessment::Contradictory));
    }
}

/// A contradictory candidate that shares an exact identity never loses to a
/// weaker match: the whole set is contradictory.
pub proof fn lemma_contradicted_exact_blocks(l: LocalEditionView, rs: Seq<CandidateReportView>, complete: bool, k: int)
    requires
        0 <= k < rs.len(),
        rs[k].assessment == Assessment::Contradictory,
        rs[k].findings.contains(Finding::ExactIdentitySupport),
    ensures
        overall(l, rs, complete) == Assessment::Contradictory,
{
}

/// An ISRC alone is corroboration, not a substitute for Recording identity
/// or title: a supported track shares a Recording identity or its title.
pub proof fn lemma_isrc_alone_insufficient(t: TrackEvidenceView, c: TrackEvidenceView)
    ensures
        track_supported(t, c) ==> same_recording(t, c) || title_agreement(t.title, c.title) == Some(
            true,
        ),
{
}

/// Differing duration measurements never overrule a shared trusted Recording
/// identity: without an identity conflict the pair is not contradictory.
pub proof fn lemma_duration_defers_to_recording(t: TrackEvidenceView, c: TrackEvidenceView)
    requires
        same_recording(t, c),
        !recording_conflict(t, c),
    ensures
        !track_contradiction(t, c),
        track_supported(t, c),
{
}

/// An exact edition needs a shared exact-edition identity and no contradiction.
pub proof fn lemma_exact_needs_identity(l: LocalEditionView, c: CandidateView)
    ensures
        candidate_assessment(l, c) == Assessment::ExactEdition ==> exact_support(l, c)
            && !candidate_contradictory(l, c),
{
}

/// Content equivalence needs a trusted complete local edition, a complete
/// candidate tracklist of the same length, and every local track supported,
/// without any contradiction or shared exact identity.
pub proof fn lemma_content_equivalence_grounds(l: LocalEditionView, c: CandidateView)
    requires
        candidate_assessment(l, c) == Assessment::ContentEquivalent,
    ensures
        l.completeness == Completeness::TrustedComplete,
        c.tracklist_complete,
        l.tracks.len() == c.tracks.len(),
        l.tracks.len() > 0,
        count_supported(track_outcomes(l, c)) == l.tracks.len(),
        !candidate_contradictory(l, c),
        !exact_support(l, c),
{
}

proof fn lemma_count_assessed(rs: Seq<CandidateReportView>, a: Assessment)
    ensures
        count_assessed(rs, a) == 0 <==> !any_assessed(rs, a),
        count_assessed(rs, a) == 1 ==> exists|k: int|
            0 <= k < rs.len() && (#[trigger] rs[k]).assessment == a && forall|j: int|
                0 <= j < rs.len() && j != k ==> (#[trigger] rs[j]).assessment != a,
    decreases rs.len(),
{
    if rs.len() > 0 {
        let rest = rs.drop_last();
        lemma_count_assessed(rest, a);
        let n = rs.len() - 1;
        assert forall|k: int| 0 <= k < n implies #[trigger] rs[k] == rest[k] by {}
        if any_assessed(rest, a) {
            let k = choose|k: int| 0 <= k < rest.len() && (#[trigger] rest[k]).assessment == a;
            assert(rs[k].assessment == a);
        }
        if any_assessed(rs, a) && rs.last().assessment != a {
            let k = choose|k: int| 0 <= k < rs.len() && (#[trigger] rs[k]).assessment == a;
            assert(rest[k].assessment == a);
        }
        if count_assessed(rs, a) == 1 {
            if rs.last().assessment == a {
                assert forall|j: int| 0 <= j < rs.len() && j != n implies (#[trigger] rs[j]).assessment != a by {
                    assert(rest[j] == rs[j]);
                }
                assert(rs[n].assessment == a);
            } else {
                let k = choose|k: int|
                    0 <= k < rest.len() && (#[trigger] rest[k]).assessment == a && forall|j: int|
                        0 <= j < rest.len() && j != k ==> (#[trigger] rest[j]).assessment != a;
                assert(rs[k].assessment == a);
                assert forall|j: int| 0 <= j < rs.len() && j != k implies (#[trigger] rs[j]).assessment != a by {
                    if j < n {
                        assert(rest[j] == rs[j]);
                    }
                }
            }
        }
    }
}

/// The overall verdict names an exact edition only when exactly one
/// candidate is one and no contradiction blocks it; content equivalence only
/// for a complete candidate set where one candidate is equivalent, none is
/// exact and every other one is contradictory; several exact or several
/// equivalent candidates are never settled.
pub proof fn lemma_overall_grounds(l: LocalEditionView, rs: Seq<CandidateReportView>, complete: bool)
    ensures
        overall(l, rs, complete) == Assessment::ExactEdition ==> !exact_blocked(l, rs) && exists|k: int|
            0 <= k < rs.len() && (#[trigger] rs[k]).assessment == Assessment::ExactEdition && forall|j: int|
                0 <= j < rs.len() && j != k ==> (#[trigger] rs[j]).assessment != Assessment::ExactEdition,
        overall(l, rs, complete) == Assessment::ContentEquivalent ==> complete && !any_assessed(
            rs,
            Assessment::ExactEdition,
        ) && exists|k: int|
            0 <= k < rs.len() && (#[trigger] rs[k]).assessment == Assessment::ContentEquivalent && forall|j: int|
                0 <= j < rs.len() && j != k ==> (#[trigger] rs[j]).assessment == Assessment::Contradictory,
        count_assessed(rs, Assessment::ExactEdition) > 1 ==> overall(l, rs, complete)
            != Assessment::ExactEdition,
        count_assessed(rs, Assessment::ContentEquivalent) > 1 ==> overall(l, rs, complete)
            != Assessment::ContentEquivalent,
{
    lemma_count_assessed(rs, Assessment::ExactEdition);
    lemma_count_assessed(rs, Assessment::ContentEquivalent);
    if overall(l, rs, complete) == Assessment::ContentEquivalent {
        let k = choose|k: int|
            0 <= k < rs.len() && (#[trigger] rs[k]).assessment == Assessment::ContentEquivalent && forall|j: int|
                0 <= j < rs.len() && j != k ==> (#[trigger] rs[j]).assessment != Assessment::ContentEquivalent;
        lemma_others_contradictory(rs, k);
    }
}

/// With one equivalent candidate at `k` and all others but contradictory
/// ones counted out, every other candidate is contradictory.
proof fn lemma_others_contradictory(rs: Seq<CandidateReportView>, k: int)
    requires
        0 <= k < rs.len(),
        rs[k].assessment == Assessment::ContentEquivalent,
        rs.len() - count_assessed(rs, Assessment::Contradictory) == 1,
    ensures
        forall|j: int| 0 <= j < rs.len() && j != k ==> (#[trigger] rs[j]).assessment == Assessment::Contradictory,
{
    assert forall|j: int| 0 <= j < rs.len() && j != k implies (#[trigger] rs[j]).assessment
        == Assessment::Contradictory by {
        if rs[j].assessment != Assessment::Contradictory {
            lemma_count_le_without_two(rs, Assessment::Contradictory, j, k);
        }
    }
}

/// Two positions not assessed `a` leave at most `len - 2` counted.
proof fn lemma_count_le_without_two(rs: Seq<CandidateReportView>, a: Assessment, i: int, j: int)
    requires
        0 <= i < rs.len(),
        0 <= j < rs.len(),
        i != j,
        rs[i].assessment != a,
        rs[j].assessment != a,
    ensures
        count_assessed(rs, a) + 2 <= rs.len(),
    decreases rs.len(),
{
    lemma_count_bounded(rs.drop_last(), a);
    let n = rs.len() - 1;
    if i != n && j != n {
        assert(rs.drop_last()[i] == rs[i]);
        assert(rs.drop_last()[j] == rs[j]);
        lemma_count_le_without_two(rs.drop_last(), a, i, j);
    } else {
        let other = if i == n { j } else { i };
        assert(rs.drop_last()[other] == rs[other]);
        lemma_count_le_without_one(rs.drop_last(), a, other);
    }
}

proof fn lemma_count_le_without_one(rs: Seq<CandidateReportView>, a: Assessment, i: int)
    requires
        0 <= i < rs.len(),
        rs[i].assessment != a,
    ensures
        count_assessed(rs, a) + 1 <= rs.len(),
    decreases rs.len(),
{
    lemma_count_bounded(rs.drop_last(), a);
    if i != rs.len() - 1 {
        assert(rs.drop_last()[i] == rs[i]);
        lemma_count_le_without_one(rs.drop_last(), a, i);
    }
}

proof fn lemma_count_bounded(rs: Seq<CandidateReportView>, a: Assessment)
    ensures
        count_assessed(rs, a) <= rs.len(),
    decreases rs.len(),
{
    if rs.len() > 0 {
        lemma_count_bounded(rs.drop_last(), a);
    }
}


/// A track pair that shares no Recording identity is not supported when
/// both printed credits are nonempty and differ, and the credits are not
/// linked artist by artist: they differ in length, or some artist of the
/// local credit shares no identity with the candidate's artist at its place.
pub proof fn lemma_unlinked_credit_unsupported(t: TrackEvidenceView, c: TrackEvidenceView)
    requires
        forall|x: int|
            0 <= x < t.recording.identities.len() ==> !c.recording.identities.contains(
                #[trigger] t.recording.identities[x],
            ),
        credit_names(t.artists).len() > 0,
        credit_names(c.artists).len() > 0,
        credit_names(t.artists) != credit_names(c.artists),
        t.artists.len() != c.artists.len() || exists|k: int|
            0 <= k < t.artists.len() && !overlaps(
                (#[trigger] t.artists[k]).identities,
                c.artists[k].identities,
            ),
    ensures
        !track_supported(t, c),
{
    assert(!same_recording(t, c));
    assert(!credits_linked(t.artists, c.artists));
    assert(artist_difference(t, c));
}

/// An uncontradicted track pair is supported when it shares a valid
/// Recording identity, or when its titles agree, its credits are equal once
/// normalized, and it lists no disjoint ISRCs.
pub proof fn lemma_agreeing_pair_supported(t: TrackEvidenceView, c: TrackEvidenceView)
    requires
        !track_contradiction(t, c),
        (exists|x: int|
            0 <= x < t.recording.identities.len() && valid_id(#[trigger] t.recording.identities[x])
                && c.recording.identities.contains(t.recording.identities[x])) || (title_agreement(
            t.title,
            c.title,
        ) == Some(true) && credit_names(t.artists) == credit_names(c.artists) && (
        t.recording.isrcs.len() == 0 || c.recording.isrcs.len() == 0 || exists|y: int|
            0 <= y < t.recording.isrcs.len() && c.recording.isrcs.contains(
                #[trigger] t.recording.isrcs[y],
            ))),
    ensures
        track_supported(t, c),
{
}

} // verus!
