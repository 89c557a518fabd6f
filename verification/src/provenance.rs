//! Unverified observations, not attached external identities or canonical metadata.
//! Provider adapters classify identifiers; aggregation never interprets provider names.
use vstd::prelude::*;

use crate::domain::{copy_strings, ExternalIdentity, IdentityView, SourceId};
use crate::edition::Completeness;
use crate::text::{
    chars_of, first_occurrences, lemma_first_occurrences, parse_u64, parsed_u64, trim, trimmed,
    views,
};
use std::collections::HashMap;
use std::collections::HashSet;

verus! {

#[derive(Clone, Copy, Debug, Eq, PartialEq, Structural, Hash)]
pub enum Scope {
    AlbumArtist,
    TrackArtist,
    Album,
    Edition,
    Recording,
    Occurrence,
}

#[derive(Clone, Copy, Debug, Eq, PartialEq, Structural, Hash)]
pub enum Semantics {
    ArtistIdentity,
    AlbumIdentity,
    EditionIdentity,
    RecordingIdentity,
    OccurrenceIdentity,
    /// Supporting recording evidence, never a universal identity.
    Isrc,
}

#[derive(Debug, Eq, PartialEq)]
pub enum Origin {
    EmbeddedTag { format: String, field: String },
    ProviderResponse,
    ManualSelection,
}

#[derive(Debug, Eq, PartialEq)]
pub struct Observation {
    pub identity: ExternalIdentity,
    pub scope: Scope,
    pub semantics: Semantics,
    pub origin: Origin,
}

/// Keep repeated/raw declarations: a first-value accessor would hide conflicts.
#[derive(Debug, Eq, PartialEq)]
pub struct Positions {
    pub disc: Vec<String>,
    pub discs: Vec<String>,
    pub track: Vec<String>,
    pub tracks: Vec<String>,
}

#[derive(Debug, Eq, PartialEq)]
pub struct FileProvenance {
    /// Assigned after scan persistence commits, absent for a stand-alone file probe.
    pub source_id: Option<SourceId>,
    pub file_type: Option<String>,
    pub formats: Vec<String>,
    pub observations: Vec<Observation>,
    pub positions: Positions,
}

#[derive(Debug, Eq, PartialEq)]
pub struct IdentityConflict {
    pub scope: Scope,
    pub semantics: Semantics,
    pub provider: String,
    pub kind: String,
    pub values: Vec<String>,
}

#[derive(Debug)]
pub struct Aggregate {
    /// Consistent observations only; still unverified, never automatically attached.
    pub consistent: Vec<Observation>,
    pub conflicts: Vec<IdentityConflict>,
}

/// One entry per Track, retaining each source separately. Empty entries mean no
/// session observation. Multiple sources deliberately cannot prove completeness.
#[derive(Debug)]
pub struct EditionProvenance {
    pub tracks: Vec<Vec<FileProvenance>>,
    pub album_and_edition: Aggregate,
    pub per_track: Vec<Aggregate>,
    pub completeness: Completeness,
}

pub enum OriginView {
    EmbeddedTag { format: Seq<char>, field: Seq<char> },
    ProviderResponse,
    ManualSelection,
}

impl View for Origin {
    type V = OriginView;

    open spec fn view(&self) -> OriginView {
        match self {
            Origin::EmbeddedTag { format, field } => OriginView::EmbeddedTag {
                format: format@,
                field: field@,
            },
            Origin::ProviderResponse => OriginView::ProviderResponse,
            Origin::ManualSelection => OriginView::ManualSelection,
        }
    }
}

impl Clone for Origin {
    fn clone(&self) -> (r: Self)
        ensures
            r@ == self@,
    {
        match self {
            Origin::EmbeddedTag { format, field } => Origin::EmbeddedTag {
                format: format.clone(),
                field: field.clone(),
            },
            Origin::ProviderResponse => Origin::ProviderResponse,
            Origin::ManualSelection => Origin::ManualSelection,
        }
    }
}

pub struct ObservationView {
    pub identity: IdentityView,
    pub scope: Scope,
    pub semantics: Semantics,
    pub origin: OriginView,
}

impl View for Observation {
    type V = ObservationView;

    open spec fn view(&self) -> ObservationView {
        ObservationView {
            identity: self.identity@,
            scope: self.scope,
            semantics: self.semantics,
            origin: self.origin@,
        }
    }
}

impl Clone for Observation {
    fn clone(&self) -> (r: Self)
        ensures
            r@ == self@,
    {
        Observation {
            identity: self.identity.clone(),
            scope: self.scope,
            semantics: self.semantics,
            origin: self.origin.clone(),
        }
    }
}

pub open spec fn observation_views(s: Seq<Observation>) -> Seq<ObservationView> {
    s.map_values(|o: Observation| o@)
}

pub struct PositionsView {
    pub disc: Seq<Seq<char>>,
    pub discs: Seq<Seq<char>>,
    pub track: Seq<Seq<char>>,
    pub tracks: Seq<Seq<char>>,
}

impl View for Positions {
    type V = PositionsView;

    open spec fn view(&self) -> PositionsView {
        PositionsView {
            disc: views(self.disc@),
            discs: views(self.discs@),
            track: views(self.track@),
            tracks: views(self.tracks@),
        }
    }
}

impl Clone for Positions {
    fn clone(&self) -> (r: Self)
        ensures
            r@ == self@,
    {
        Positions {
            disc: copy_strings(self.disc.as_slice()),
            discs: copy_strings(self.discs.as_slice()),
            track: copy_strings(self.track.as_slice()),
            tracks: copy_strings(self.tracks.as_slice()),
        }
    }
}

impl Default for Positions {
    fn default() -> (r: Self)
        ensures
            r@.disc.len() == 0,
            r@.discs.len() == 0,
            r@.track.len() == 0,
            r@.tracks.len() == 0,
    {
        Positions { disc: Vec::new(), discs: Vec::new(), track: Vec::new(), tracks: Vec::new() }
    }
}

// ---------------------------------------------------------------------------
// Declared positions.

/// A declaration read as `u32::from_str` reads it after trimming White_Space.
pub open spec fn number_text(s: Seq<char>) -> Option<u32> {
    match parsed_u64(trimmed(s)) {
        Some(v) => if v <= u32::MAX {
            Some(v as u32)
        } else {
            None
        },
        None => None,
    }
}

/// The one positive value that every declaration states, if they all agree.
pub open spec fn positive_value(values: Seq<Seq<char>>) -> Option<u32> {
    if values.len() == 0 {
        None
    } else {
        match number_text(values[0]) {
            Some(first) => if first > 0 && forall|i: int|
                0 <= i < values.len() ==> number_text(#[trigger] values[i]) == Some(first) {
                Some(first)
            } else {
                None
            },
            None => None,
        }
    }
}

fn number_of(s: &String) -> (r: Option<u32>)
    ensures
        r == number_text(s@),
{
    match parse_u64(&trim(&chars_of(s.as_str()))) {
        Some(v) => if v <= 0xffff_ffffu64 {
            Some(v as u32)
        } else {
            None
        },
        None => None,
    }
}

/// The agreed positive value of repeated declarations.
fn positive(values: &Vec<String>) -> (r: Option<u32>)
    ensures
        r == positive_value(views(values@)),
{
    let ghost vs = views(values@);
    if values.len() == 0 {
        return None;
    }
    let first = match number_of(&values[0]) {
        Some(v) => v,
        None => return None,
    };
    if first == 0 {
        return None;
    }
    let mut i: usize = 0;
    while i < values.len()
        invariant
            i <= values.len(),
            vs == views(values@),
            vs.len() > 0,
            number_text(vs[0]) == Some(first),
            forall|k: int| 0 <= k < i ==> number_text(#[trigger] vs[k]) == Some(first),
        decreases values.len() - i,
    {
        let v = number_of(&values[i]);
        assert(vs[i as int] == values@[i as int]@);
        if v != Some(first) {
            return None;
        }
        i = i + 1;
    }
    Some(first)
}

/// The disc and track declarations each agree on one positive value, and those
/// are the given positions.
pub open spec fn agrees(p: PositionsView, disc: Option<u32>, track: Option<u32>) -> bool {
    match (positive_value(p.disc), positive_value(p.track)) {
        (Some(d), Some(t)) => disc == Some(d) && track == Some(t),
        _ => false,
    }
}

impl Positions {
    /// Both the disc and the track declarations agree on the given positions.
    pub fn agrees_with(&self, disc: Option<u32>, track: Option<u32>) -> (r: bool)
        ensures
            r == agrees(self@, disc, track),
    {
        let d = positive(&self.disc);
        let t = positive(&self.track);
        match (d, t) {
            (Some(d), Some(t)) => disc == Some(d) && track == Some(t),
            _ => false,
        }
    }
}

// ---------------------------------------------------------------------------
// Completeness of a set of declared positions.

/// The agreed positive disc, disc total, track and track total of one file.
pub open spec fn declared(p: PositionsView) -> Option<(u32, u32, u32, u32)> {
    match (
        positive_value(p.disc),
        positive_value(p.discs),
        positive_value(p.track),
        positive_value(p.tracks),
    ) {
        (Some(a), Some(b), Some(c), Some(d)) => Some((a, b, c, d)),
        _ => None,
    }
}

/// All four positions are declared, and neither number exceeds its total.
pub open spec fn declared_ok(p: PositionsView) -> bool {
    match declared(p) {
        Some(x) => x.0 <= x.1 && x.2 <= x.3,
        None => false,
    }
}

pub open spec fn disc_of(p: PositionsView) -> u32 {
    declared(p).unwrap().0
}

pub open spec fn disc_total_of(p: PositionsView) -> u32 {
    declared(p).unwrap().1
}

pub open spec fn track_of(p: PositionsView) -> u32 {
    declared(p).unwrap().2
}

pub open spec fn track_total_of(p: PositionsView) -> u32 {
    declared(p).unwrap().3
}

/// Every file declares its positions within their totals.
pub open spec fn all_declared(ps: Seq<PositionsView>) -> bool {
    forall|i: int| 0 <= i < ps.len() ==> declared_ok(#[trigger] ps[i])
}

/// All files declare one disc total.
pub open spec fn one_disc_total(ps: Seq<PositionsView>) -> bool {
    forall|i: int, j: int|
        0 <= i < ps.len() && 0 <= j < ps.len() ==> disc_total_of(#[trigger] ps[i]) == disc_total_of(
            #[trigger] ps[j],
        )
}

/// Files on one disc declare one track total.
pub open spec fn one_track_total_per_disc(ps: Seq<PositionsView>) -> bool {
    forall|i: int, j: int|
        0 <= i < ps.len() && 0 <= j < ps.len() && disc_of(#[trigger] ps[i]) == disc_of(
            #[trigger] ps[j],
        ) ==> track_total_of(ps[i]) == track_total_of(ps[j])
}

/// Files on one disc declare distinct track numbers.
pub open spec fn distinct_places(ps: Seq<PositionsView>) -> bool {
    forall|i: int, j: int|
        0 <= i < ps.len() && 0 <= j < ps.len() && i != j && disc_of(#[trigger] ps[i]) == disc_of(
            #[trigger] ps[j],
        ) ==> track_of(ps[i]) != track_of(ps[j])
}

/// Every file declares its positions within their totals; all declare one disc
/// total; files on one disc declare one track total and distinct track numbers.
#[verifier::opaque]
pub open spec fn consistent_positions(ps: Seq<PositionsView>) -> bool {
    &&& all_declared(ps)
    &&& one_disc_total(ps)
    &&& one_track_total_per_disc(ps)
    &&& distinct_places(ps)
}

/// The discs that some file declares.
pub open spec fn discs_present(ps: Seq<PositionsView>) -> Set<u32> {
    Set::new(|d: u32| exists|i: int| 0 <= i < ps.len() && disc_of(#[trigger] ps[i]) == d)
}

pub open spec fn disc_seen_before(ps: Seq<PositionsView>, k: int) -> bool {
    exists|j: int| 0 <= j < k && disc_of(#[trigger] ps[j]) == disc_of(ps[k])
}

/// The declared track totals of the distinct discs, summed.
pub open spec fn declared_slots(ps: Seq<PositionsView>) -> nat
    decreases ps.len(),
{
    if ps.len() == 0 {
        0
    } else {
        declared_slots(ps.drop_last()) + if disc_seen_before(ps, ps.len() - 1) {
            0
        } else {
            track_total_of(ps.last()) as nat
        }
    }
}

/// The files fill their declared program exactly: consistent declarations,
/// every declared disc present, and one file per declared track slot.
pub open spec fn complete_declarations(ps: Seq<PositionsView>) -> bool {
    &&& ps.len() > 0
    &&& consistent_positions(ps)
    &&& disc_total_of(ps[0]) == discs_present(ps).len()
    &&& declared_slots(ps) == ps.len()
}

pub open spec fn position_views(s: Seq<Positions>) -> Seq<PositionsView> {
    s.map_values(|p: Positions| p@)
}

/// A place (disc, track) as one number.
pub open spec fn place_code(disc: u32, track: u32) -> u64 {
    (disc as u64 * 0x1_0000_0000 + track as u64) as u64
}

proof fn lemma_place_code(d1: u32, t1: u32, d2: u32, t2: u32)
    ensures
        place_code(d1, t1) == place_code(d2, t2) ==> d1 == d2 && t1 == t2,
{
    assert(place_code(d1, t1) == place_code(d2, t2) ==> d1 == d2 && t1 == t2) by (nonlinear_arith);
}

proof fn lemma_extend_declared(ps: Seq<PositionsView>, k: int)
    requires
        0 <= k < ps.len(),
        all_declared(ps.take(k)),
        declared_ok(ps[k]),
    ensures
        all_declared(ps.take(k + 1)),
{
    let prefix = ps.take(k);
    let next = ps.take(k + 1);
    assert forall|i: int| 0 <= i < next.len() implies declared_ok(#[trigger] next[i]) by {
        if i < k {
            assert(prefix[i] == next[i]);
        }
    }
}

proof fn lemma_extend_disc_total(ps: Seq<PositionsView>, k: int)
    requires
        0 <= k < ps.len(),
        one_disc_total(ps.take(k)),
        k > 0 ==> disc_total_of(ps[k]) == disc_total_of(ps[0]),
    ensures
        one_disc_total(ps.take(k + 1)),
{
    let prefix = ps.take(k);
    let next = ps.take(k + 1);
    assert forall|i: int, j: int|
        0 <= i < next.len() && 0 <= j < next.len() implies disc_total_of(#[trigger] next[i])
        == disc_total_of(#[trigger] next[j]) by {
        if i < k {
            assert(prefix[i] == next[i]);
            assert(disc_total_of(prefix[i]) == disc_total_of(prefix[0]));
        }
        if j < k {
            assert(prefix[j] == next[j]);
            assert(disc_total_of(prefix[j]) == disc_total_of(prefix[0]));
        }
    }
}

proof fn lemma_extend_track_total(ps: Seq<PositionsView>, k: int)
    requires
        0 <= k < ps.len(),
        one_track_total_per_disc(ps.take(k)),
        forall|j: int|
            0 <= j < k && disc_of(#[trigger] ps[j]) == disc_of(ps[k]) ==> track_total_of(ps[j])
                == track_total_of(ps[k]),
    ensures
        one_track_total_per_disc(ps.take(k + 1)),
{
    let prefix = ps.take(k);
    let next = ps.take(k + 1);
    assert forall|i: int, j: int|
        0 <= i < next.len() && 0 <= j < next.len() && disc_of(#[trigger] next[i]) == disc_of(
            #[trigger] next[j],
        ) implies track_total_of(next[i]) == track_total_of(next[j]) by {
        if i < k {
            assert(prefix[i] == next[i]);
        }
        if j < k {
            assert(prefix[j] == next[j]);
        }
    }
}

proof fn lemma_extend_places(ps: Seq<PositionsView>, k: int)
    requires
        0 <= k < ps.len(),
        distinct_places(ps.take(k)),
        forall|j: int|
            0 <= j < k && disc_of(#[trigger] ps[j]) == disc_of(ps[k]) ==> track_of(ps[j]) != track_of(
                ps[k],
            ),
    ensures
        distinct_places(ps.take(k + 1)),
{
    let prefix = ps.take(k);
    let next = ps.take(k + 1);
    assert forall|i: int, j: int|
        0 <= i < next.len() && 0 <= j < next.len() && i != j && disc_of(#[trigger] next[i])
            == disc_of(#[trigger] next[j]) implies track_of(next[i]) != track_of(next[j]) by {
        if i < k {
            assert(prefix[i] == next[i]);
        }
        if j < k {
            assert(prefix[j] == next[j]);
        }
    }
}

/// Consistency extends to one more file that agrees with every earlier one.
proof fn lemma_extend_consistent(ps: Seq<PositionsView>, k: int)
    requires
        0 <= k < ps.len(),
        consistent_positions(ps.take(k)),
        declared_ok(ps[k]),
        k > 0 ==> disc_total_of(ps[k]) == disc_total_of(ps[0]),
        forall|j: int|
            0 <= j < k && disc_of(#[trigger] ps[j]) == disc_of(ps[k]) ==> track_total_of(ps[j])
                == track_total_of(ps[k]) && track_of(ps[j]) != track_of(ps[k]),
    ensures
        consistent_positions(ps.take(k + 1)),
{
    reveal(consistent_positions);
    lemma_extend_declared(ps, k);
    lemma_extend_disc_total(ps, k);
    lemma_extend_track_total(ps, k);
    lemma_extend_places(ps, k);
}

/// The places that some file declares, as numbers.
pub open spec fn places_present(ps: Seq<PositionsView>) -> Set<u64> {
    Set::new(
        |c: u64| exists|i: int| 0 <= i < ps.len() && place_code(disc_of(#[trigger] ps[i]), track_of(ps[i])) == c,
    )
}

proof fn lemma_present_step(ps: Seq<PositionsView>, k: int)
    requires
        0 <= k < ps.len(),
    ensures
        discs_present(ps.take(k + 1)) == discs_present(ps.take(k)).insert(disc_of(ps[k])),
        places_present(ps.take(k + 1)) == places_present(ps.take(k)).insert(
            place_code(disc_of(ps[k]), track_of(ps[k])),
        ),
{
    let prefix = ps.take(k);
    let next = ps.take(k + 1);
    assert forall|d: u32| #[trigger] discs_present(next).contains(d) <==> discs_present(prefix).insert(
        disc_of(ps[k]),
    ).contains(d) by {
        if discs_present(next).contains(d) {
            let i = choose|i: int| 0 <= i < next.len() && disc_of(#[trigger] next[i]) == d;
            if i < k {
                assert(prefix[i] == next[i]);
            }
        }
        if discs_present(prefix).contains(d) {
            let i = choose|i: int| 0 <= i < prefix.len() && disc_of(#[trigger] prefix[i]) == d;
            assert(prefix[i] == next[i]);
        }
        if d == disc_of(ps[k]) {
            assert(next[k] == ps[k]);
        }
    }
    assert(discs_present(next) =~= discs_present(prefix).insert(disc_of(ps[k])));
    assert forall|c: u64| #[trigger] places_present(next).contains(c) <==> places_present(
        prefix,
    ).insert(place_code(disc_of(ps[k]), track_of(ps[k]))).contains(c) by {
        if places_present(next).contains(c) {
            let i = choose|i: int|
                0 <= i < next.len() && place_code(disc_of(#[trigger] next[i]), track_of(next[i]))
                    == c;
            if i < k {
                assert(prefix[i] == next[i]);
            }
        }
        if places_present(prefix).contains(c) {
            let i = choose|i: int|
                0 <= i < prefix.len() && place_code(disc_of(#[trigger] prefix[i]), track_of(prefix[i]))
                    == c;
            assert(prefix[i] == next[i]);
        }
        if c == place_code(disc_of(ps[k]), track_of(ps[k])) {
            assert(next[k] == ps[k]);
        }
    }
    assert(places_present(next) =~= places_present(prefix).insert(
        place_code(disc_of(ps[k]), track_of(ps[k])),
    ));
}

/// Facts about one more file, from what the earlier files established.
proof fn lemma_next_file(
    ps: Seq<PositionsView>,
    k: int,
    discs: Map<u32, u32>,
    seen: Set<u64>,
)
    requires
        0 <= k < ps.len(),
        declared_ok(ps[k]),
        discs.dom() == discs_present(ps.take(k)),
        forall|j: int| 0 <= j < k ==> discs[disc_of(#[trigger] ps[j])] == track_total_of(ps[j]),
        seen == places_present(ps.take(k)),
        !seen.contains(place_code(disc_of(ps[k]), track_of(ps[k]))),
        discs.contains_key(disc_of(ps[k])) ==> discs[disc_of(ps[k])] == track_total_of(ps[k]),
    ensures
        forall|j: int|
            0 <= j < k && disc_of(#[trigger] ps[j]) == disc_of(ps[k]) ==> track_total_of(ps[j])
                == track_total_of(ps[k]) && track_of(ps[j]) != track_of(ps[k]),
        disc_seen_before(ps.take(k + 1), k) == discs.contains_key(disc_of(ps[k])),
{
    let prefix = ps.take(k);
    assert forall|j: int|
        0 <= j < k && disc_of(#[trigger] ps[j]) == disc_of(ps[k]) implies track_total_of(ps[j])
        == track_total_of(ps[k]) && track_of(ps[j]) != track_of(ps[k]) by {
        assert(prefix[j] == ps[j]);
        assert(discs_present(prefix).contains(disc_of(ps[j])));
        assert(places_present(prefix).contains(place_code(disc_of(ps[j]), track_of(ps[j]))));
        lemma_place_code(disc_of(ps[j]), track_of(ps[j]), disc_of(ps[k]), track_of(ps[k]));
    }
    let next = ps.take(k + 1);
    if discs.contains_key(disc_of(ps[k])) {
        assert(discs_present(prefix).contains(disc_of(ps[k])));
        let j = choose|j: int| 0 <= j < prefix.len() && disc_of(#[trigger] prefix[j]) == disc_of(ps[k]);
        assert(next[j] == prefix[j]);
        assert(next[k] == ps[k]);
    }
    if disc_seen_before(next, k) {
        let j = choose|j: int| 0 <= j < k && disc_of(#[trigger] next[j]) == disc_of(next[k]);
        assert(next[j] == prefix[j]);
        assert(next[k] == ps[k]);
        assert(discs_present(prefix).contains(disc_of(ps[k])));
    }
}

/// A file whose disc is already known and whose place is already taken, or
/// whose track total disagrees, breaks consistency.
proof fn lemma_conflicting_file(ps: Seq<PositionsView>, j: int, k: int)
    requires
        0 <= j < k < ps.len(),
        disc_of(ps[j]) == disc_of(ps[k]),
        track_total_of(ps[j]) != track_total_of(ps[k]) || track_of(ps[j]) == track_of(ps[k]),
    ensures
        !consistent_positions(ps),
{
    reveal(consistent_positions);
}

/// A file without four positive positions within their totals, or with
/// another disc total than the first, breaks consistency.
proof fn lemma_inconsistent_file(ps: Seq<PositionsView>, k: int)
    requires
        0 <= k < ps.len(),
        !declared_ok(ps[k]) || disc_total_of(ps[k]) != disc_total_of(ps[0]),
    ensures
        !consistent_positions(ps),
{
    reveal(consistent_positions);
}

/// Whether the files' declared positions fill their program exactly.
/// Linear in the number of files; declared totals never allocate or iterate ranges.
#[verifier::spinoff_prover]
#[verifier::rlimit(40)]
pub fn completeness(positions: &[Positions]) -> (r: Completeness)
    ensures
        r == (if complete_declarations(position_views(positions@)) {
            Completeness::TrustedComplete
        } else {
            Completeness::Unknown
        }),
{
    broadcast use vstd::std_specs::hash::group_hash_axioms;

    let ghost ps = position_views(positions@);
    let mut disc_total: Option<u32> = None;
    let mut discs: HashMap<u32, u32> = HashMap::new();
    let mut seen: HashSet<u64> = HashSet::new();
    let mut slots: u128 = 0;
    let mut k: usize = 0;
    assert(discs@.dom() =~= discs_present(ps.take(0)));
    assert(seen@ =~= places_present(ps.take(0)));
    assert(consistent_positions(ps.take(0))) by {
        reveal(consistent_positions);
    }
    while k < positions.len()
        invariant
            ps == position_views(positions@),
            k <= positions.len(),
            consistent_positions(ps.take(k as int)),
            disc_total == (if k == 0 {
                None
            } else {
                Some(disc_total_of(ps[0]))
            }),
            discs@.dom() == discs_present(ps.take(k as int)),
            forall|j: int| 0 <= j < k ==> discs@[disc_of(#[trigger] ps[j])] == track_total_of(ps[j]),
            seen@ == places_present(ps.take(k as int)),
            slots == declared_slots(ps.take(k as int)),
            slots <= k * 0x1_0000_0000,
        decreases positions.len() - k,
    {
        let p = &positions[k];
        assert(ps[k as int] == p@);
        let (disc, total, track, tracks) = match (
            positive(&p.disc),
            positive(&p.discs),
            positive(&p.track),
            positive(&p.tracks),
        ) {
            (Some(a), Some(b), Some(c), Some(d)) => (a, b, c, d),
            _ => {
                proof {
                    lemma_inconsistent_file(ps, k as int);
                }
                return Completeness::Unknown;
            },
        };
        if disc > total || track > tracks {
            proof {
                lemma_inconsistent_file(ps, k as int);
            }
            return Completeness::Unknown;
        }
        match disc_total {
            Some(old) => {
                if old != total {
                    proof {
                        lemma_inconsistent_file(ps, k as int);
                    }
                    return Completeness::Unknown;
                }
            },
            None => {},
        }
        let ghost before_discs = discs@;
        let ghost before_seen = seen@;
        let known = match discs.get(&disc) {
            Some(expected) => Some(*expected),
            None => None,
        };
        if let Some(expected) = known {
            if expected != tracks {
                proof {
                    assert(discs_present(ps.take(k as int)).contains(disc));
                    let j = choose|j: int|
                        0 <= j < k && disc_of(#[trigger] ps.take(k as int)[j]) == disc;
                    assert(ps.take(k as int)[j] == ps[j]);
                    lemma_conflicting_file(ps, j, k as int);
                }
                return Completeness::Unknown;
            }
        }
        let code = disc as u64 * 0x1_0000_0000u64 + track as u64;
        assert(code == place_code(disc, track));
        if seen.contains(&code) {
            proof {
                let j = choose|j: int|
                    0 <= j < k && place_code(
                        disc_of(#[trigger] ps.take(k as int)[j]),
                        track_of(ps.take(k as int)[j]),
                    ) == code;
                assert(ps.take(k as int)[j] == ps[j]);
                lemma_place_code(disc_of(ps[j]), track_of(ps[j]), disc, track);
                lemma_conflicting_file(ps, j, k as int);
            }
            return Completeness::Unknown;
        }
        proof {
            lemma_next_file(ps, k as int, before_discs, before_seen);
            lemma_extend_consistent(ps, k as int);
            lemma_present_step(ps, k as int);
            assert(ps.take(k + 1).drop_last() =~= ps.take(k as int));
            assert(ps.take(k + 1).last() == ps[k as int]);
        }
        disc_total = Some(total);
        if known.is_none() {
            discs.insert(disc, tracks);
            slots = slots + tracks as u128;
        }
        seen.insert(code);
        proof {
            assert(discs@.dom() =~= discs_present(ps.take(k + 1)));
            assert(seen@ =~= places_present(ps.take(k + 1)));
        }
        k = k + 1;
    }
    assert(ps.take(positions.len() as int) =~= ps);
    let complete = match disc_total {
        Some(n) => n as usize == discs.len() && slots == positions.len() as u128,
        None => false,
    };
    if complete {
        Completeness::TrustedComplete
    } else {
        Completeness::Unknown
    }
}

// ---------------------------------------------------------------------------
// Aggregation by semantic namespace.

/// Observations are grouped by scope, semantics, provider and kind.
pub open spec fn group_key(o: ObservationView) -> (Scope, Semantics, Seq<char>, Seq<char>) {
    (o.scope, o.semantics, o.identity.provider, o.identity.kind)
}

pub open spec fn key_seq(obs: Seq<ObservationView>) -> Seq<(Scope, Semantics, Seq<char>, Seq<char>)> {
    obs.map_values(|o: ObservationView| group_key(o))
}

/// The groups, in the order of their first observation.
pub open spec fn group_keys(obs: Seq<ObservationView>) -> Seq<(Scope, Semantics, Seq<char>, Seq<char>)> {
    first_occurrences(key_seq(obs))
}

pub open spec fn in_group(key: (Scope, Semantics, Seq<char>, Seq<char>)) -> spec_fn(ObservationView) -> bool {
    |o: ObservationView| group_key(o) == key
}

/// The observations of one group, in order.
pub open spec fn group_of(obs: Seq<ObservationView>, key: (Scope, Semantics, Seq<char>, Seq<char>)) -> Seq<
    ObservationView,
> {
    obs.filter(in_group(key))
}

/// The distinct identifiers a group observes, in order of first observation.
pub open spec fn group_values(g: Seq<ObservationView>) -> Seq<Seq<char>> {
    first_occurrences(g.map_values(|o: ObservationView| o.identity.external_id))
}

/// More than one identifier in one namespace. ISRCs can legitimately be
/// several: they are supporting identifiers.
pub open spec fn conflicting_group(key: (Scope, Semantics, Seq<char>, Seq<char>), g: Seq<ObservationView>) -> bool {
    group_values(g).len() > 1 && key.1 != Semantics::Isrc
}

pub struct ConflictView {
    pub scope: Scope,
    pub semantics: Semantics,
    pub provider: Seq<char>,
    pub kind: Seq<char>,
    pub values: Seq<Seq<char>>,
}

impl View for IdentityConflict {
    type V = ConflictView;

    open spec fn view(&self) -> ConflictView {
        ConflictView {
            scope: self.scope,
            semantics: self.semantics,
            provider: self.provider@,
            kind: self.kind@,
            values: views(self.values@),
        }
    }
}

pub open spec fn conflict_views(s: Seq<IdentityConflict>) -> Seq<ConflictView> {
    s.map_values(|c: IdentityConflict| c@)
}

/// The observations of the consistent groups among `keys`, group by group.
pub open spec fn consistent_of(
    obs: Seq<ObservationView>,
    keys: Seq<(Scope, Semantics, Seq<char>, Seq<char>)>,
) -> Seq<ObservationView>
    decreases keys.len(),
{
    if keys.len() == 0 {
        Seq::empty()
    } else {
        let key = keys.last();
        consistent_of(obs, keys.drop_last()) + if conflicting_group(key, group_of(obs, key)) {
            Seq::empty()
        } else {
            group_of(obs, key)
        }
    }
}

/// The conflicts among the groups of `keys`, in order.
pub open spec fn conflicts_of(
    obs: Seq<ObservationView>,
    keys: Seq<(Scope, Semantics, Seq<char>, Seq<char>)>,
) -> Seq<ConflictView>
    decreases keys.len(),
{
    if keys.len() == 0 {
        Seq::empty()
    } else {
        let key = keys.last();
        let g = group_of(obs, key);
        conflicts_of(obs, keys.drop_last()) + if conflicting_group(key, g) {
            seq![
                ConflictView {
                    scope: key.0,
                    semantics: key.1,
                    provider: key.2,
                    kind: key.3,
                    values: group_values(g),
                },
            ]
        } else {
            Seq::empty()
        }
    }
}

pub struct AggregateView {
    pub consistent: Seq<ObservationView>,
    pub conflicts: Seq<ConflictView>,
}

impl View for Aggregate {
    type V = AggregateView;

    open spec fn view(&self) -> AggregateView {
        AggregateView {
            consistent: observation_views(self.consistent@),
            conflicts: conflict_views(self.conflicts@),
        }
    }
}

/// Consistent observations and conflicts, group by group, never by majority.
pub open spec fn aggregated(obs: Seq<ObservationView>) -> AggregateView {
    AggregateView {
        consistent: consistent_of(obs, group_keys(obs)),
        conflicts: conflicts_of(obs, group_keys(obs)),
    }
}

impl Default for Aggregate {
    fn default() -> (r: Self)
        ensures
            r@.consistent.len() == 0,
            r@.conflicts.len() == 0,
    {
        Aggregate { consistent: Vec::new(), conflicts: Vec::new() }
    }
}

fn same_group(a: &Observation, b: &Observation) -> (r: bool)
    ensures
        r == (group_key(a@) == group_key(b@)),
{
    a.scope == b.scope && a.semantics == b.semantics && a.identity.provider == b.identity.provider
        && a.identity.kind == b.identity.kind
}

pub open spec fn index_keys(obs: Seq<ObservationView>, starts: Seq<usize>) -> Seq<
    (Scope, Semantics, Seq<char>, Seq<char>),
> {
    starts.map_values(|i: usize| group_key(obs[i as int]))
}

/// The index of each group's first observation, in order.
fn group_starts(observations: &[Observation]) -> (r: Vec<usize>)
    ensures
        index_keys(observation_views(observations@), r@) == group_keys(
            observation_views(observations@),
        ),
        forall|k: int| 0 <= k < r@.len() ==> #[trigger] r@[k] < observations@.len(),
{
    let ghost ov = observation_views(observations@);
    let ghost ks = key_seq(ov);
    let mut starts: Vec<usize> = Vec::new();
    let mut i: usize = 0;
    while i < observations.len()
        invariant
            i <= observations.len(),
            ov == observation_views(observations@),
            ks == key_seq(ov),
            index_keys(ov, starts@) == first_occurrences(ks.take(i as int)),
            forall|k: int| 0 <= k < starts@.len() ==> #[trigger] starts@[k] < i,
        decreases observations.len() - i,
    {
        let ghost d = first_occurrences(ks.take(i as int));
        let mut found = false;
        let mut k: usize = 0;
        while k < starts.len()
            invariant
                k <= starts@.len(),
                i < observations.len(),
                ov == observation_views(observations@),
                ks == key_seq(ov),
                d == index_keys(ov, starts@),
                forall|x: int| 0 <= x < starts@.len() ==> #[trigger] starts@[x] < i,
                found == exists|x: int| 0 <= x < k && d[x] == ks[i as int],
            decreases starts@.len() - k,
        {
            let j = starts[k];
            assert(d[k as int] == group_key(ov[j as int]));
            if same_group(&observations[j], &observations[i]) {
                found = true;
            }
            k = k + 1;
        }
        assert(found == d.contains(ks[i as int]));
        assert(ks.take(i + 1).drop_last() =~= ks.take(i as int));
        assert(ks.take(i + 1).last() == ks[i as int]);
        if !found {
            let ghost before = index_keys(ov, starts@);
            starts.push(i);
            assert(index_keys(ov, starts@) =~= before.push(ks[i as int]));
        }
        i = i + 1;
    }
    assert(ks.take(observations.len() as int) =~= ks);
    starts
}

/// The observations in the group of observation `first`, in order.
fn collect_group(observations: &[Observation], first: usize) -> (r: Vec<Observation>)
    requires
        first < observations@.len(),
    ensures
        observation_views(r@) == group_of(
            observation_views(observations@),
            group_key(observation_views(observations@)[first as int]),
        ),
{
    let ghost ov = observation_views(observations@);
    let ghost key = group_key(ov[first as int]);
    let ghost p = in_group(key);
    proof {
        crate::text::lemma_filter_empty(ov, p);
    }
    let mut out: Vec<Observation> = Vec::new();
    let mut i: usize = 0;
    while i < observations.len()
        invariant
            i <= observations.len(),
            first < observations@.len(),
            ov == observation_views(observations@),
            key == group_key(ov[first as int]),
            p == in_group(key),
            observation_views(out@) == ov.take(i as int).filter(p),
        decreases observations.len() - i,
    {
        proof {
            crate::text::lemma_filter_step(ov, p, i as int);
        }
        if same_group(&observations[first], &observations[i]) {
            let x = observations[i].clone();
            let ghost before = observation_views(out@);
            out.push(x);
            assert(observation_views(out@) =~= before.push(ov[i as int]));
        }
        i = i + 1;
    }
    assert(ov.take(observations.len() as int) =~= ov);
    out
}

/// The distinct identifiers of a group, in order of first observation.
fn values_of(group: &Vec<Observation>) -> (r: Vec<String>)
    ensures
        views(r@) == group_values(observation_views(group@)),
{
    let ghost ids = observation_views(group@).map_values(|o: ObservationView| o.identity.external_id);
    let mut out: Vec<String> = Vec::new();
    let mut i: usize = 0;
    while i < group.len()
        invariant
            i <= group.len(),
            ids == observation_views(group@).map_values(
                |o: ObservationView| o.identity.external_id,
            ),
            views(out@) == first_occurrences(ids.take(i as int)),
        decreases group.len() - i,
    {
        let id = &group[i].identity.external_id;
        assert(ids[i as int] == id@);
        assert(ids.take(i + 1).drop_last() =~= ids.take(i as int));
        assert(ids.take(i + 1).last() == ids[i as int]);
        if !crate::edition::holds_string(&out, id) {
            let ghost before = views(out@);
            out.push(id.clone());
            assert(views(out@) =~= before.push(id@));
        }
        i = i + 1;
    }
    assert(ids.take(group.len() as int) =~= ids);
    out
}

/// Group only observations of the same semantic namespace, never majority-vote.
pub fn aggregate(observations: &[Observation]) -> (r: Aggregate)
    ensures
        r@ == aggregated(observation_views(observations@)),
{
    let ghost ov = observation_views(observations@);
    let ghost keys = group_keys(ov);
    let starts = group_starts(observations);
    let mut result = Aggregate::default();
    let mut g: usize = 0;
    while g < starts.len()
        invariant
            g <= starts@.len(),
            ov == observation_views(observations@),
            keys == group_keys(ov),
            index_keys(ov, starts@) == keys,
            forall|k: int| 0 <= k < starts@.len() ==> #[trigger] starts@[k] < observations@.len(),
            result@.consistent == consistent_of(ov, keys.take(g as int)),
            result@.conflicts == conflicts_of(ov, keys.take(g as int)),
        decreases starts@.len() - g,
    {
        let first = starts[g];
        let ghost key = keys[g as int];
        assert(key == group_key(ov[first as int]));
        assert(keys.take(g + 1).drop_last() =~= keys.take(g as int));
        assert(keys.take(g + 1).last() == key);
        let group = collect_group(observations, first);
        let values = values_of(&group);
        let o = &observations[first];
        let semantics = o.semantics;
        let is_isrc = match semantics {
            Semantics::Isrc => true,
            _ => false,
        };
        if values.len() > 1 && !is_isrc {
            let ghost before = result@.conflicts;
            result.conflicts.push(
                IdentityConflict {
                    scope: o.scope,
                    semantics,
                    provider: o.identity.provider.clone(),
                    kind: o.identity.kind.clone(),
                    values,
                },
            );
            assert(result@.conflicts =~= before.push(
                ConflictView {
                    scope: key.0,
                    semantics: key.1,
                    provider: key.2,
                    kind: key.3,
                    values: group_values(group_of(ov, key)),
                },
            ));
            assert(result@.consistent =~= consistent_of(ov, keys.take(g + 1)));
        } else {
            let ghost before = result@.consistent;
            let ghost before_conflicts = result.conflicts@;
            let mut j: usize = 0;
            while j < group.len()
                invariant
                    j <= group.len(),
                    result.conflicts@ == before_conflicts,
                    observation_views(result.consistent@) == before + observation_views(
                        group@,
                    ).take(j as int),
                decreases group.len() - j,
            {
                let x = group[j].clone();
                let ghost mid = observation_views(result.consistent@);
                result.consistent.push(x);
                assert(observation_views(result.consistent@) =~= mid.push(group@[j as int]@));
                assert(observation_views(group@).take(j + 1) =~= observation_views(group@).take(
                    j as int,
                ).push(group@[j as int]@));
                j = j + 1;
            }
            assert(observation_views(group@).take(group.len() as int) =~= observation_views(group@));
            assert(result@.consistent =~= consistent_of(ov, keys.take(g + 1)));
            assert(result@.conflicts =~= conflicts_of(ov, keys.take(g + 1)));
        }
        g = g + 1;
    }
    assert(keys.take(starts.len() as int) =~= keys);
    result
}

// ---------------------------------------------------------------------------
// The provenance of one local edition.

/// The observations of a list of files, file by file.
pub open spec fn observations_of(files: Seq<FileProvenance>) -> Seq<ObservationView>
    decreases files.len(),
{
    if files.len() == 0 {
        Seq::empty()
    } else {
        observations_of(files.drop_last()) + observation_views(files.last().observations@)
    }
}

/// The observations of every track's files, track by track.
pub open spec fn track_observations(tracks: Seq<Vec<FileProvenance>>) -> Seq<ObservationView>
    decreases tracks.len(),
{
    if tracks.len() == 0 {
        Seq::empty()
    } else {
        track_observations(tracks.drop_last()) + observations_of(tracks.last()@)
    }
}

/// Album and Edition observations, or Recording and Occurrence observations.
pub open spec fn in_scopes(album: bool) -> spec_fn(ObservationView) -> bool {
    |o: ObservationView|
        if album {
            o.scope == Scope::Album || o.scope == Scope::Edition
        } else {
            o.scope == Scope::Recording || o.scope == Scope::Occurrence
        }
}

/// Completeness is only known when every track has exactly one source.
pub open spec fn edition_completeness(tracks: Seq<Vec<FileProvenance>>) -> Completeness {
    if forall|i: int| 0 <= i < tracks.len() ==> (#[trigger] tracks[i])@.len() == 1 {
        if complete_declarations(Seq::new(tracks.len(), |i: int| tracks[i]@[0].positions@)) {
            Completeness::TrustedComplete
        } else {
            Completeness::Unknown
        }
    } else {
        Completeness::Unknown
    }
}

pub open spec fn aggregate_views(s: Seq<Aggregate>) -> Seq<AggregateView> {
    s.map_values(|a: Aggregate| a@)
}

fn gather(files: &Vec<FileProvenance>, out: &mut Vec<Observation>)
    ensures
        observation_views(final(out)@) == observation_views(old(out)@) + observations_of(files@),
{
    let ghost start = observation_views(out@);
    let mut k: usize = 0;
    while k < files.len()
        invariant
            k <= files.len(),
            observation_views(out@) == start + observations_of(files@.take(k as int)),
        decreases files.len() - k,
    {
        let obs = &files[k].observations;
        let ghost mid = observation_views(out@);
        let mut j: usize = 0;
        while j < obs.len()
            invariant
                j <= obs.len(),
                observation_views(out@) == mid + observation_views(obs@).take(j as int),
            decreases obs.len() - j,
        {
            let x = obs[j].clone();
            let ghost before = observation_views(out@);
            out.push(x);
            assert(observation_views(out@) =~= before.push(obs@[j as int]@));
            assert(observation_views(obs@).take(j + 1) =~= observation_views(obs@).take(
                j as int,
            ).push(obs@[j as int]@));
            j = j + 1;
        }
        assert(observation_views(obs@).take(obs.len() as int) =~= observation_views(obs@));
        assert(files@.take(k + 1).drop_last() =~= files@.take(k as int));
        assert(files@.take(k + 1).last() == files@[k as int]);
        assert(observation_views(out@) =~= start + observations_of(files@.take(k + 1)));
        k = k + 1;
    }
    assert(files@.take(files.len() as int) =~= files@);
}

fn keep_scopes(obs: &Vec<Observation>, album: bool) -> (r: Vec<Observation>)
    ensures
        observation_views(r@) == observation_views(obs@).filter(in_scopes(album)),
{
    let ghost ov = observation_views(obs@);
    let ghost p = in_scopes(album);
    proof {
        crate::text::lemma_filter_empty(ov, p);
    }
    let mut out: Vec<Observation> = Vec::new();
    let mut i: usize = 0;
    while i < obs.len()
        invariant
            i <= obs.len(),
            ov == observation_views(obs@),
            p == in_scopes(album),
            observation_views(out@) == ov.take(i as int).filter(p),
        decreases obs.len() - i,
    {
        proof {
            crate::text::lemma_filter_step(ov, p, i as int);
        }
        let scope = obs[i].scope;
        let keep = if album {
            scope == Scope::Album || scope == Scope::Edition
        } else {
            scope == Scope::Recording || scope == Scope::Occurrence
        };
        assert(keep == p(ov[i as int]));
        if keep {
            let x = obs[i].clone();
            let ghost before = observation_views(out@);
            out.push(x);
            assert(observation_views(out@) =~= before.push(ov[i as int]));
        }
        i = i + 1;
    }
    assert(ov.take(obs.len() as int) =~= ov);
    out
}

impl EditionProvenance {
    /// Aggregate Album and Edition observations across all sources, Recording
    /// and Occurrence observations per track, and the declared completeness
    /// when every track has exactly one source.
    pub fn new(tracks: Vec<Vec<FileProvenance>>) -> (r: Self)
        ensures
            r.tracks@ == tracks@,
            r.album_and_edition@ == aggregated(track_observations(tracks@).filter(in_scopes(true))),
            r.per_track@.len() == tracks@.len(),
            forall|i: int|
                0 <= i < tracks@.len() ==> (#[trigger] r.per_track@[i])@ == aggregated(
                    observations_of(tracks@[i]@).filter(in_scopes(false)),
                ),
            r.completeness == edition_completeness(tracks@),
    {
        let mut all: Vec<Observation> = Vec::new();
        let mut i: usize = 0;
        while i < tracks.len()
            invariant
                i <= tracks.len(),
                observation_views(all@) == track_observations(tracks@.take(i as int)),
            decreases tracks.len() - i,
        {
            gather(&tracks[i], &mut all);
            assert(tracks@.take(i + 1).drop_last() =~= tracks@.take(i as int));
            assert(tracks@.take(i + 1).last() == tracks@[i as int]);
            i = i + 1;
        }
        assert(tracks@.take(tracks.len() as int) =~= tracks@);
        let album_and_edition = aggregate(keep_scopes(&all, true).as_slice());
        let mut per_track: Vec<Aggregate> = Vec::new();
        let mut i: usize = 0;
        while i < tracks.len()
            invariant
                i <= tracks.len(),
                per_track@.len() == i,
                forall|k: int|
                    0 <= k < i ==> (#[trigger] per_track@[k])@ == aggregated(
                        observations_of(tracks@[k]@).filter(in_scopes(false)),
                    ),
            decreases tracks.len() - i,
        {
            let mut own: Vec<Observation> = Vec::new();
            gather(&tracks[i], &mut own);
            assert(observation_views(own@) =~= observations_of(tracks@[i as int]@));
            per_track.push(aggregate(keep_scopes(&own, false).as_slice()));
            i = i + 1;
        }
        let mut single = true;
        let mut i: usize = 0;
        while i < tracks.len()
            invariant
                i <= tracks.len(),
                single == forall|k: int| 0 <= k < i ==> (#[trigger] tracks@[k])@.len() == 1,
            decreases tracks.len() - i,
        {
            if tracks[i].len() != 1 {
                single = false;
            }
            i = i + 1;
        }
        let completeness = if single {
            let mut positions: Vec<Positions> = Vec::new();
            let mut i: usize = 0;
            while i < tracks.len()
                invariant
                    i <= tracks.len(),
                    forall|k: int| 0 <= k < tracks@.len() ==> (#[trigger] tracks@[k])@.len() == 1,
                    position_views(positions@) == Seq::new(
                        tracks@.len(),
                        |k: int| tracks@[k]@[0].positions@,
                    ).take(i as int),
                decreases tracks.len() - i,
            {
                assert(tracks@[i as int]@.len() == 1);
                let p = tracks[i][0].positions.clone();
                assert(p@ == tracks@[i as int]@[0].positions@);
                let ghost pv = p@;
                let ghost before = position_views(positions@);
                positions.push(p);
                assert(position_views(positions@) =~= before.push(pv));
                assert(position_views(positions@) =~= Seq::new(
                    tracks@.len(),
                    |k: int| tracks@[k]@[0].positions@,
                ).take(i + 1));
                i = i + 1;
            }
            assert(Seq::new(tracks@.len(), |k: int| tracks@[k]@[0].positions@).take(
                tracks.len() as int,
            ) =~= Seq::new(tracks@.len(), |k: int| tracks@[k]@[0].positions@));
            completeness(positions.as_slice())
        } else {
            Completeness::Unknown
        };
        EditionProvenance { tracks, album_and_edition, per_track, completeness }
    }
}

// ---------------------------------------------------------------------------
// What aggregation keeps and what it reports.

proof fn lemma_consistent_member(
    obs: Seq<ObservationView>,
    keys: Seq<(Scope, Semantics, Seq<char>, Seq<char>)>,
    x: ObservationView,
)
    requires
        consistent_of(obs, keys).contains(x),
    ensures
        obs.contains(x),
        keys.contains(group_key(x)),
        !conflicting_group(group_key(x), group_of(obs, group_key(x))),
    decreases keys.len(),
{
    let key = keys.last();
    let rest = consistent_of(obs, keys.drop_last());
    let tail = if conflicting_group(key, group_of(obs, key)) {
        Seq::<ObservationView>::empty()
    } else {
        group_of(obs, key)
    };
    assert(consistent_of(obs, keys) == rest + tail);
    let i = choose|i: int| 0 <= i < (rest + tail).len() && (rest + tail)[i] == x;
    if i < rest.len() {
        assert(rest[i] == x);
        lemma_consistent_member(obs, keys.drop_last(), x);
        let j = choose|j: int|
            0 <= j < keys.drop_last().len() && keys.drop_last()[j] == group_key(x);
        assert(keys[j] == group_key(x));
    } else {
        assert(tail[i - rest.len()] == x);
        assert(tail.contains(x));
        assert(!conflicting_group(key, group_of(obs, key)));
        obs.lemma_filter_contains_rev(in_group(key), x);
        let k = i - rest.len();
        obs.lemma_filter_pred(in_group(key), k);
        assert(group_key(x) == key);
        assert(keys[keys.len() - 1] == key);
    }
}

proof fn lemma_member_consistent(
    obs: Seq<ObservationView>,
    keys: Seq<(Scope, Semantics, Seq<char>, Seq<char>)>,
    j: int,
    x: ObservationView,
)
    requires
        0 <= j < keys.len(),
        obs.contains(x),
        group_key(x) == keys[j],
        !conflicting_group(keys[j], group_of(obs, keys[j])),
    ensures
        consistent_of(obs, keys).contains(x),
    decreases keys.len(),
{
    let key = keys.last();
    let rest = consistent_of(obs, keys.drop_last());
    let tail = if conflicting_group(key, group_of(obs, key)) {
        Seq::<ObservationView>::empty()
    } else {
        group_of(obs, key)
    };
    assert(consistent_of(obs, keys) == rest + tail);
    if j < keys.len() - 1 {
        assert(keys.drop_last()[j] == keys[j]);
        lemma_member_consistent(obs, keys.drop_last(), j, x);
        let i = choose|i: int| 0 <= i < rest.len() && rest[i] == x;
        assert((rest + tail)[i] == x);
    } else {
        let i = choose|i: int| 0 <= i < obs.len() && obs[i] == x;
        obs.lemma_filter_contains(in_group(key), i);
        assert(tail.contains(x));
        let k = choose|k: int| 0 <= k < tail.len() && tail[k] == x;
        assert((rest + tail)[rest.len() + k] == x);
    }
}

proof fn lemma_conflict_listed(
    obs: Seq<ObservationView>,
    keys: Seq<(Scope, Semantics, Seq<char>, Seq<char>)>,
    j: int,
)
    requires
        0 <= j < keys.len(),
        conflicting_group(keys[j], group_of(obs, keys[j])),
    ensures
        conflicts_of(obs, keys).contains(
            ConflictView {
                scope: keys[j].0,
                semantics: keys[j].1,
                provider: keys[j].2,
                kind: keys[j].3,
                values: group_values(group_of(obs, keys[j])),
            },
        ),
    decreases keys.len(),
{
    let key = keys.last();
    let g = group_of(obs, key);
    let rest = conflicts_of(obs, keys.drop_last());
    let c = ConflictView {
        scope: keys[j].0,
        semantics: keys[j].1,
        provider: keys[j].2,
        kind: keys[j].3,
        values: group_values(group_of(obs, keys[j])),
    };
    if j < keys.len() - 1 {
        assert(keys.drop_last()[j] == keys[j]);
        lemma_conflict_listed(obs, keys.drop_last(), j);
        let i = choose|i: int| 0 <= i < rest.len() && rest[i] == c;
        let tail = if conflicting_group(key, g) {
            seq![
                ConflictView {
                    scope: key.0,
                    semantics: key.1,
                    provider: key.2,
                    kind: key.3,
                    values: group_values(g),
                },
            ]
        } else {
            Seq::empty()
        };
        assert(conflicts_of(obs, keys) == rest + tail);
        assert((rest + tail)[i] == c);
    } else {
        assert(key == keys[j]);
        assert(conflicts_of(obs, keys) == rest + seq![c]);
        assert((rest + seq![c])[rest.len() as int] == c);
    }
}

proof fn lemma_key_listed(obs: Seq<ObservationView>, o: ObservationView)
    requires
        obs.contains(o),
    ensures
        group_keys(obs).contains(group_key(o)),
{
    let i = choose|i: int| 0 <= i < obs.len() && obs[i] == o;
    assert(key_seq(obs)[i] == group_key(o));
    assert(key_seq(obs).contains(group_key(o)));
    lemma_first_occurrences(key_seq(obs));
}

/// Aggregation never settles a namespace by majority: where the observations of
/// one namespace other than ISRCs carry more than one value, none of them stays
/// among the consistent observations, and the namespace is reported as one
/// conflict that lists its values in order of first observation.
pub proof fn lemma_no_majority_vote(obs: Seq<ObservationView>, o: ObservationView)
    requires
        obs.contains(o),
        o.semantics != Semantics::Isrc,
        group_values(group_of(obs, group_key(o))).len() > 1,
    ensures
        forall|x: ObservationView|
            #[trigger] aggregated(obs).consistent.contains(x) ==> group_key(x) != group_key(o),
        aggregated(obs).conflicts.contains(
            ConflictView {
                scope: o.scope,
                semantics: o.semantics,
                provider: o.identity.provider,
                kind: o.identity.kind,
                values: group_values(group_of(obs, group_key(o))),
            },
        ),
{
    let keys = group_keys(obs);
    assert forall|x: ObservationView| #[trigger]
        aggregated(obs).consistent.contains(x) implies group_key(x) != group_key(o) by {
        lemma_consistent_member(obs, keys, x);
    }
    lemma_key_listed(obs, o);
    let j = choose|j: int| 0 <= j < keys.len() && keys[j] == group_key(o);
    lemma_conflict_listed(obs, keys, j);
}

/// An observation whose namespace agrees on one value, or holds ISRCs, is kept
/// among the consistent observations: aggregation drops nothing else.
pub proof fn lemma_agreeing_namespace_kept(obs: Seq<ObservationView>, o: ObservationView)
    requires
        obs.contains(o),
        o.semantics == Semantics::Isrc || group_values(group_of(obs, group_key(o))).len() <= 1,
    ensures
        aggregated(obs).consistent.contains(o),
{
    let keys = group_keys(obs);
    lemma_key_listed(obs, o);
    let j = choose|j: int| 0 <= j < keys.len() && keys[j] == group_key(o);
    lemma_member_consistent(obs, keys, j, o);
}

/// Every consistent observation was observed, and consistent observations of
/// one namespace other than ISRCs carry one value.
pub proof fn lemma_consistent_values_agree(
    obs: Seq<ObservationView>,
    x: ObservationView,
    y: ObservationView,
)
    requires
        aggregated(obs).consistent.contains(x),
        aggregated(obs).consistent.contains(y),
        group_key(x) == group_key(y),
        x.semantics != Semantics::Isrc,
    ensures
        obs.contains(x),
        x.identity.external_id == y.identity.external_id,
{
    let keys = group_keys(obs);
    lemma_consistent_member(obs, keys, x);
    lemma_consistent_member(obs, keys, y);
    let key = group_key(x);
    let g = group_of(obs, key);
    let ids = g.map_values(|o: ObservationView| o.identity.external_id);
    let ix = choose|i: int| 0 <= i < obs.len() && obs[i] == x;
    let iy = choose|i: int| 0 <= i < obs.len() && obs[i] == y;
    obs.lemma_filter_contains(in_group(key), ix);
    obs.lemma_filter_contains(in_group(key), iy);
    let kx = choose|k: int| 0 <= k < g.len() && g[k] == x;
    let ky = choose|k: int| 0 <= k < g.len() && g[k] == y;
    assert(ids[kx] == x.identity.external_id);
    assert(ids[ky] == y.identity.external_id);
    lemma_first_occurrences(ids);
    assert(first_occurrences(ids).contains(x.identity.external_id));
    assert(first_occurrences(ids).contains(y.identity.external_id));
    assert(group_values(g).len() <= 1);
}

/// Every conflict is a namespace other than ISRCs with more than one value.
pub proof fn lemma_conflicts_are_disagreements(obs: Seq<ObservationView>, i: int)
    requires
        0 <= i < aggregated(obs).conflicts.len(),
    ensures
        aggregated(obs).conflicts[i].semantics != Semantics::Isrc,
        aggregated(obs).conflicts[i].values.len() > 1,
{
    lemma_conflicts_shape(obs, group_keys(obs), i);
}

proof fn lemma_conflicts_shape(
    obs: Seq<ObservationView>,
    keys: Seq<(Scope, Semantics, Seq<char>, Seq<char>)>,
    i: int,
)
    requires
        0 <= i < conflicts_of(obs, keys).len(),
    ensures
        conflicts_of(obs, keys)[i].semantics != Semantics::Isrc,
        conflicts_of(obs, keys)[i].values.len() > 1,
    decreases keys.len(),
{
    let rest = conflicts_of(obs, keys.drop_last());
    if i < rest.len() {
        lemma_conflicts_shape(obs, keys.drop_last(), i);
    }
}

/// The namespace a conflict reports.
pub open spec fn conflict_key(c: ConflictView) -> (Scope, Semantics, Seq<char>, Seq<char>) {
    (c.scope, c.semantics, c.provider, c.kind)
}

proof fn lemma_conflict_keys(
    obs: Seq<ObservationView>,
    keys: Seq<(Scope, Semantics, Seq<char>, Seq<char>)>,
)
    requires
        keys.no_duplicates(),
    ensures
        forall|i: int|
            0 <= i < conflicts_of(obs, keys).len() ==> keys.contains(
                conflict_key(#[trigger] conflicts_of(obs, keys)[i]),
            ),
        forall|i: int, j: int|
            0 <= i < j < conflicts_of(obs, keys).len() ==> conflict_key(
                #[trigger] conflicts_of(obs, keys)[i],
            ) != conflict_key(#[trigger] conflicts_of(obs, keys)[j]),
    decreases keys.len(),
{
    if keys.len() > 0 {
        let rest = keys.drop_last();
        assert(rest.no_duplicates());
        lemma_conflict_keys(obs, rest);
        let before = conflicts_of(obs, rest);
        let all = conflicts_of(obs, keys);
        assert forall|i: int| 0 <= i < all.len() implies keys.contains(conflict_key(#[trigger] all[i])) by {
            if i < before.len() {
                assert(all[i] == before[i]);
                let m = choose|m: int| 0 <= m < rest.len() && rest[m] == conflict_key(before[i]);
                assert(keys[m] == rest[m]);
            } else {
                assert(conflict_key(all[i]) == keys[keys.len() - 1]);
            }
        }
        assert forall|i: int, j: int| 0 <= i < j < all.len() implies conflict_key(#[trigger] all[i])
            != conflict_key(#[trigger] all[j]) by {
            assert(all[i] == before[i]);
            if j < before.len() {
                assert(all[j] == before[j]);
            } else {
                let m = choose|m: int| 0 <= m < rest.len() && rest[m] == conflict_key(before[i]);
                assert(keys[m] == rest[m]);
                assert(conflict_key(all[j]) == keys[keys.len() - 1]);
            }
        }
    }
}

/// Each namespace is reported as a conflict at most once.
pub proof fn lemma_one_conflict_per_namespace(obs: Seq<ObservationView>)
    ensures
        forall|i: int, j: int|
            0 <= i < j < aggregated(obs).conflicts.len() ==> conflict_key(
                #[trigger] aggregated(obs).conflicts[i],
            ) != conflict_key(#[trigger] aggregated(obs).conflicts[j]),
{
    lemma_first_occurrences(key_seq(obs));
    lemma_conflict_keys(obs, group_keys(obs));
}

/// The scopes an aggregate covers: Album and Edition, or Recording and
/// Occurrence.
pub open spec fn scope_in(album: bool, scope: Scope) -> bool {
    if album {
        scope == Scope::Album || scope == Scope::Edition
    } else {
        scope == Scope::Recording || scope == Scope::Occurrence
    }
}

proof fn lemma_scoped_aggregate(obs: Seq<ObservationView>, album: bool)
    ensures
        forall|x: ObservationView|
            #[trigger] aggregated(obs.filter(in_scopes(album))).consistent.contains(x) ==> obs.contains(x)
                && scope_in(album, x.scope),
        forall|i: int|
            0 <= i < aggregated(obs.filter(in_scopes(album))).conflicts.len() ==> scope_in(
                album,
                (#[trigger] aggregated(obs.filter(in_scopes(album))).conflicts[i]).scope,
            ),
{
    let f = obs.filter(in_scopes(album));
    let keys = group_keys(f);
    assert forall|x: ObservationView| #[trigger] aggregated(f).consistent.contains(x) implies obs.contains(x)
        && scope_in(album, x.scope) by {
        lemma_consistent_member(f, keys, x);
        obs.lemma_filter_contains_rev(in_scopes(album), x);
        let k = choose|k: int| 0 <= k < f.len() && f[k] == x;
        assert(in_scopes(album)(f[k])) by {
            broadcast use vstd::seq_lib::group_filter_ensures;

        }
    }
    lemma_first_occurrences(key_seq(f));
    lemma_conflict_keys(f, keys);
    assert forall|i: int| 0 <= i < aggregated(f).conflicts.len() implies scope_in(
        album,
        (#[trigger] aggregated(f).conflicts[i]).scope,
    ) by {
        let key = conflict_key(aggregated(f).conflicts[i]);
        assert(keys.contains(key));
        assert(key_seq(f).contains(key));
        let k = choose|k: int| 0 <= k < key_seq(f).len() && key_seq(f)[k] == key;
        assert(in_scopes(album)(f[k])) by {
            broadcast use vstd::seq_lib::group_filter_ensures;

        }
    }
}

/// A track's own aggregate holds only that track's Recording and Occurrence
/// observations and reports only such conflicts; the shared aggregate holds
/// only Album and Edition observations of the tracks and such conflicts.
pub proof fn lemma_aggregates_stay_scoped(tracks: Seq<Vec<FileProvenance>>, i: int)
    requires
        0 <= i < tracks.len(),
    ensures
        forall|x: ObservationView|
            #[trigger] aggregated(observations_of(tracks[i]@).filter(in_scopes(false))).consistent.contains(x)
                ==> observations_of(tracks[i]@).contains(x) && scope_in(false, x.scope),
        forall|k: int|
            0 <= k < aggregated(observations_of(tracks[i]@).filter(in_scopes(false))).conflicts.len()
                ==> scope_in(
                false,
                (#[trigger] aggregated(observations_of(tracks[i]@).filter(in_scopes(false))).conflicts[k]).scope,
            ),
        forall|x: ObservationView|
            #[trigger] aggregated(track_observations(tracks).filter(in_scopes(true))).consistent.contains(x)
                ==> track_observations(tracks).contains(x) && scope_in(true, x.scope),
        forall|k: int|
            0 <= k < aggregated(track_observations(tracks).filter(in_scopes(true))).conflicts.len() ==> scope_in(
                true,
                (#[trigger] aggregated(track_observations(tracks).filter(in_scopes(true))).conflicts[k]).scope,
            ),
{
    lemma_scoped_aggregate(observations_of(tracks[i]@), false);
    lemma_scoped_aggregate(track_observations(tracks), true);
}

/// The files fill their declared program exactly when there is at least one
/// file, every file declares disc, disc total, track and track total with
/// neither number above its total, all declare one disc total that is the
/// number of discs present, the files of one disc declare one track total and
/// distinct track numbers, and the files are as many as the declared track
/// totals of the discs present add up to.
pub proof fn lemma_completeness_characterised(ps: Seq<PositionsView>)
    ensures
        complete_declarations(ps) <==> {
            &&& ps.len() > 0
            &&& all_declared(ps)
            &&& one_disc_total(ps)
            &&& one_track_total_per_disc(ps)
            &&& distinct_places(ps)
            &&& disc_total_of(ps[0]) == discs_present(ps).len()
            &&& declared_slots(ps) == ps.len()
        },
{
    reveal(consistent_positions);
}

/// Several sources for one track never prove an edition complete.
pub proof fn lemma_several_sources_unknown(tracks: Seq<Vec<FileProvenance>>, i: int)
    requires
        0 <= i < tracks.len(),
        tracks[i]@.len() != 1,
    ensures
        edition_completeness(tracks) == Completeness::Unknown,
{
}

/// The files with the neighbours at `k` and `k + 1` exchanged.
pub open spec fn swap_adjacent(ps: Seq<PositionsView>, k: int) -> Seq<PositionsView> {
    ps.update(k, ps[k + 1]).update(k + 1, ps[k])
}

pub open spec fn swapped_index(k: int, i: int) -> int {
    if i == k {
        k + 1
    } else if i == k + 1 {
        k
    } else {
        i
    }
}

proof fn lemma_swap_index(ps: Seq<PositionsView>, k: int)
    requires
        0 <= k && k + 1 < ps.len(),
    ensures
        swap_adjacent(ps, k).len() == ps.len(),
        forall|i: int|
            0 <= i < ps.len() ==> #[trigger] swap_adjacent(ps, k)[i] == ps[swapped_index(k, i)],
        swap_adjacent(swap_adjacent(ps, k), k) == ps,
{
    assert(swap_adjacent(swap_adjacent(ps, k), k) =~= ps);
}

proof fn lemma_swap_keeps_consistency(ps: Seq<PositionsView>, k: int)
    requires
        0 <= k && k + 1 < ps.len(),
        consistent_positions(ps),
    ensures
        consistent_positions(swap_adjacent(ps, k)),
{
    reveal(consistent_positions);
    lemma_swap_index(ps, k);
    let qs = swap_adjacent(ps, k);
    assert forall|i: int| 0 <= i < qs.len() implies declared_ok(#[trigger] qs[i]) by {
        assert(qs[i] == ps[swapped_index(k, i)]);
    }
    assert forall|i: int, j: int| 0 <= i < qs.len() && 0 <= j < qs.len() implies disc_total_of(
        #[trigger] qs[i],
    ) == disc_total_of(#[trigger] qs[j]) by {
        assert(qs[i] == ps[swapped_index(k, i)]);
        assert(qs[j] == ps[swapped_index(k, j)]);
    }
    assert forall|i: int, j: int|
        0 <= i < qs.len() && 0 <= j < qs.len() && disc_of(#[trigger] qs[i]) == disc_of(
            #[trigger] qs[j],
        ) implies track_total_of(qs[i]) == track_total_of(qs[j]) by {
        assert(qs[i] == ps[swapped_index(k, i)]);
        assert(qs[j] == ps[swapped_index(k, j)]);
    }
    assert forall|i: int, j: int|
        0 <= i < qs.len() && 0 <= j < qs.len() && i != j && disc_of(#[trigger] qs[i]) == disc_of(
            #[trigger] qs[j],
        ) implies track_of(qs[i]) != track_of(qs[j]) by {
        assert(qs[i] == ps[swapped_index(k, i)]);
        assert(qs[j] == ps[swapped_index(k, j)]);
    }
}

proof fn lemma_swap_keeps_discs(ps: Seq<PositionsView>, k: int)
    requires
        0 <= k && k + 1 < ps.len(),
    ensures
        discs_present(swap_adjacent(ps, k)) == discs_present(ps),
{
    lemma_swap_index(ps, k);
    let qs = swap_adjacent(ps, k);
    assert forall|d: u32| #[trigger] discs_present(qs).contains(d) <==> discs_present(ps).contains(d) by {
        if discs_present(qs).contains(d) {
            let i = choose|i: int| 0 <= i < qs.len() && disc_of(#[trigger] qs[i]) == d;
            assert(ps[swapped_index(k, i)] == qs[i]);
        }
        if discs_present(ps).contains(d) {
            let i = choose|i: int| 0 <= i < ps.len() && disc_of(#[trigger] ps[i]) == d;
            assert(qs[swapped_index(k, i)] == ps[i]);
        }
    }
    assert(discs_present(qs) =~= discs_present(ps));
}

/// Whether the disc of `p` occurs among `ps`.
pub open spec fn disc_among(ps: Seq<PositionsView>, p: PositionsView) -> bool {
    exists|j: int| 0 <= j < ps.len() && disc_of(#[trigger] ps[j]) == disc_of(p)
}

proof fn lemma_seen_is_among(ps: Seq<PositionsView>, n: int)
    requires
        0 < n <= ps.len(),
    ensures
        disc_seen_before(ps.take(n), n - 1) == disc_among(ps.take(n - 1), ps[n - 1]),
{
    let t = ps.take(n);
    if disc_seen_before(t, n - 1) {
        let j = choose|j: int| 0 <= j < n - 1 && disc_of(#[trigger] t[j]) == disc_of(t[n - 1]);
        assert(ps.take(n - 1)[j] == t[j]);
    }
    if disc_among(ps.take(n - 1), ps[n - 1]) {
        let j = choose|j: int| 0 <= j < n - 1 && disc_of(#[trigger] ps.take(n - 1)[j]) == disc_of(ps[n - 1]);
        assert(t[j] == ps.take(n - 1)[j]);
    }
}

proof fn lemma_slots_step(ps: Seq<PositionsView>, n: int)
    requires
        0 < n <= ps.len(),
    ensures
        declared_slots(ps.take(n)) == declared_slots(ps.take(n - 1)) + if disc_among(
            ps.take(n - 1),
            ps[n - 1],
        ) {
            0nat
        } else {
            track_total_of(ps[n - 1]) as nat
        },
{
    assert(ps.take(n).drop_last() =~= ps.take(n - 1));
    lemma_seen_is_among(ps, n);
}

/// The order of the files never changes whether they fill their declared
/// program: exchanging two neighbouring files keeps the verdict (and so does
/// any reordering, which such exchanges compose).
pub proof fn lemma_completeness_ignores_file_order(ps: Seq<PositionsView>, k: int)
    requires
        0 <= k && k + 1 < ps.len(),
    ensures
        complete_declarations(swap_adjacent(ps, k)) == complete_declarations(ps),
{
    let qs = swap_adjacent(ps, k);
    lemma_swap_index(ps, k);
    if consistent_positions(ps) {
        lemma_swap_keeps_consistency(ps, k);
    }
    if consistent_positions(qs) {
        lemma_swap_keeps_consistency(qs, k);
    }
    lemma_swap_keeps_discs(ps, k);
    if consistent_positions(ps) {
        reveal(consistent_positions);
        assert(disc_total_of(qs[0]) == disc_total_of(ps[swapped_index(k, 0)]));
        lemma_swap_keeps_slots(ps, k);
    }
}

proof fn lemma_swap_keeps_slots(ps: Seq<PositionsView>, k: int)
    requires
        0 <= k && k + 1 < ps.len(),
        consistent_positions(ps),
    ensures
        declared_slots(swap_adjacent(ps, k)) == declared_slots(ps),
{
    reveal(consistent_positions);
    lemma_swap_index(ps, k);
    let qs = swap_adjacent(ps, k);
    // The prefixes before the exchange agree.
    assert(qs.take(k) =~= ps.take(k));
    lemma_slots_step(ps, k + 1);
    lemma_slots_step(ps, k + 2);
    lemma_slots_step(qs, k + 1);
    lemma_slots_step(qs, k + 2);
    let a = ps[k];
    let b = ps[k + 1];
    let pre = ps.take(k);
    assert(ps.take(k + 1) =~= pre.push(a));
    assert(qs.take(k + 1) =~= pre.push(b));
    assert(ps.take(k + 1)[k] == a);
    assert(qs.take(k + 1)[k] == b);
    assert(disc_among(pre.push(a), b) == (disc_among(pre, b) || disc_of(a) == disc_of(b))) by {
        if disc_among(pre.push(a), b) {
            let j = choose|j: int| 0 <= j < k + 1 && disc_of(#[trigger] pre.push(a)[j]) == disc_of(b);
            if j < k {
                assert(pre[j] == pre.push(a)[j]);
            }
        }
        if disc_among(pre, b) {
            let j = choose|j: int| 0 <= j < k && disc_of(#[trigger] pre[j]) == disc_of(b);
            assert(pre.push(a)[j] == pre[j]);
        }
        if disc_of(a) == disc_of(b) {
            assert(pre.push(a)[k] == a);
        }
    }
    assert(disc_among(pre.push(b), a) == (disc_among(pre, a) || disc_of(a) == disc_of(b))) by {
        if disc_among(pre.push(b), a) {
            let j = choose|j: int| 0 <= j < k + 1 && disc_of(#[trigger] pre.push(b)[j]) == disc_of(a);
            if j < k {
                assert(pre[j] == pre.push(b)[j]);
            }
        }
        if disc_among(pre, a) {
            let j = choose|j: int| 0 <= j < k && disc_of(#[trigger] pre[j]) == disc_of(a);
            assert(pre.push(b)[j] == pre[j]);
        }
        if disc_of(a) == disc_of(b) {
            assert(pre.push(b)[k] == b);
        }
    }
    if disc_of(a) == disc_of(b) {
        assert(track_total_of(ps[k]) == track_total_of(ps[k + 1]));
    }
    assert(declared_slots(qs.take(k + 2)) == declared_slots(ps.take(k + 2)));
    lemma_slots_after_swap(ps, k, k + 2);
}

/// Beyond the exchange, each file meets the same discs before it.
proof fn lemma_slots_after_swap(ps: Seq<PositionsView>, k: int, n: int)
    requires
        0 <= k && k + 2 <= n <= ps.len(),
        declared_slots(swap_adjacent(ps, k).take(n)) == declared_slots(ps.take(n)),
    ensures
        declared_slots(swap_adjacent(ps, k)) == declared_slots(ps),
    decreases ps.len() - n,
{
    lemma_swap_index(ps, k);
    let qs = swap_adjacent(ps, k);
    if n < ps.len() {
        lemma_slots_step(ps, n + 1);
        lemma_slots_step(qs, n + 1);
        assert(qs[n] == ps[n]);
        assert(disc_among(qs.take(n), qs[n]) == disc_among(ps.take(n), ps[n])) by {
            if disc_among(qs.take(n), qs[n]) {
                let j = choose|j: int| 0 <= j < n && disc_of(#[trigger] qs.take(n)[j]) == disc_of(qs[n]);
                assert(ps.take(n)[swapped_index(k, j)] == qs.take(n)[j]);
            }
            if disc_among(ps.take(n), ps[n]) {
                let j = choose|j: int| 0 <= j < n && disc_of(#[trigger] ps.take(n)[j]) == disc_of(ps[n]);
                assert(qs.take(n)[swapped_index(k, j)] == ps.take(n)[j]);
            }
        }
        lemma_slots_after_swap(ps, k, n + 1);
    } else {
        assert(qs.take(ps.len() as int) =~= qs);
        assert(ps.take(ps.len() as int) =~= ps);
    }
}

} // verus!
