//! Explicit user choices inside an established Album. No discovery or edition claims.
use vstd::prelude::*;

use crate::album_program::{text_or_empty, Match, MatchView, RecordingStatus};
use crate::domain::{copy_identities, id_views, AlbumId, ExternalIdentity, IdentityView, TrackId};
use crate::album_program::{Programs, ProgramsView};
use crate::domain::copy_strings;
use crate::edition::{
    copy_artists, holds, holds_string, opt_chars, opt_str_eq, RecordingEvidence,
    RecordingEvidenceView, TrackEvidence, TrackEvidenceView,
};
use crate::order::{
    ascending, ascending_list, lemma_ascending_insert, lemma_is_ascending_list, strict_total,
};
use crate::text::{chars_of, lemma_lex_order, lex_less, lex_lt, string_of, views};

verus! {

#[derive(Debug, PartialEq, Eq)]
pub struct Candidate {
    pub evidence: TrackEvidence,
    pub supporting_programs: usize,
}

#[derive(Debug, PartialEq, Eq)]
pub struct Association {
    pub track_id: TrackId,
    pub album: ExternalIdentity,
    pub candidate: Candidate,
}

/// The Track mapping an explicit confirmation stands for.
pub open spec fn confirmed_match(e: TrackEvidenceView) -> MatchView {
    MatchView {
        title: text_or_empty(e.title),
        recording: e.recording,
        recording_status: if e.recording.identities.len() == 0 {
            RecordingStatus::NotProvided
        } else {
            RecordingStatus::Identified
        },
        occurrences: e.identities,
        explanation: "Explicit user confirmation within the known Album; no exact edition claim"@,
    }
}

impl Association {
    pub fn matched(&self) -> (r: Match)
        ensures
            r@ == confirmed_match(self.candidate.evidence@),
    {
        let e = &self.candidate.evidence;
        Match {
            title: match &e.title {
                Some(t) => t.clone(),
                None => String::new(),
            },
            recording: e.recording.clone(),
            recording_status: if e.recording.identities.len() == 0 {
                RecordingStatus::NotProvided
            } else {
                RecordingStatus::Identified
            },
            occurrences: copy_identities(e.identities.as_slice()),
            explanation: string_of(
                chars_of(
                    "Explicit user confirmation within the known Album; no exact edition claim",
                ).as_slice(),
            ),
        }
    }
}

/// Prepared from bounded provider programs. Private context prevents frontend
/// callers substituting a candidate from an unrelated Album at confirmation.
#[derive(Debug)]
pub struct Selection {
    album_id: AlbumId,
    track_id: TrackId,
    album: ExternalIdentity,
    candidates: Vec<Candidate>,
}

impl Selection {
    pub closed spec fn offered(&self) -> Seq<Candidate> {
        self.candidates@
    }

    pub closed spec fn for_track(&self) -> TrackId {
        self.track_id
    }

    pub closed spec fn for_album(&self) -> AlbumId {
        self.album_id
    }

    pub fn candidates(&self) -> (r: &[Candidate])
        ensures
            r@ == self.offered(),
    {
        self.candidates.as_slice()
    }

    pub fn track_id(&self) -> (r: &TrackId)
        ensures
            *r == self.for_track(),
    {
        &self.track_id
    }

    pub fn album_id(&self) -> (r: &AlbumId)
        ensures
            *r == self.for_album(),
    {
        &self.album_id
    }
}

// ---------------------------------------------------------------------------
// Grouping keys.

/// Identities in the order of their provider, kind and identifier text.
pub open spec fn identity_lt(a: IdentityView, b: IdentityView) -> bool {
    ||| lex_lt(a.provider, b.provider)
    ||| (a.provider == b.provider && lex_lt(a.kind, b.kind))
    ||| (a.provider == b.provider && a.kind == b.kind && lex_lt(a.external_id, b.external_id))
}

pub open spec fn identity_order() -> spec_fn(IdentityView, IdentityView) -> bool {
    |a: IdentityView, b: IdentityView| identity_lt(a, b)
}

proof fn lemma_identity_lt(a: IdentityView, b: IdentityView, c: IdentityView)
    ensures
        !identity_lt(a, a),
        identity_lt(a, b) && identity_lt(b, c) ==> identity_lt(a, c),
        a != b ==> identity_lt(a, b) || identity_lt(b, a),
{
    lemma_lex_order(a.provider, b.provider, c.provider);
    lemma_lex_order(a.kind, b.kind, c.kind);
    lemma_lex_order(a.external_id, b.external_id, c.external_id);
}

proof fn lemma_identity_order()
    ensures
        strict_total(identity_order()),
{
    let lt = identity_order();
    assert forall|x: IdentityView| !#[trigger] lt(x, x) by {
        lemma_identity_lt(x, x, x);
    }
    assert forall|x: IdentityView, y: IdentityView, z: IdentityView|
        #[trigger] lt(x, y) && #[trigger] lt(y, z) implies lt(x, z) by {
        lemma_identity_lt(x, y, z);
    }
    assert forall|x: IdentityView, y: IdentityView| x != y implies #[trigger] lt(x, y) || #[trigger] lt(
        y,
        x,
    ) by {
        lemma_identity_lt(x, y, y);
    }
}

/// Lists of identities in lexicographic order.
pub open spec fn ids_lt(a: Seq<IdentityView>, b: Seq<IdentityView>) -> bool
    decreases a.len(),
{
    if b.len() == 0 {
        false
    } else if a.len() == 0 {
        true
    } else if a[0] != b[0] {
        identity_lt(a[0], b[0])
    } else {
        ids_lt(a.drop_first(), b.drop_first())
    }
}

proof fn lemma_ids_lt(a: Seq<IdentityView>, b: Seq<IdentityView>, c: Seq<IdentityView>)
    ensures
        !ids_lt(a, a),
        ids_lt(a, b) && ids_lt(b, c) ==> ids_lt(a, c),
        a != b ==> ids_lt(a, b) || ids_lt(b, a),
    decreases a.len(),
{
    if a.len() > 0 && b.len() > 0 && c.len() > 0 {
        lemma_ids_lt(a.drop_first(), b.drop_first(), c.drop_first());
        lemma_identity_lt(a[0], b[0], c[0]);
    } else if a.len() > 0 && b.len() > 0 {
        lemma_ids_lt(a.drop_first(), b.drop_first(), b.drop_first());
        lemma_identity_lt(a[0], b[0], b[0]);
    } else if a.len() > 0 {
        lemma_ids_lt(a.drop_first(), a.drop_first(), a.drop_first());
        lemma_identity_lt(a[0], a[0], a[0]);
    }
    if a.len() > 0 && b.len() > 0 && a[0] == b[0] && a.drop_first() == b.drop_first() {
        assert forall|i: int| 0 <= i < a.len() implies a[i] == b[i] by {
            if i > 0 {
                assert(a[i] == a.drop_first()[i - 1]);
                assert(b[i] == b.drop_first()[i - 1]);
            }
        }
        assert(a =~= b);
    }
    if a.len() == 0 && b.len() == 0 {
        assert(a =~= b);
    }
}

/// What groups provider tracks: their strong Recording identities, else their
/// occurrence identities, each as an ascending set; a track with neither
/// stands alone at its program and position.
pub struct KeyView {
    pub kind: u8,
    pub ids: Seq<IdentityView>,
    pub program: int,
    pub position: int,
}

pub open spec fn group_key(t: TrackEvidenceView, p: int, n: int) -> KeyView {
    let by_recording = t.recording.identities.len() > 0;
    let ids = if by_recording {
        t.recording.identities
    } else {
        t.identities
    };
    if ids.len() == 0 {
        KeyView { kind: 2, ids: Seq::empty(), program: p, position: n }
    } else {
        KeyView {
            kind: if by_recording {
                0
            } else {
                1
            },
            ids: ascending_list(ids.to_set(), identity_order()),
            program: 0,
            position: 0,
        }
    }
}

/// The order of grouping keys: kind, identities, program, position.
pub open spec fn key_before(a: KeyView, b: KeyView) -> bool {
    ||| a.kind < b.kind
    ||| (a.kind == b.kind && ids_lt(a.ids, b.ids))
    ||| (a.kind == b.kind && a.ids == b.ids && a.program < b.program)
    ||| (a.kind == b.kind && a.ids == b.ids && a.program == b.program && a.position < b.position)
}

proof fn lemma_key_before(a: KeyView, b: KeyView, c: KeyView)
    ensures
        !key_before(a, a),
        key_before(a, b) && key_before(b, c) ==> key_before(a, c),
        a != b ==> key_before(a, b) || key_before(b, a),
{
    lemma_ids_lt(a.ids, b.ids, c.ids);
    lemma_ids_lt(b.ids, a.ids, c.ids);
    lemma_ids_lt(a.ids, c.ids, b.ids);
}

struct GroupKey {
    kind: u8,
    ids: Vec<ExternalIdentity>,
    program: usize,
    position: usize,
}

impl View for GroupKey {
    type V = KeyView;

    closed spec fn view(&self) -> KeyView {
        KeyView {
            kind: self.kind,
            ids: id_views(self.ids@),
            program: self.program as int,
            position: self.position as int,
        }
    }
}

fn text_chars(s: &String) -> (r: Vec<char>)
    ensures
        r@ == s@,
{
    chars_of(s.as_str())
}

fn identity_less(a: &ExternalIdentity, b: &ExternalIdentity) -> (r: bool)
    ensures
        r == identity_lt(a@, b@),
{
    let (ap, bp) = (text_chars(&a.provider), text_chars(&b.provider));
    if lex_less(&ap, &bp) {
        return true;
    }
    if a.provider != b.provider {
        return false;
    }
    let (ak, bk) = (text_chars(&a.kind), text_chars(&b.kind));
    if lex_less(&ak, &bk) {
        return true;
    }
    if a.kind != b.kind {
        return false;
    }
    lex_less(&text_chars(&a.external_id), &text_chars(&b.external_id))
}

/// The distinct identities of a list, ascending.
fn ascending_ids(ids: &Vec<ExternalIdentity>) -> (r: Vec<ExternalIdentity>)
    ensures
        ascending(id_views(r@), identity_order()),
        id_views(r@).to_set() == id_views(ids@).to_set(),
{
    proof {
        lemma_identity_order();
    }
    let ghost lt = identity_order();
    let mut out: Vec<ExternalIdentity> = Vec::new();
    let mut i: usize = 0;
    while i < ids.len()
        invariant
            i <= ids.len(),
            lt == identity_order(),
            strict_total(lt),
            ascending(id_views(out@), lt),
            id_views(out@).to_set() == id_views(ids@).take(i as int).to_set(),
        decreases ids.len() - i,
    {
        let ghost s = id_views(out@);
        let x = &ids[i];
        let mut pos: usize = 0;
        while pos < out.len() && identity_less(&out[pos], x)
            invariant
                pos <= out.len(),
                s == id_views(out@),
                forall|a: int| 0 <= a < pos ==> identity_lt(#[trigger] s[a], x@),
            decreases out.len() - pos,
        {
            pos = pos + 1;
        }
        assert(id_views(ids@).take(i + 1) =~= id_views(ids@).take(i as int).push(x@));
        proof {
            id_views(ids@).take(i as int).lemma_push_to_set_commute(x@);
        }
        if pos < out.len() && out[pos].same(x) {
            proof {
                assert(s[pos as int] == x@);
                assert(s.to_set().insert(x@) =~= s.to_set());
            }
        } else {
            proof {
                if pos < s.len() {
                    assert(!identity_lt(s[pos as int], x@));
                    assert(s[pos as int] != x@);
                    lemma_identity_lt(x@, s[pos as int], x@);
                }
                lemma_ascending_insert(s, pos as int, x@, lt);
            }
            out.insert(pos, x.clone());
            assert(id_views(out@) =~= s.insert(pos as int, x@));
        }
        i = i + 1;
    }
    assert(id_views(ids@).take(ids.len() as int) =~= id_views(ids@));
    out
}

fn track_key(t: &TrackEvidence, p: usize, n: usize) -> (k: GroupKey)
    ensures
        k@ == group_key(t@, p as int, n as int),
{
    let by_recording = t.recording.identities.len() > 0;
    let ids = if by_recording {
        &t.recording.identities
    } else {
        &t.identities
    };
    if ids.len() == 0 {
        let none: Vec<ExternalIdentity> = Vec::new();
        assert(id_views(none@) =~= Seq::<IdentityView>::empty());
        return GroupKey { kind: 2, ids: none, program: p, position: n };
    }
    let sorted = ascending_ids(ids);
    proof {
        lemma_identity_order();
        lemma_is_ascending_list(id_views(sorted@), id_views(ids@).to_set(), identity_order());
    }
    GroupKey {
        kind: if by_recording {
            0
        } else {
            1
        },
        ids: sorted,
        program: 0,
        position: 0,
    }
}

fn same_ids(a: &Vec<ExternalIdentity>, b: &Vec<ExternalIdentity>) -> (r: bool)
    ensures
        r == (id_views(a@) == id_views(b@)),
{
    if a.len() != b.len() {
        assert(id_views(a@).len() != id_views(b@).len());
        return false;
    }
    let mut i: usize = 0;
    while i < a.len()
        invariant
            i <= a.len(),
            a.len() == b.len(),
            forall|k: int| 0 <= k < i ==> (#[trigger] a@[k])@ == b@[k]@,
        decreases a.len() - i,
    {
        if !a[i].same(&b[i]) {
            assert(id_views(a@)[i as int] != id_views(b@)[i as int]);
            return false;
        }
        i = i + 1;
    }
    assert(id_views(a@) =~= id_views(b@));
    true
}

fn same_key(a: &GroupKey, b: &GroupKey) -> (r: bool)
    ensures
        r == (a@ == b@),
{
    a.kind == b.kind && a.program == b.program && a.position == b.position && same_ids(
        &a.ids,
        &b.ids,
    )
}

fn ids_less(a: &Vec<ExternalIdentity>, b: &Vec<ExternalIdentity>) -> (r: bool)
    ensures
        r == ids_lt(id_views(a@), id_views(b@)),
{
    let ghost av = id_views(a@);
    let ghost bv = id_views(b@);
    let mut i: usize = 0;
    assert(av.skip(0) =~= av);
    assert(bv.skip(0) =~= bv);
    while i < a.len() && i < b.len()
        invariant
            i <= a.len(),
            i <= b.len(),
            av == id_views(a@),
            bv == id_views(b@),
            ids_lt(av.skip(i as int), bv.skip(i as int)) == ids_lt(av, bv),
        decreases a.len() - i,
    {
        if !a[i].same(&b[i]) {
            return identity_less(&a[i], &b[i]);
        }
        assert(av.skip(i as int).drop_first() =~= av.skip(i + 1));
        assert(bv.skip(i as int).drop_first() =~= bv.skip(i + 1));
        i = i + 1;
    }
    i < b.len()
}

fn key_less(a: &GroupKey, b: &GroupKey) -> (r: bool)
    ensures
        r == key_before(a@, b@),
{
    if a.kind != b.kind {
        return a.kind < b.kind;
    }
    if !same_ids(&a.ids, &b.ids) {
        return ids_less(&a.ids, &b.ids);
    }
    proof {
        lemma_ids_lt(a@.ids, a@.ids, a@.ids);
    }
    if a.program != b.program {
        return a.program < b.program;
    }
    a.position < b.position
}

// ---------------------------------------------------------------------------
// Orders of evidence.

/// A missing value orders first.
pub open spec fn u32_before(a: Option<u32>, b: Option<u32>) -> bool {
    match (a, b) {
        (None, Some(_)) => true,
        (Some(x), Some(y)) => x < y,
        _ => false,
    }
}

pub open spec fn u64_before(a: Option<u64>, b: Option<u64>) -> bool {
    match (a, b) {
        (None, Some(_)) => true,
        (Some(x), Some(y)) => x < y,
        _ => false,
    }
}

pub open spec fn text_before(a: Option<Seq<char>>, b: Option<Seq<char>>) -> bool {
    match (a, b) {
        (None, Some(_)) => true,
        (Some(x), Some(y)) => lex_lt(x, y),
        _ => false,
    }
}

/// Equal title, duration, disc and number.
pub open spec fn same_placing(a: TrackEvidenceView, b: TrackEvidenceView) -> bool {
    a.title == b.title && a.duration_ms == b.duration_ms && a.disc == b.disc && a.number == b.number
}

/// The order among the evidence of one group: title, duration, disc, number.
pub open spec fn evidence_before(a: TrackEvidenceView, b: TrackEvidenceView) -> bool {
    ||| text_before(a.title, b.title)
    ||| (a.title == b.title && u64_before(a.duration_ms, b.duration_ms))
    ||| (a.title == b.title && a.duration_ms == b.duration_ms && u32_before(a.disc, b.disc))
    ||| (a.title == b.title && a.duration_ms == b.duration_ms && a.disc == b.disc && u32_before(
        a.number,
        b.number,
    ))
}

/// The order of the listed candidates: disc, number, title, duration.
pub open spec fn listing_before(a: TrackEvidenceView, b: TrackEvidenceView) -> bool {
    ||| u32_before(a.disc, b.disc)
    ||| (a.disc == b.disc && u32_before(a.number, b.number))
    ||| (a.disc == b.disc && a.number == b.number && text_before(a.title, b.title))
    ||| (a.disc == b.disc && a.number == b.number && a.title == b.title && u64_before(
        a.duration_ms,
        b.duration_ms,
    ))
}

proof fn lemma_text_before(a: Option<Seq<char>>, b: Option<Seq<char>>, c: Option<Seq<char>>)
    ensures
        !text_before(a, a),
        text_before(a, b) && text_before(b, c) ==> text_before(a, c),
        a != b ==> text_before(a, b) || text_before(b, a),
{
    if a is Some && b is Some && c is Some {
        lemma_lex_order(a->0, b->0, c->0);
    }
    if a is Some && b is Some {
        lemma_lex_order(a->0, b->0, b->0);
    }
    if a is Some {
        lemma_lex_order(a->0, a->0, a->0);
    }
}

/// Both orders are strict weak orders whose ties are `same_placing`.
proof fn lemma_evidence_orders(a: TrackEvidenceView, b: TrackEvidenceView, c: TrackEvidenceView)
    ensures
        !evidence_before(a, a),
        evidence_before(a, b) && evidence_before(b, c) ==> evidence_before(a, c),
        !same_placing(a, b) ==> evidence_before(a, b) || evidence_before(b, a),
        evidence_before(a, b) ==> !same_placing(a, b),
        !listing_before(a, a),
        listing_before(a, b) && listing_before(b, c) ==> listing_before(a, c),
        !same_placing(a, b) ==> listing_before(a, b) || listing_before(b, a),
        listing_before(a, b) ==> !same_placing(a, b),
{
    lemma_text_before(a.title, b.title, c.title);
}

/// A track of the programs by program and position.
pub open spec fn slot_track(ps: ProgramsView, s: (int, int)) -> TrackEvidenceView {
    ps.programs[s.0].tracks[s.1]
}

pub open spec fn valid_slot(ps: ProgramsView, s: (int, int)) -> bool {
    0 <= s.0 < ps.programs.len() && 0 <= s.1 < ps.programs[s.0].tracks.len()
}

/// Evidence order, ties kept in the order the programs list them.
pub open spec fn member_before(ps: ProgramsView, a: (int, int), b: (int, int)) -> bool {
    let ta = slot_track(ps, a);
    let tb = slot_track(ps, b);
    evidence_before(ta, tb) || (same_placing(ta, tb) && (a.0 < b.0 || (a.0 == b.0 && a.1 < b.1)))
}

pub open spec fn member_order(ps: ProgramsView) -> spec_fn((int, int), (int, int)) -> bool {
    |a: (int, int), b: (int, int)| member_before(ps, a, b)
}

proof fn lemma_member_order(ps: ProgramsView)
    ensures
        strict_total(member_order(ps)),
{
    let lt = member_order(ps);
    assert forall|x: (int, int)| !#[trigger] lt(x, x) by {
        let t = slot_track(ps, x);
        lemma_evidence_orders(t, t, t);
    }
    assert forall|x: (int, int), y: (int, int), z: (int, int)|
        #[trigger] lt(x, y) && #[trigger] lt(y, z) implies lt(x, z) by {
        lemma_evidence_orders(slot_track(ps, x), slot_track(ps, y), slot_track(ps, z));
    }
    assert forall|x: (int, int), y: (int, int)| x != y implies #[trigger] lt(x, y) || #[trigger] lt(
        y,
        x,
    ) by {
        lemma_evidence_orders(slot_track(ps, x), slot_track(ps, y), slot_track(ps, y));
        lemma_evidence_orders(slot_track(ps, y), slot_track(ps, x), slot_track(ps, x));
    }
}

fn u32_less(a: Option<u32>, b: Option<u32>) -> (r: bool)
    ensures
        r == u32_before(a, b),
{
    match (a, b) {
        (None, Some(_)) => true,
        (Some(x), Some(y)) => x < y,
        _ => false,
    }
}

fn u64_less(a: Option<u64>, b: Option<u64>) -> (r: bool)
    ensures
        r == u64_before(a, b),
{
    match (a, b) {
        (None, Some(_)) => true,
        (Some(x), Some(y)) => x < y,
        _ => false,
    }
}

fn text_less(a: &Option<String>, b: &Option<String>) -> (r: bool)
    ensures
        r == text_before(opt_chars(*a), opt_chars(*b)),
{
    match (a, b) {
        (None, Some(_)) => true,
        (Some(x), Some(y)) => lex_less(&text_chars(x), &text_chars(y)),
        _ => false,
    }
}

fn same_placing_exec(a: &TrackEvidence, b: &TrackEvidence) -> (r: bool)
    ensures
        r == same_placing(a@, b@),
{
    opt_str_eq(&a.title, &b.title) && a.duration_ms == b.duration_ms && a.disc == b.disc
        && a.number == b.number
}

fn evidence_less(a: &TrackEvidence, b: &TrackEvidence) -> (r: bool)
    ensures
        r == evidence_before(a@, b@),
{
    text_less(&a.title, &b.title) || (opt_str_eq(&a.title, &b.title) && (u64_less(
        a.duration_ms,
        b.duration_ms,
    ) || (a.duration_ms == b.duration_ms && (u32_less(a.disc, b.disc) || (a.disc == b.disc
        && u32_less(a.number, b.number))))))
}

fn listing_less(a: &TrackEvidence, b: &TrackEvidence) -> (r: bool)
    ensures
        r == listing_before(a@, b@),
{
    u32_less(a.disc, b.disc) || (a.disc == b.disc && (u32_less(a.number, b.number) || (a.number
        == b.number && (text_less(&a.title, &b.title) || (opt_str_eq(&a.title, &b.title)
        && u64_less(a.duration_ms, b.duration_ms))))))
}

fn slot_of<'a>(programs: &'a Programs, s: (usize, usize)) -> (r: &'a TrackEvidence)
    requires
        valid_slot(programs@, (s.0 as int, s.1 as int)),
    ensures
        r@ == slot_track(programs@, (s.0 as int, s.1 as int)),
{
    &programs.programs[s.0].tracks[s.1]
}

fn member_less(programs: &Programs, a: (usize, usize), b: (usize, usize)) -> (r: bool)
    requires
        valid_slot(programs@, (a.0 as int, a.1 as int)),
        valid_slot(programs@, (b.0 as int, b.1 as int)),
    ensures
        r == member_before(programs@, (a.0 as int, a.1 as int), (b.0 as int, b.1 as int)),
{
    let ta = slot_of(programs, a);
    let tb = slot_of(programs, b);
    evidence_less(ta, tb) || (same_placing_exec(ta, tb) && (a.0 < b.0 || (a.0 == b.0 && a.1
        < b.1)))
}

// ---------------------------------------------------------------------------
// Groups of provider tracks.

pub open spec fn slot_key(ps: ProgramsView, s: (int, int)) -> KeyView {
    group_key(slot_track(ps, s), s.0, s.1)
}

/// The tracks of the programs that share a grouping key.
pub open spec fn group_members(ps: ProgramsView, k: KeyView) -> Set<(int, int)> {
    Set::new(|s: (int, int)| valid_slot(ps, s) && slot_key(ps, s) == k)
}

/// The grouping keys of all tracks of the programs.
pub open spec fn group_keys(ps: ProgramsView) -> Set<KeyView> {
    Set::new(|k: KeyView| exists|s: (int, int)| valid_slot(ps, s) && slot_key(ps, s) == k)
}

/// A group's tracks in evidence order.
pub open spec fn ordered_members(ps: ProgramsView, k: KeyView) -> Seq<(int, int)> {
    ascending_list(group_members(ps, k), member_order(ps))
}

/// The number of programs that hold a track of the group.
pub open spec fn supporting(ps: ProgramsView, k: KeyView) -> nat {
    Set::new(|p: int| exists|n: int| group_members(ps, k).contains((p, n))).len()
}

proof fn lemma_supporting_bounds(ps: ProgramsView, k: KeyView)
    requires
        group_keys(ps).contains(k),
    ensures
        1 <= supporting(ps, k) <= ps.programs.len(),
{
    let progs = Set::new(|p: int| exists|n: int| group_members(ps, k).contains((p, n)));
    let range = vstd::set_lib::set_int_range(0, ps.programs.len() as int);
    vstd::set_lib::lemma_int_range(0, ps.programs.len() as int);
    assert(progs.subset_of(range)) by {
        assert forall|p: int| progs.contains(p) implies range.contains(p) by {
            let n = choose|n: int| group_members(ps, k).contains((p, n));
            assert(valid_slot(ps, (p, n)));
        }
    }
    vstd::set_lib::lemma_len_subset(progs, range);
    let s = choose|s: (int, int)| valid_slot(ps, s) && slot_key(ps, s) == k;
    assert(group_members(ps, k).contains((s.0, s.1)));
    assert(progs.contains(s.0));
    assert(progs.remove(s.0).len() == progs.len() - 1);
}

struct Slot {
    key: GroupKey,
    at: (usize, usize),
}

spec fn at_view(s: Slot) -> (int, int) {
    (s.at.0 as int, s.at.1 as int)
}

spec fn slots_sound(ps: ProgramsView, slots: Seq<Slot>) -> bool {
    &&& forall|j: int|
        0 <= j < slots.len() ==> valid_slot(ps, at_view(#[trigger] slots[j])) && slots[j].key@
            == slot_key(ps, at_view(slots[j]))
    &&& forall|i: int, j: int|
        0 <= i < j < slots.len() ==> at_view(#[trigger] slots[i]) != at_view(#[trigger] slots[j])
}

/// Every track of the programs with its grouping key, in program order.
fn keyed_slots(programs: &Programs) -> (r: Vec<Slot>)
    ensures
        slots_sound(programs@, r@),
        forall|s: (int, int)|
            valid_slot(programs@, s) ==> exists|j: int| 0 <= j < r@.len() && at_view(#[trigger] r@[j]) == s,
{
    let ghost ps = programs@;
    let mut out: Vec<Slot> = Vec::new();
    let mut p: usize = 0;
    while p < programs.programs.len()
        invariant
            p <= programs.programs.len(),
            ps == programs@,
            slots_sound(ps, out@),
            forall|j: int| 0 <= j < out@.len() ==> (#[trigger] out@[j]).at.0 < p,
            forall|s: (int, int)|
                valid_slot(ps, s) && s.0 < p ==> exists|j: int|
                    0 <= j < out@.len() && at_view(#[trigger] out@[j]) == s,
        decreases programs.programs.len() - p,
    {
        let tracks = &programs.programs[p].tracks;
        assert(ps.programs[p as int].tracks == crate::edition::track_ev_views(tracks@));
        let mut n: usize = 0;
        while n < tracks.len()
            invariant
                p < programs.programs.len(),
                n <= tracks.len(),
                ps == programs@,
                tracks == programs.programs@[p as int].tracks,
                ps.programs[p as int].tracks == crate::edition::track_ev_views(tracks@),
                slots_sound(ps, out@),
                forall|j: int|
                    0 <= j < out@.len() ==> (#[trigger] out@[j]).at.0 < p || (out@[j].at.0 == p
                        && out@[j].at.1 < n),
                forall|s: (int, int)|
                    valid_slot(ps, s) && (s.0 < p || (s.0 == p && s.1 < n)) ==> exists|j: int|
                        0 <= j < out@.len() && at_view(#[trigger] out@[j]) == s,
            decreases tracks.len() - n,
        {
            let key = track_key(&tracks[n], p, n);
            let ghost before = out@;
            out.push(Slot { key, at: (p, n) });
            proof {
                let here = (p as int, n as int);
                assert(slot_track(ps, here) == tracks@[n as int]@);
                assert forall|s: (int, int)|
                    valid_slot(ps, s) && (s.0 < p || (s.0 == p && s.1 < n + 1)) implies exists|j: int|
                    0 <= j < out@.len() && at_view(#[trigger] out@[j]) == s by {
                    if s == here {
                        assert(at_view(out@[before.len() as int]) == s);
                    } else {
                        let j = choose|j: int| 0 <= j < before.len() && at_view(#[trigger] before[j]) == s;
                        assert(out@[j] == before[j]);
                    }
                }
                assert forall|i: int, j: int|
                    0 <= i < j < out@.len() implies at_view(#[trigger] out@[i]) != at_view(
                    #[trigger] out@[j],
                ) by {
                    if j == before.len() {
                        assert(out@[i] == before[i]);
                    } else {
                        assert(out@[i] == before[i] && out@[j] == before[j]);
                    }
                }
                assert forall|j: int| 0 <= j < out@.len() implies valid_slot(ps, at_view(#[trigger] out@[j]))
                    && out@[j].key@ == slot_key(ps, at_view(out@[j])) by {
                    if j < before.len() {
                        assert(out@[j] == before[j]);
                    }
                }
            }
            n = n + 1;
        }
        p = p + 1;
    }
    out
}

fn copy_key(k: &GroupKey) -> (r: GroupKey)
    ensures
        r@ == k@,
{
    GroupKey {
        kind: k.kind,
        ids: copy_identities(k.ids.as_slice()),
        program: k.program,
        position: k.position,
    }
}

spec fn key_views(ks: Seq<GroupKey>) -> Seq<KeyView> {
    ks.map_values(|k: GroupKey| k@)
}

/// The distinct keys of the slots, in first-seen order.
fn distinct_keys(slots: &Vec<Slot>) -> (r: Vec<GroupKey>)
    ensures
        key_views(r@).no_duplicates(),
        key_views(r@).to_set() == Set::new(
            |k: KeyView| exists|j: int| 0 <= j < slots@.len() && (#[trigger] slots@[j]).key@ == k,
        ),
{
    let mut out: Vec<GroupKey> = Vec::new();
    let mut j: usize = 0;
    while j < slots.len()
        invariant
            j <= slots.len(),
            key_views(out@).no_duplicates(),
            key_views(out@).to_set() == Set::new(
                |k: KeyView| exists|x: int| 0 <= x < j && (#[trigger] slots@[x]).key@ == k,
            ),
        decreases slots.len() - j,
    {
        let ghost before = key_views(out@);
        let key = &slots[j].key;
        let mut i: usize = 0;
        let mut seen = false;
        while i < out.len()
            invariant
                i <= out.len(),
                before == key_views(out@),
                seen ==> before.contains(key@),
                !seen ==> forall|x: int| 0 <= x < i ==> before[x] != key@,
            decreases out.len() - i,
        {
            if same_key(&out[i], key) {
                assert(before[i as int] == key@);
                seen = true;
            }
            i = i + 1;
        }
        let ghost target = Set::new(
            |k: KeyView| exists|x: int| 0 <= x < j + 1 && (#[trigger] slots@[x]).key@ == k,
        );
        let ghost prior = Set::new(
            |k: KeyView| exists|x: int| 0 <= x < j && (#[trigger] slots@[x]).key@ == k,
        );
        assert(target =~= prior.insert(key@)) by {
            assert forall|k: KeyView| target.contains(k) implies prior.insert(key@).contains(k) by {
                let x = choose|x: int| 0 <= x < j + 1 && (#[trigger] slots@[x]).key@ == k;
                if x < j {
                    assert(prior.contains(k));
                }
            }
            assert forall|k: KeyView| prior.insert(key@).contains(k) implies target.contains(k) by {
                if k == key@ {
                    assert(slots@[j as int].key@ == k);
                } else {
                    let x = choose|x: int| 0 <= x < j && (#[trigger] slots@[x]).key@ == k;
                    assert(0 <= x < j + 1);
                }
            }
        }
        if !seen {
            out.push(copy_key(key));
            proof {
                assert(key_views(out@) =~= before.push(key@));
                before.lemma_push_to_set_commute(key@);
                assert forall|a: int, b: int|
                    0 <= a < key_views(out@).len() && 0 <= b < key_views(out@).len() && a != b implies key_views(
                    out@,
                )[a] != key_views(out@)[b] by {
                    if a < before.len() && b < before.len() {
                    } else if a == before.len() {
                        assert(before[b] != key@);
                    } else {
                        assert(before[a] != key@);
                    }
                }
            }
        } else {
            assert(prior.insert(key@) =~= prior);
        }
        j = j + 1;
    }
    out
}

spec fn pair_views(s: Seq<(usize, usize)>) -> Seq<(int, int)> {
    s.map_values(|x: (usize, usize)| (x.0 as int, x.1 as int))
}

spec fn slots_with(slots: Seq<Slot>, k: KeyView, upto: int) -> Set<(int, int)> {
    Set::new(
        |s: (int, int)|
            exists|x: int|
                0 <= x < upto && (#[trigger] slots[x]).key@ == k && at_view(slots[x]) == s,
    )
}

spec fn programs_of(members: Set<(int, int)>) -> Set<int> {
    Set::new(|p: int| exists|n: int| members.contains((p, n)))
}

fn holds_program(list: &Vec<usize>, p: usize) -> (r: bool)
    ensures
        r == list@.contains(p),
{
    let mut i: usize = 0;
    while i < list.len()
        invariant
            i <= list.len(),
            forall|k: int| 0 <= k < i ==> list@[k] != p,
        decreases list.len() - i,
    {
        if list[i] == p {
            return true;
        }
        i = i + 1;
    }
    false
}

/// The tracks of one group in evidence order, and how many programs hold one.
fn members_of(programs: &Programs, slots: &Vec<Slot>, k: &GroupKey) -> (r: (
    Vec<(usize, usize)>,
    usize,
))
    requires
        slots_sound(programs@, slots@),
    ensures
        ascending(pair_views(r.0@), member_order(programs@)),
        pair_views(r.0@).to_set() == slots_with(slots@, k@, slots@.len() as int),
        r.1 == programs_of(pair_views(r.0@).to_set()).len(),
{
    let ghost ps = programs@;
    let ghost lt = member_order(ps);
    proof {
        lemma_member_order(ps);
    }
    let mut members: Vec<(usize, usize)> = Vec::new();
    let mut progs: Vec<usize> = Vec::new();
    let mut j: usize = 0;
    assert(pair_views(members@).to_set() =~= slots_with(slots@, k@, 0));
    assert(progs@.to_set() =~= Set::<usize>::empty());
    while j < slots.len()
        invariant
            j <= slots.len(),
            ps == programs@,
            lt == member_order(ps),
            strict_total(lt),
            slots_sound(ps, slots@),
            ascending(pair_views(members@), lt),
            forall|i: int| 0 <= i < members@.len() ==> valid_slot(ps, #[trigger] pair_views(members@)[i]),
            pair_views(members@).to_set() == slots_with(slots@, k@, j as int),
            progs@.no_duplicates(),
            forall|p: usize| #[trigger] progs@.contains(p) <==> programs_of(
                pair_views(members@).to_set(),
            ).contains(p as int),
        decreases slots.len() - j,
    {
        let ghost mv = pair_views(members@);
        let ghost prior = slots_with(slots@, k@, j as int);
        if same_key(&slots[j].key, k) {
            let at = slots[j].at;
            let ghost av = (at.0 as int, at.1 as int);
            assert(av == at_view(slots@[j as int]));
            assert(!mv.to_set().contains(av)) by {
                if mv.to_set().contains(av) {
                    let x = choose|x: int|
                        0 <= x < j && (#[trigger] slots@[x]).key@ == k@ && at_view(slots@[x]) == av;
                    assert(at_view(slots@[x]) != at_view(slots@[j as int]));
                }
            }
            assert forall|i: int| 0 <= i < members@.len() implies valid_slot(
                ps,
                ((#[trigger] members@[i]).0 as int, members@[i].1 as int),
            ) by {
                assert(mv[i] == (members@[i].0 as int, members@[i].1 as int));
            }
            let mut pos: usize = 0;
            while pos < members.len() && member_less(programs, members[pos], at)
                invariant
                    pos <= members.len(),
                    ps == programs@,
                    mv == pair_views(members@),
                    forall|i: int| 0 <= i < members@.len() ==> valid_slot(
                        ps,
                        ((#[trigger] members@[i]).0 as int, members@[i].1 as int),
                    ),
                    valid_slot(ps, av),
                    av == (at.0 as int, at.1 as int),
                    forall|i: int| 0 <= i < members@.len() ==> valid_slot(ps, #[trigger] mv[i]),
                    forall|a: int| 0 <= a < pos ==> member_before(ps, #[trigger] mv[a], av),
                decreases members.len() - pos,
            {
                assert(mv[pos as int] == (members@[pos as int].0 as int, members@[pos as int].1 as int));
                pos = pos + 1;
            }
            proof {
                assert forall|a: int| 0 <= a < pos implies lt(#[trigger] mv[a], av) by {
                    assert(member_before(ps, mv[a], av));
                }
                if pos < mv.len() {
                    assert(mv[pos as int] == (members@[pos as int].0 as int, members@[pos as int].1 as int));
                    assert(!lt(mv[pos as int], av));
                    assert(mv.to_set().contains(mv[pos as int]));
                    assert(mv[pos as int] != av);
                    assert(lt(av, mv[pos as int]));
                }
                lemma_ascending_insert(mv, pos as int, av, lt);
            }
            members.insert(pos, at);
            let ghost nv = pair_views(members@);
            assert(nv =~= mv.insert(pos as int, av));
            proof {
                let target = slots_with(slots@, k@, j + 1);
                assert(target =~= prior.insert(av)) by {
                    assert forall|s: (int, int)| target.contains(s) implies prior.insert(av).contains(s) by {
                        let x = choose|x: int|
                            0 <= x < j + 1 && (#[trigger] slots@[x]).key@ == k@ && at_view(slots@[x]) == s;
                        if x < j {
                            assert(prior.contains(s));
                        }
                    }
                    assert forall|s: (int, int)| prior.insert(av).contains(s) implies target.contains(s) by {
                        if s == av {
                            assert(slots@[j as int].key@ == k@ && at_view(slots@[j as int]) == s);
                        } else {
                            let x = choose|x: int|
                                0 <= x < j && (#[trigger] slots@[x]).key@ == k@ && at_view(slots@[x]) == s;
                            assert(0 <= x < j + 1);
                        }
                    }
                }
                assert forall|i: int| 0 <= i < members@.len() implies valid_slot(ps, #[trigger] nv[i]) by {
                    if i < pos {
                        assert(nv[i] == mv[i]);
                    } else if i > pos {
                        assert(nv[i] == mv[i - 1]);
                    }
                }
            }
            let ghost old_progs = progs@;
            if !holds_program(&progs, at.0) {
                progs.push(at.0);
                proof {
                    assert(progs@[old_progs.len() as int] == at.0);
                    assert forall|a: int, b: int|
                        0 <= a < progs@.len() && 0 <= b < progs@.len() && a != b implies progs@[a]
                        != progs@[b] by {
                        if a < old_progs.len() && b < old_progs.len() {
                            assert(progs@[a] == old_progs[a] && progs@[b] == old_progs[b]);
                        } else if a == old_progs.len() {
                            assert(progs@[b] == old_progs[b]);
                        } else {
                            assert(progs@[a] == old_progs[a]);
                        }
                    }
                }
            }
            proof {
                assert forall|p: usize| #[trigger] progs@.contains(p) <==> programs_of(nv.to_set()).contains(
                    p as int,
                ) by {
                    if progs@.contains(p) {
                        if old_progs.contains(p) {
                            let n = choose|n: int| mv.to_set().contains((p as int, n));
                            assert(nv.to_set().contains((p as int, n)));
                        } else {
                            assert(p == at.0);
                            assert(nv.to_set().contains(av));
                        }
                    } else {
                        if programs_of(nv.to_set()).contains(p as int) {
                            let n = choose|n: int| nv.to_set().contains((p as int, n));
                            if (p as int, n) == av {
                                assert(progs@.contains(at.0));
                            } else {
                                assert(mv.to_set().contains((p as int, n)));
                                assert(old_progs.contains(p));
                                let i = choose|i: int| 0 <= i < old_progs.len() && old_progs[i] == p;
                                assert(progs@[i] == p);
                            }
                        }
                    }
                }
            }
        } else {
            proof {
                let target = slots_with(slots@, k@, j + 1);
                assert(target =~= prior) by {
                    assert forall|s: (int, int)| target.contains(s) implies prior.contains(s) by {
                        let x = choose|x: int|
                            0 <= x < j + 1 && (#[trigger] slots@[x]).key@ == k@ && at_view(slots@[x]) == s;
                        assert(x != j);
                    }
                }
            }
        }
        j = j + 1;
    }
    proof {
        let pv = progs@.map_values(|x: usize| x as int);
        assert forall|a: int, b: int| 0 <= a < pv.len() && 0 <= b < pv.len() && a != b implies pv[a]
            != pv[b] by {
            assert(progs@[a] != progs@[b]);
        }
        pv.unique_seq_to_set();
        let members_set = pair_views(members@).to_set();
        assert(pv.to_set() =~= programs_of(members_set)) by {
            assert forall|p: int| #[trigger] pv.to_set().contains(p) implies programs_of(members_set).contains(p) by {
                let i = choose|i: int| 0 <= i < pv.len() && pv[i] == p;
                assert(progs@.contains(progs@[i]));
            }
            assert forall|p: int| #[trigger] programs_of(members_set).contains(p) implies pv.to_set().contains(p) by {
                let n = choose|n: int| members_set.contains((p, n));
                let i = choose|i: int| 0 <= i < members@.len() && pair_views(members@)[i] == (p, n);
                assert(pair_views(members@)[i] == (members@[i].0 as int, members@[i].1 as int));
                let q = members@[i].0;
                assert(q as int == p);
                assert(programs_of(members_set).contains(q as int));
                assert(progs@.contains(q));
                let x = choose|x: int| 0 <= x < progs@.len() && progs@[x] == q;
                assert(pv[x] == p);
            }
        }
    }
    let count = progs.len();
    (members, count)
}

// ---------------------------------------------------------------------------
// One candidate per group.

/// Each value joins the list unless the list already holds it.
pub open spec fn absorbed<A>(acc: Seq<A>, xs: Seq<A>) -> Seq<A>
    decreases xs.len(),
{
    if xs.len() == 0 {
        acc
    } else {
        let prev = absorbed(acc, xs.drop_last());
        if prev.contains(xs.last()) {
            prev
        } else {
            prev.push(xs.last())
        }
    }
}

/// The occurrence identities of the given tracks, one track after another.
pub open spec fn member_identities(ps: ProgramsView, ms: Seq<(int, int)>) -> Seq<IdentityView>
    decreases ms.len(),
{
    if ms.len() == 0 {
        Seq::empty()
    } else {
        member_identities(ps, ms.drop_last()) + slot_track(ps, ms.last()).identities
    }
}

/// The ISRCs of the given tracks, one track after another.
pub open spec fn member_isrcs(ps: ProgramsView, ms: Seq<(int, int)>) -> Seq<Seq<char>>
    decreases ms.len(),
{
    if ms.len() == 0 {
        Seq::empty()
    } else {
        member_isrcs(ps, ms.drop_last()) + slot_track(ps, ms.last()).recording.isrcs
    }
}

/// The first of the tracks, with the occurrence identities and ISRCs of all
/// of them gathered in.
pub open spec fn merged_of(ps: ProgramsView, ms: Seq<(int, int)>) -> TrackEvidenceView {
    let first = slot_track(ps, ms[0]);
    TrackEvidenceView {
        identities: absorbed(first.identities, member_identities(ps, ms)),
        disc: first.disc,
        number: first.number,
        title: first.title,
        artists: first.artists,
        duration_ms: first.duration_ms,
        recording: RecordingEvidenceView {
            identities: first.recording.identities,
            isrcs: absorbed(first.recording.isrcs, member_isrcs(ps, ms)),
        },
    }
}

/// A group's evidence: its first track in evidence order, gathering the
/// identities and ISRCs of every track of the group.
pub open spec fn merged_evidence(ps: ProgramsView, k: KeyView) -> TrackEvidenceView {
    merged_of(ps, ordered_members(ps, k))
}

fn merge(programs: &Programs, members: &Vec<(usize, usize)>) -> (r: TrackEvidence)
    requires
        members.len() > 0,
        forall|i: int| 0 <= i < members@.len() ==> valid_slot(programs@, #[trigger] pair_views(members@)[i]),
    ensures
        r@ == merged_of(programs@, pair_views(members@)),
{
    let ghost ps = programs@;
    let ghost mv = pair_views(members@);
    assert(mv[0] == (members@[0].0 as int, members@[0].1 as int));
    let first = slot_of(programs, members[0]);
    let mut ids = copy_identities(first.identities.as_slice());
    let mut isrcs = copy_strings(first.recording.isrcs.as_slice());
    let mut m: usize = 0;
    assert(mv.take(0) =~= Seq::<(int, int)>::empty());
    while m < members.len()
        invariant
            m <= members.len(),
            ps == programs@,
            mv == pair_views(members@),
            forall|i: int| 0 <= i < members@.len() ==> valid_slot(ps, #[trigger] mv[i]),
            id_views(ids@) == absorbed(first@.identities, member_identities(ps, mv.take(m as int))),
            views(isrcs@) == absorbed(first@.recording.isrcs, member_isrcs(ps, mv.take(m as int))),
        decreases members.len() - m,
    {
        assert(mv[m as int] == (members@[m as int].0 as int, members@[m as int].1 as int));
        let t = slot_of(programs, members[m]);
        let ghost base_ids = member_identities(ps, mv.take(m as int));
        let ghost base_isrcs = member_isrcs(ps, mv.take(m as int));
        let ghost tids = id_views(t.identities@);
        let ghost tisrcs = views(t.recording.isrcs@);
        assert(base_ids + tids.take(0) =~= base_ids);
        let mut q: usize = 0;
        while q < t.identities.len()
            invariant
                q <= t.identities.len(),
                tids == id_views(t.identities@),
                id_views(ids@) == absorbed(first@.identities, base_ids + tids.take(q as int)),
            decreases t.identities.len() - q,
        {
            let ghost before = id_views(ids@);
            let ghost xs = base_ids + tids.take(q + 1);
            assert(xs.drop_last() =~= base_ids + tids.take(q as int));
            assert(xs.last() == t.identities@[q as int]@);
            if !holds(&ids, &t.identities[q]) {
                ids.push(t.identities[q].clone());
                assert(id_views(ids@) =~= before.push(t.identities@[q as int]@));
            }
            q = q + 1;
        }
        assert(base_isrcs + tisrcs.take(0) =~= base_isrcs);
        let mut q: usize = 0;
        while q < t.recording.isrcs.len()
            invariant
                q <= t.recording.isrcs.len(),
                tisrcs == views(t.recording.isrcs@),
                views(isrcs@) == absorbed(first@.recording.isrcs, base_isrcs + tisrcs.take(q as int)),
            decreases t.recording.isrcs.len() - q,
        {
            let ghost before = views(isrcs@);
            let ghost xs = base_isrcs + tisrcs.take(q + 1);
            assert(xs.drop_last() =~= base_isrcs + tisrcs.take(q as int));
            assert(xs.last() == t.recording.isrcs@[q as int]@);
            if !holds_string(&isrcs, &t.recording.isrcs[q]) {
                isrcs.push(t.recording.isrcs[q].clone());
                assert(views(isrcs@) =~= before.push(t.recording.isrcs@[q as int]@));
            }
            q = q + 1;
        }
        proof {
            let next = mv.take(m + 1);
            assert(next.drop_last() =~= mv.take(m as int));
            assert(next.last() == mv[m as int]);
            assert(tids.take(tids.len() as int) =~= tids);
            assert(tisrcs.take(tisrcs.len() as int) =~= tisrcs);
        }
        m = m + 1;
    }
    assert(mv.take(members.len() as int) =~= mv);
    TrackEvidence {
        identities: ids,
        disc: first.disc,
        number: first.number,
        title: first.title.clone(),
        artists: copy_artists(&first.artists),
        duration_ms: first.duration_ms,
        recording: RecordingEvidence {
            identities: copy_identities(first.recording.identities.as_slice()),
            isrcs,
        },
    }
}

// ---------------------------------------------------------------------------
// The candidates, in listing order.

pub struct CandidateView {
    pub evidence: TrackEvidenceView,
    pub supporting_programs: nat,
}

impl View for Candidate {
    type V = CandidateView;

    open spec fn view(&self) -> CandidateView {
        CandidateView {
            evidence: self.evidence@,
            supporting_programs: self.supporting_programs as nat,
        }
    }
}

pub open spec fn candidate_views(s: Seq<Candidate>) -> Seq<CandidateView> {
    s.map_values(|c: Candidate| c@)
}

pub open spec fn candidate_of(ps: ProgramsView, k: KeyView) -> CandidateView {
    CandidateView { evidence: merged_evidence(ps, k), supporting_programs: supporting(ps, k) }
}

/// Groups by disc, number, title and duration of their evidence; ties in
/// the order of the grouping keys.
pub open spec fn placed_before(ps: ProgramsView, a: KeyView, b: KeyView) -> bool {
    let ea = merged_evidence(ps, a);
    let eb = merged_evidence(ps, b);
    listing_before(ea, eb) || (same_placing(ea, eb) && key_before(a, b))
}

pub open spec fn placement(ps: ProgramsView) -> spec_fn(KeyView, KeyView) -> bool {
    |a: KeyView, b: KeyView| placed_before(ps, a, b)
}

/// One candidate per group of the programs' tracks, in listing order.
pub open spec fn candidates_of(ps: ProgramsView) -> Seq<CandidateView> {
    ascending_list(group_keys(ps), placement(ps)).map_values(|k: KeyView| candidate_of(ps, k))
}

proof fn lemma_placement(ps: ProgramsView)
    ensures
        strict_total(placement(ps)),
{
    let lt = placement(ps);
    assert forall|x: KeyView| !#[trigger] lt(x, x) by {
        let e = merged_evidence(ps, x);
        lemma_evidence_orders(e, e, e);
        lemma_key_before(x, x, x);
    }
    assert forall|x: KeyView, y: KeyView, z: KeyView|
        #[trigger] lt(x, y) && #[trigger] lt(y, z) implies lt(x, z) by {
        lemma_evidence_orders(merged_evidence(ps, x), merged_evidence(ps, y), merged_evidence(ps, z));
        lemma_key_before(x, y, z);
    }
    assert forall|x: KeyView, y: KeyView| x != y implies #[trigger] lt(x, y) || #[trigger] lt(y, x) by {
        lemma_evidence_orders(merged_evidence(ps, x), merged_evidence(ps, y), merged_evidence(ps, y));
        lemma_evidence_orders(merged_evidence(ps, y), merged_evidence(ps, x), merged_evidence(ps, x));
        lemma_key_before(x, y, y);
    }
}

proof fn lemma_slot_groups(ps: ProgramsView, slots: Seq<Slot>, k: KeyView)
    requires
        slots_sound(ps, slots),
        forall|s: (int, int)|
            valid_slot(ps, s) ==> exists|j: int| 0 <= j < slots.len() && at_view(#[trigger] slots[j]) == s,
    ensures
        slots_with(slots, k, slots.len() as int) == group_members(ps, k),
        Set::new(|g: KeyView| exists|j: int| 0 <= j < slots.len() && (#[trigger] slots[j]).key@ == g)
            == group_keys(ps),
{
    let a = slots_with(slots, k, slots.len() as int);
    let b = group_members(ps, k);
    assert forall|s: (int, int)| a.contains(s) implies b.contains(s) by {
        let x = choose|x: int|
            0 <= x < slots.len() && (#[trigger] slots[x]).key@ == k && at_view(slots[x]) == s;
        assert(valid_slot(ps, at_view(slots[x])));
    }
    assert forall|s: (int, int)| b.contains(s) implies a.contains(s) by {
        let j = choose|j: int| 0 <= j < slots.len() && at_view(#[trigger] slots[j]) == s;
        assert(slots[j].key@ == slot_key(ps, at_view(slots[j])));
    }
    assert(a =~= b);
    let c = Set::new(|g: KeyView| exists|j: int| 0 <= j < slots.len() && (#[trigger] slots[j]).key@ == g);
    let d = group_keys(ps);
    assert forall|g: KeyView| c.contains(g) implies d.contains(g) by {
        let j = choose|j: int| 0 <= j < slots.len() && (#[trigger] slots[j]).key@ == g;
        assert(valid_slot(ps, at_view(slots[j])) && slot_key(ps, at_view(slots[j])) == g);
    }
    assert forall|g: KeyView| d.contains(g) implies c.contains(g) by {
        let s = choose|s: (int, int)| valid_slot(ps, s) && slot_key(ps, s) == g;
        let j = choose|j: int| 0 <= j < slots.len() && at_view(#[trigger] slots[j]) == s;
        assert(slots[j].key@ == g);
    }
    assert(c =~= d);
}

fn placed_less(ea: &TrackEvidence, ka: &GroupKey, eb: &TrackEvidence, kb: &GroupKey) -> (r: bool)
    ensures
        r == (listing_before(ea@, eb@) || (same_placing(ea@, eb@) && key_before(ka@, kb@))),
{
    listing_less(ea, eb) || (same_placing_exec(ea, eb) && key_less(ka, kb))
}

/// Group only by equal strong Recording identity sets, else equal occurrence
/// identity sets. Text alone never merges candidates. Program IDs stay diagnostic
/// upstream; they are not part of the persisted manual association.
pub fn candidates(programs: &Programs) -> (r: Vec<Candidate>)
    ensures
        candidate_views(r@) == candidates_of(programs@),
        forall|i: int, j: int|
            0 <= i < j < r.len() ==> !listing_before(
                (#[trigger] r@[j])@.evidence,
                (#[trigger] r@[i])@.evidence,
            ),
        forall|i: int|
            0 <= i < r.len() ==> 1 <= (#[trigger] r@[i])@.supporting_programs
                <= programs@.programs.len(),
{
    let ghost ps = programs@;
    let ghost lt = placement(ps);
    proof {
        lemma_placement(ps);
        lemma_member_order(ps);
    }
    let slots = keyed_slots(programs);
    let keys = distinct_keys(&slots);
    proof {
        lemma_slot_groups(ps, slots@, KeyView { kind: 0, ids: Seq::empty(), program: 0, position: 0 });
    }
    let mut result: Vec<Candidate> = Vec::new();
    let mut placed: Vec<GroupKey> = Vec::new();
    let mut i: usize = 0;
    assert(key_views(keys@).take(0) =~= Seq::<KeyView>::empty());
    assert(key_views(placed@) =~= Seq::<KeyView>::empty());
    while i < keys.len()
        invariant
            i <= keys.len(),
            ps == programs@,
            lt == placement(ps),
            strict_total(lt),
            strict_total(member_order(ps)),
            slots_sound(ps, slots@),
            forall|s: (int, int)|
                valid_slot(ps, s) ==> exists|j: int| 0 <= j < slots@.len() && at_view(#[trigger] slots@[j]) == s,
            key_views(keys@).no_duplicates(),
            key_views(keys@).to_set() == group_keys(ps),
            result.len() == placed.len(),
            forall|x: int| 0 <= x < result.len() ==> (#[trigger] result@[x])@ == candidate_of(ps, placed@[x]@),
            ascending(key_views(placed@), lt),
            key_views(placed@).to_set() == key_views(keys@).take(i as int).to_set(),
        decreases keys.len() - i,
    {
        let k = &keys[i];
        let ghost kv = k@;
        let (members, count) = members_of(programs, &slots, k);
        proof {
            lemma_slot_groups(ps, slots@, kv);
            let mset = group_members(ps, kv);
            assert(key_views(keys@)[i as int] == kv);
            assert(group_keys(ps).contains(kv));
            let s = choose|s: (int, int)| valid_slot(ps, s) && slot_key(ps, s) == kv;
            assert(mset.contains(s));
            assert(members@.len() > 0) by {
                if members@.len() == 0 {
                    assert(pair_views(members@).to_set().contains(s));
                }
            }
            lemma_is_ascending_list(pair_views(members@), mset, member_order(ps));
            assert forall|x: int| 0 <= x < members@.len() implies valid_slot(ps, #[trigger] pair_views(members@)[x]) by {
                assert(pair_views(members@).to_set().contains(pair_views(members@)[x]));
            }
        }
        let evidence = merge(programs, &members);
        let cand = Candidate { evidence, supporting_programs: count };
        assert(cand@ == candidate_of(ps, kv));
        let ghost sv = key_views(placed@);
        assert(!sv.to_set().contains(kv)) by {
            if sv.to_set().contains(kv) {
                let x = choose|x: int| 0 <= x < i && key_views(keys@)[x] == kv;
                assert(key_views(keys@).take(i as int).to_set().contains(kv));
                let y = choose|y: int| 0 <= y < i && key_views(keys@).take(i as int)[y] == kv;
                assert(key_views(keys@)[y] == key_views(keys@)[i as int]);
            }
        }
        let mut pos: usize = 0;
        while pos < result.len() && placed_less(&result[pos].evidence, &placed[pos], &cand.evidence, k)
            invariant
                pos <= result.len(),
                result.len() == placed.len(),
                ps == programs@,
                lt == placement(ps),
                sv == key_views(placed@),
                cand@ == candidate_of(ps, kv),
                kv == k@,
                forall|x: int| 0 <= x < result.len() ==> (#[trigger] result@[x])@ == candidate_of(ps, placed@[x]@),
                forall|a: int| 0 <= a < pos ==> lt(#[trigger] sv[a], kv),
            decreases result.len() - pos,
        {
            assert(result@[pos as int]@ == candidate_of(ps, placed@[pos as int]@));
            assert(sv[pos as int] == placed@[pos as int]@);
            pos = pos + 1;
        }
        proof {
            if pos < sv.len() {
                assert(result@[pos as int]@ == candidate_of(ps, placed@[pos as int]@));
                assert(sv[pos as int] == placed@[pos as int]@);
                assert(!lt(sv[pos as int], kv));
                assert(sv.to_set().contains(sv[pos as int]));
                assert(sv[pos as int] != kv);
                assert(lt(kv, sv[pos as int]));
            }
            lemma_ascending_insert(sv, pos as int, kv, lt);
        }
        let ghost old_result = result@;
        let ghost old_placed = placed@;
        result.insert(pos, cand);
        placed.insert(pos, copy_key(k));
        proof {
            assert(key_views(placed@) =~= sv.insert(pos as int, kv));
            assert(key_views(keys@).take(i + 1) =~= key_views(keys@).take(i as int).push(kv));
            key_views(keys@).take(i as int).lemma_push_to_set_commute(kv);
            assert forall|x: int| 0 <= x < result.len() implies (#[trigger] result@[x])@ == candidate_of(
                ps,
                placed@[x]@,
            ) by {
                if x < pos {
                    assert(result@[x] == old_result[x] && placed@[x] == old_placed[x]);
                } else if x > pos {
                    assert(result@[x] == old_result[x - 1] && placed@[x] == old_placed[x - 1]);
                }
            }
        }
        i = i + 1;
    }
    proof {
        assert(key_views(keys@).take(keys.len() as int) =~= key_views(keys@));
        lemma_is_ascending_list(key_views(placed@), group_keys(ps), lt);
        assert forall|x: int, y: int| 0 <= x < y < result.len() implies !listing_before(
            (#[trigger] result@[y])@.evidence,
            (#[trigger] result@[x])@.evidence,
        ) by {
            let kx = key_views(placed@)[x];
            let ky = key_views(placed@)[y];
            assert(lt(kx, ky));
            assert(result@[x]@ == candidate_of(ps, placed@[x]@));
            assert(result@[y]@ == candidate_of(ps, placed@[y]@));
            let ex = merged_evidence(ps, kx);
            let ey = merged_evidence(ps, ky);
            lemma_evidence_orders(ex, ey, ex);
            lemma_evidence_orders(ey, ex, ey);
        }
        assert forall|x: int| 0 <= x < result.len() implies 1 <= (#[trigger] result@[x])@.supporting_programs
            <= ps.programs.len() by {
            assert(result@[x]@ == candidate_of(ps, placed@[x]@));
            assert(key_views(placed@)[x] == placed@[x]@);
            assert(key_views(placed@).to_set().contains(key_views(placed@)[x]));
            lemma_supporting_bounds(ps, placed@[x]@);
        }
        assert(candidate_views(result@) =~= candidates_of(ps)) by {
            assert forall|x: int| 0 <= x < result.len() implies candidate_views(result@)[x]
                == candidates_of(ps)[x] by {
                assert(result@[x]@ == candidate_of(ps, placed@[x]@));
                assert(key_views(placed@)[x] == placed@[x]@);
            }
        }
    }
    result
}

// ---------------------------------------------------------------------------
// What groups tracks.

/// Both tracks carry strong Recording identities, the same set; or neither
/// does and both carry occurrence identities, the same set.
pub open spec fn same_identity_sets(t: TrackEvidenceView, u: TrackEvidenceView) -> bool {
    ||| (t.recording.identities.len() > 0 && u.recording.identities.len() > 0
        && t.recording.identities.to_set() == u.recording.identities.to_set())
    ||| (t.recording.identities.len() == 0 && u.recording.identities.len() == 0
        && t.identities.len() > 0 && u.identities.len() > 0 && t.identities.to_set()
        == u.identities.to_set())
}

/// Two tracks of the programs share a candidate exactly when they carry the
/// same set of identities of the same kind: text alone never merges them,
/// and a track with no identity stands alone.
pub proof fn lemma_groups_by_identity_sets(ps: ProgramsView, a: (int, int), b: (int, int))
    requires
        valid_slot(ps, a),
        valid_slot(ps, b),
        a != b,
    ensures
        group_members(ps, slot_key(ps, a)).contains(b) <==> same_identity_sets(
            slot_track(ps, a),
            slot_track(ps, b),
        ),
{
    let t = slot_track(ps, a);
    let u = slot_track(ps, b);
    let lt = identity_order();
    lemma_identity_order();
    crate::order::lemma_ascending_list_exists(t.recording.identities, lt);
    crate::order::lemma_ascending_list_exists(u.recording.identities, lt);
    crate::order::lemma_ascending_list_exists(t.identities, lt);
    crate::order::lemma_ascending_list_exists(u.identities, lt);
    let ka = slot_key(ps, a);
    let kb = slot_key(ps, b);
    if ka == kb {
        if t.recording.identities.len() > 0 {
            assert(ascending_list(t.recording.identities.to_set(), lt) == ascending_list(
                u.recording.identities.to_set(),
                lt,
            ));
        } else if t.identities.len() > 0 {
            assert(ascending_list(t.identities.to_set(), lt) == ascending_list(u.identities.to_set(), lt));
            assert(u.identities.len() > 0) by {
                if u.identities.len() == 0 {
                    assert(kb.kind == 2);
                }
            }
        } else {
            assert(ka.kind == 2 && kb.kind == 2);
            assert(a.0 == b.0 && a.1 == b.1);
        }
    }
    if same_identity_sets(t, u) {
        if t.recording.identities.len() > 0 {
            assert(ka == kb);
        } else {
            assert(ka == kb);
        }
    }
}


// ---------------------------------------------------------------------------
// Confirming a choice.

/// `ids` holds an identity of the namespace of `id` with another value.
pub open spec fn contradicted(ids: Seq<IdentityView>, id: IdentityView) -> bool {
    exists|k: int|
        0 <= k < ids.len() && (#[trigger] ids[k]).provider == id.provider && ids[k].kind == id.kind
            && ids[k].external_id != id.external_id
}

/// Why the first `n` Recording identities of a candidate cannot be confirmed,
/// checked in order: the candidate contradicts itself, or the Recording
/// already carries another identity of the namespace.
pub open spec fn identity_refusal(ids: Seq<IdentityView>, stored: Seq<IdentityView>, n: nat) -> Option<Seq<char>>
    decreases n,
{
    if n == 0 {
        None
    } else {
        match identity_refusal(ids, stored, (n - 1) as nat) {
            Some(m) => Some(m),
            None => if contradicted(ids, ids[n - 1]) {
                Some("Candidate has contradictory Recording identities"@)
            } else if contradicted(stored, ids[n - 1]) {
                Some(
                    "Conflicting existing canonical Recording identity; replacement requires a separate correction path"@,
                )
            } else {
                None
            },
        }
    }
}

/// What confirming a candidate comes to.
#[derive(Debug, PartialEq, Eq)]
pub enum Confirmation {
    /// Record the association.
    Record,
    /// The same association is already recorded.
    AlreadyRecorded,
    Refused(String),
}

fn contradicts(ids: &Vec<ExternalIdentity>, id: &ExternalIdentity) -> (r: bool)
    ensures
        r == contradicted(id_views(ids@), id@),
{
    let ghost v = id_views(ids@);
    let mut k: usize = 0;
    while k < ids.len()
        invariant
            k <= ids.len(),
            v == id_views(ids@),
            forall|j: int|
                0 <= j < k ==> !((#[trigger] v[j]).provider == id@.provider && v[j].kind == id@.kind
                    && v[j].external_id != id@.external_id),
        decreases ids.len() - k,
    {
        assert(v[k as int] == ids@[k as int]@);
        if ids[k].same_namespace(id) && !(ids[k].external_id == id.external_id) {
            return true;
        }
        k = k + 1;
    }
    false
}

/// Whether choice `index` of `offered` candidates can be confirmed for a
/// track. `existing` says whether the track already has an association, and
/// whether it is this one; `stored` holds the Recording's identities. A
/// missing choice, a different existing association, a candidate that
/// contradicts itself and one that contradicts the Recording are refused.
pub fn confirmation(
    offered: usize,
    index: usize,
    existing: Option<bool>,
    ids: &Vec<ExternalIdentity>,
    stored: &Vec<ExternalIdentity>,
) -> (r: Confirmation)
    ensures
        index >= offered ==> (r matches Confirmation::Refused(m) && m@ == "Select a candidate before confirming"@),
        index < offered && existing == Some(true) ==> r == Confirmation::AlreadyRecorded,
        index < offered && existing == Some(false) ==> (r matches Confirmation::Refused(m) && m@
            == "Clear the current manual association first; conflicting canonical identity replacement is not supported"@),
        index < offered && existing is None ==> match identity_refusal(
            id_views(ids@),
            id_views(stored@),
            ids@.len(),
        ) {
            Some(m) => r matches Confirmation::Refused(t) && t@ == m,
            None => r == Confirmation::Record,
        },
{
    if index >= offered {
        return Confirmation::Refused("Select a candidate before confirming".to_owned());
    }
    match existing {
        Some(true) => {
            return Confirmation::AlreadyRecorded;
        },
        Some(false) => {
            return Confirmation::Refused(
                "Clear the current manual association first; conflicting canonical identity replacement is not supported".to_owned(),
            );
        },
        None => {},
    }
    let ghost v = id_views(ids@);
    let ghost sv = id_views(stored@);
    let mut k: usize = 0;
    while k < ids.len()
        invariant
            k <= ids.len(),
            index < offered,
            existing is None,
            v == id_views(ids@),
            sv == id_views(stored@),
            identity_refusal(v, sv, k as nat) is None,
        decreases ids.len() - k,
    {
        assert(v[k as int] == ids@[k as int]@);
        if contradicts(ids, &ids[k]) {
            proof {
                lemma_refusal_prefix(v, sv, (k + 1) as nat, v.len());
            }
            return Confirmation::Refused("Candidate has contradictory Recording identities".to_owned());
        }
        if contradicts(stored, &ids[k]) {
            proof {
                lemma_refusal_prefix(v, sv, (k + 1) as nat, v.len());
            }
            return Confirmation::Refused(
                "Conflicting existing canonical Recording identity; replacement requires a separate correction path".to_owned(),
            );
        }
        k = k + 1;
    }
    Confirmation::Record
}

proof fn lemma_refusal_prefix(ids: Seq<IdentityView>, stored: Seq<IdentityView>, n: nat, m: nat)
    requires
        n <= m,
        identity_refusal(ids, stored, n) is Some,
    ensures
        identity_refusal(ids, stored, m) == identity_refusal(ids, stored, n),
    decreases m - n,
{
    if n < m {
        lemma_refusal_prefix(ids, stored, n, (m - 1) as nat);
    }
}
} // verus!
