//! Local claims are evaluated separately from accepted identities. No provider syntax here.
use vstd::prelude::*;

use crate::domain::{holds_identity, id_views, ExternalIdentity, IdentityView};
use crate::provenance::{observation_views, Observation, ObservationView, Origin, OriginView, Scope, Semantics};
use crate::text::{lemma_lex_order, lex_less, lex_lt, chars_of, views};

verus! {

/// Adapter capability and validation result. Invalid claims block their namespace,
/// rather than disappearing from conflict detection. Unsupported claims remain raw.
#[derive(Clone, Copy, Debug, PartialEq, Eq, Structural)]
pub enum Validation {
    Unsupported,
    Invalid,
    Valid,
}

#[derive(Clone, Copy, Debug, PartialEq, Eq, Structural)]
pub enum Decision {
    Accepted,
    Invalid,
    ConflictingObservations,
    ConflictingIndependentIdentity,
}

#[derive(Debug)]
pub struct Assessment {
    pub provider: String,
    pub kind: String,
    pub values: Vec<String>,
    pub decision: Decision,
}

pub struct AssessmentView {
    pub provider: Seq<char>,
    pub kind: Seq<char>,
    pub values: Seq<Seq<char>>,
    pub decision: Decision,
}

impl View for Assessment {
    type V = AssessmentView;

    open spec fn view(&self) -> AssessmentView {
        AssessmentView {
            provider: self.provider@,
            kind: self.kind@,
            values: views(self.values@),
            decision: self.decision,
        }
    }
}

pub open spec fn assessment_views(s: Seq<Assessment>) -> Seq<AssessmentView> {
    s.map_values(|a: Assessment| a@)
}

/// An embedded Album identity or embedded Recording identity.
pub open spec fn promotable(o: ObservationView) -> bool {
    &&& o.origin is EmbeddedTag
    &&& ((o.scope == Scope::Album && o.semantics == Semantics::AlbumIdentity) || (o.scope
        == Scope::Recording && o.semantics == Semantics::RecordingIdentity))
}

/// Observation `i` is a claim: promotable, and supported by the validator.
pub open spec fn claim(obs: Seq<ObservationView>, vals: Seq<Validation>, i: int) -> bool {
    promotable(obs[i]) && vals[i] != Validation::Unsupported
}

pub open spec fn in_namespace(o: ObservationView, provider: Seq<char>, kind: Seq<char>) -> bool {
    o.identity.provider == provider && o.identity.kind == kind
}

/// Some claim among the first `n` observations lies in the namespace.
pub open spec fn claimed_upto(
    obs: Seq<ObservationView>,
    vals: Seq<Validation>,
    n: int,
    provider: Seq<char>,
    kind: Seq<char>,
) -> bool {
    exists|i: int|
        0 <= i < n && claim(obs, vals, i) && in_namespace(#[trigger] obs[i], provider, kind)
}

/// The identifiers claimed in the namespace among the first `n` observations.
pub open spec fn values_upto(
    obs: Seq<ObservationView>,
    vals: Seq<Validation>,
    n: int,
    provider: Seq<char>,
    kind: Seq<char>,
) -> Set<Seq<char>> {
    Set::new(
        |v: Seq<char>|
            exists|i: int|
                0 <= i < n && claim(obs, vals, i) && in_namespace(#[trigger] obs[i], provider, kind)
                    && obs[i].identity.external_id == v,
    )
}

/// Some claim in the namespace among the first `n` observations is invalid.
pub open spec fn invalid_upto(
    obs: Seq<ObservationView>,
    vals: Seq<Validation>,
    n: int,
    provider: Seq<char>,
    kind: Seq<char>,
) -> bool {
    exists|i: int|
        0 <= i < n && claim(obs, vals, i) && in_namespace(#[trigger] obs[i], provider, kind)
            && vals[i] == Validation::Invalid
}

/// Some claim lies in the namespace.
pub open spec fn claimed(obs: Seq<ObservationView>, vals: Seq<Validation>, provider: Seq<char>, kind: Seq<char>) -> bool {
    claimed_upto(obs, vals, obs.len() as int, provider, kind)
}

/// The identifiers claimed in the namespace.
pub open spec fn claimed_values(
    obs: Seq<ObservationView>,
    vals: Seq<Validation>,
    provider: Seq<char>,
    kind: Seq<char>,
) -> Set<Seq<char>> {
    values_upto(obs, vals, obs.len() as int, provider, kind)
}

/// Some claim in the namespace was found invalid.
pub open spec fn invalid_claim(
    obs: Seq<ObservationView>,
    vals: Seq<Validation>,
    provider: Seq<char>,
    kind: Seq<char>,
) -> bool {
    invalid_upto(obs, vals, obs.len() as int, provider, kind)
}

/// One claimed value is accepted unless a claim is invalid or an independent
/// identity of the namespace says otherwise.
pub open spec fn decision_for(
    values: Seq<Seq<char>>,
    invalid: bool,
    independent: Seq<IdentityView>,
    provider: Seq<char>,
    kind: Seq<char>,
) -> Decision {
    if values.len() != 1 {
        Decision::ConflictingObservations
    } else if invalid {
        Decision::Invalid
    } else if exists|k: int|
        0 <= k < independent.len() && (#[trigger] independent[k]).provider == provider
            && independent[k].kind == kind && independent[k].external_id != values[0] {
        Decision::ConflictingIndependentIdentity
    } else {
        Decision::Accepted
    }
}

pub open spec fn sorted_values(s: Seq<Seq<char>>) -> bool {
    forall|a: int, b: int| 0 <= a < b < s.len() ==> lex_lt(#[trigger] s[a], #[trigger] s[b])
}

pub open spec fn namespace_lt(a: AssessmentView, b: AssessmentView) -> bool {
    lex_lt(a.provider, b.provider) || (a.provider == b.provider && lex_lt(a.kind, b.kind))
}

/// One assessment per claimed namespace, in namespace order, each with its
/// claimed values in order and its decision.
pub open spec fn assesses(
    r: Seq<AssessmentView>,
    obs: Seq<ObservationView>,
    vals: Seq<Validation>,
    independent: Seq<IdentityView>,
) -> bool {
    &&& forall|a: int, b: int| 0 <= a < b < r.len() ==> namespace_lt(#[trigger] r[a], #[trigger] r[b])
    &&& forall|i: int|
        0 <= i < obs.len() && claim(obs, vals, i) ==> exists|j: int|
            0 <= j < r.len() && in_namespace(#[trigger] obs[i], (#[trigger] r[j]).provider, r[j].kind)
    &&& forall|j: int|
        0 <= j < r.len() ==> {
            let a = #[trigger] r[j];
            &&& claimed(obs, vals, a.provider, a.kind)
            &&& sorted_values(a.values)
            &&& a.values.to_set() == claimed_values(obs, vals, a.provider, a.kind)
            &&& a.decision == decision_for(
                a.values,
                invalid_claim(obs, vals, a.provider, a.kind),
                independent,
                a.provider,
                a.kind,
            )
        }
}

// ---------------------------------------------------------------------------
// Accumulating claims by namespace.

struct Group {
    provider: String,
    kind: String,
    values: Vec<String>,
    invalid: bool,
}

pub struct GroupView {
    pub provider: Seq<char>,
    pub kind: Seq<char>,
    pub values: Seq<Seq<char>>,
    pub invalid: bool,
}

spec fn group_view(g: Group) -> GroupView {
    GroupView { provider: g.provider@, kind: g.kind@, values: views(g.values@), invalid: g.invalid }
}

spec fn group_views(s: Seq<Group>) -> Seq<GroupView> {
    s.map_values(|g: Group| group_view(g))
}

pub open spec fn group_lt(a: GroupView, b: GroupView) -> bool {
    lex_lt(a.provider, b.provider) || (a.provider == b.provider && lex_lt(a.kind, b.kind))
}

/// The groups after the first `n` observations: in namespace order, one per
/// claimed namespace, with their sorted values and invalid flags.
pub open spec fn groups_hold(gs: Seq<GroupView>, obs: Seq<ObservationView>, vals: Seq<Validation>, n: int) -> bool {
    &&& forall|a: int, b: int| 0 <= a < b < gs.len() ==> group_lt(#[trigger] gs[a], #[trigger] gs[b])
    &&& forall|i: int|
        0 <= i < n && claim(obs, vals, i) ==> exists|j: int|
            0 <= j < gs.len() && in_namespace(#[trigger] obs[i], (#[trigger] gs[j]).provider, gs[j].kind)
    &&& forall|j: int|
        0 <= j < gs.len() ==> {
            let g = #[trigger] gs[j];
            &&& claimed_upto(obs, vals, n, g.provider, g.kind)
            &&& sorted_values(g.values)
            &&& g.values.to_set() == values_upto(obs, vals, n, g.provider, g.kind)
            &&& g.invalid == invalid_upto(obs, vals, n, g.provider, g.kind)
        }
}

proof fn lemma_insert_sorted(s: Seq<Seq<char>>, pos: int, x: Seq<char>)
    requires
        0 <= pos <= s.len(),
        sorted_values(s),
        forall|a: int| 0 <= a < pos ==> lex_lt(#[trigger] s[a], x),
        pos < s.len() ==> lex_lt(x, s[pos]),
    ensures
        sorted_values(s.insert(pos, x)),
{
    let t = s.insert(pos, x);
    assert forall|a: int, b: int| 0 <= a < b < t.len() implies lex_lt(#[trigger] t[a], #[trigger] t[b]) by {
        if b < pos {
        } else if b == pos {
        } else if a < pos {
            lemma_lex_order(s[a], x, s[pos]);
            lemma_lex_order(s[a], s[pos], s[b - 1]);
            if b - 1 > pos {
                assert(lex_lt(s[pos], s[b - 1]));
            }
        } else if a == pos {
            if b - 1 > pos {
                lemma_lex_order(x, s[pos], s[b - 1]);
            }
        } else {
        }
    }
}

proof fn lemma_group_order(a: GroupView, b: GroupView, c: GroupView)
    ensures
        !group_lt(a, a),
        group_lt(a, b) && group_lt(b, c) ==> group_lt(a, c),
        (a.provider, a.kind) != (b.provider, b.kind) ==> group_lt(a, b) || group_lt(b, a),
{
    lemma_lex_order(a.provider, b.provider, c.provider);
    lemma_lex_order(a.kind, b.kind, c.kind);
    lemma_lex_order(b.provider, a.provider, c.provider);
    lemma_lex_order(b.kind, a.kind, c.kind);
}

proof fn lemma_insert_group(s: Seq<GroupView>, pos: int, x: GroupView)
    requires
        0 <= pos <= s.len(),
        forall|a: int, b: int| 0 <= a < b < s.len() ==> group_lt(#[trigger] s[a], #[trigger] s[b]),
        forall|a: int| 0 <= a < pos ==> group_lt(#[trigger] s[a], x),
        pos < s.len() ==> group_lt(x, s[pos]),
    ensures
        forall|a: int, b: int|
            0 <= a < b < s.insert(pos, x).len() ==> group_lt(
                #[trigger] s.insert(pos, x)[a],
                #[trigger] s.insert(pos, x)[b],
            ),
{
    let t = s.insert(pos, x);
    assert forall|a: int, b: int| 0 <= a < b < t.len() implies group_lt(#[trigger] t[a], #[trigger] t[b]) by {
        if b < pos {
        } else if b == pos {
        } else if a < pos {
            lemma_group_order(s[a], x, s[pos]);
            lemma_group_order(s[a], s[pos], s[b - 1]);
            if b - 1 > pos {
                assert(group_lt(s[pos], s[b - 1]));
            }
        } else if a == pos {
            if b - 1 > pos {
                lemma_group_order(x, s[pos], s[b - 1]);
            }
        } else {
        }
    }
}

/// Insert a value into a strictly sorted list, unless it is there.
pub(crate) fn insert_value(values: &mut Vec<String>, v: &String)
    requires
        sorted_values(views(old(values)@)),
    ensures
        sorted_values(views(final(values)@)),
        views(final(values)@).to_set() == views(old(values)@).to_set().insert(v@),
{
    let ghost s = views(values@);
    let vc = chars_of(v.as_str());
    let mut pos: usize = 0;
    while pos < values.len() && lex_less(&chars_of(values[pos].as_str()), &vc)
        invariant
            pos <= values.len(),
            s == views(values@),
            vc@ == v@,
            forall|a: int| 0 <= a < pos ==> lex_lt(#[trigger] s[a], v@),
        decreases values.len() - pos,
    {
        pos = pos + 1;
    }
    if pos < values.len() && values[pos] == *v {
        proof {
            assert(s[pos as int] == v@);
            assert(s.to_set().insert(v@) =~= s.to_set());
        }
        return;
    }
    proof {
        if pos < s.len() {
            lemma_lex_order(s[pos as int], v@, v@);
            assert(!lex_lt(s[pos as int], v@));
            assert(s[pos as int] != v@);
            lemma_lex_order(v@, s[pos as int], v@);
        }
        lemma_insert_sorted(s, pos as int, v@);
    }
    values.insert(pos, v.clone());
    proof {
        assert(views(values@) =~= s.insert(pos as int, v@));
        assert forall|x: Seq<char>| #[trigger] views(values@).to_set().contains(x) <==> s.to_set().insert(
            v@,
        ).contains(x) by {
            let t = s.insert(pos as int, v@);
            if t.to_set().contains(x) {
                let k = choose|k: int| 0 <= k < t.len() && t[k] == x;
                if k < pos {
                    assert(s[k] == x);
                } else if k > pos {
                    assert(s[k - 1] == x);
                }
            }
            if s.to_set().contains(x) {
                let k = choose|k: int| 0 <= k < s.len() && s[k] == x;
                if k < pos {
                    assert(t[k] == x);
                } else {
                    assert(t[k + 1] == x);
                }
            }
            if x == v@ {
                assert(t[pos as int] == x);
            }
        }
        assert(views(values@).to_set() =~= s.to_set().insert(v@));
    }
}

proof fn lemma_claim_step(
    obs: Seq<ObservationView>,
    vals: Seq<Validation>,
    n: int,
    provider: Seq<char>,
    kind: Seq<char>,
)
    requires
        0 <= n < obs.len(),
        vals.len() == obs.len(),
    ensures
        claimed_upto(obs, vals, n + 1, provider, kind) == (claimed_upto(obs, vals, n, provider, kind)
            || (claim(obs, vals, n) && in_namespace(obs[n], provider, kind))),
        invalid_upto(obs, vals, n + 1, provider, kind) == (invalid_upto(obs, vals, n, provider, kind)
            || (claim(obs, vals, n) && in_namespace(obs[n], provider, kind) && vals[n]
            == Validation::Invalid)),
        values_upto(obs, vals, n + 1, provider, kind) == (if claim(obs, vals, n) && in_namespace(
            obs[n],
            provider,
            kind,
        ) {
            values_upto(obs, vals, n, provider, kind).insert(obs[n].identity.external_id)
        } else {
            values_upto(obs, vals, n, provider, kind)
        }),
{
    let before = values_upto(obs, vals, n, provider, kind);
    let after = values_upto(obs, vals, n + 1, provider, kind);
    let expected = if claim(obs, vals, n) && in_namespace(obs[n], provider, kind) {
        before.insert(obs[n].identity.external_id)
    } else {
        before
    };
    assert forall|v: Seq<char>| #[trigger] after.contains(v) <==> expected.contains(v) by {
        if after.contains(v) {
            let i = choose|i: int|
                0 <= i < n + 1 && claim(obs, vals, i) && in_namespace(#[trigger] obs[i], provider, kind)
                    && obs[i].identity.external_id == v;
            if i < n {
                assert(before.contains(v));
            }
        }
        if before.contains(v) {
            let i = choose|i: int|
                0 <= i < n && claim(obs, vals, i) && in_namespace(#[trigger] obs[i], provider, kind)
                    && obs[i].identity.external_id == v;
            assert(after.contains(v));
        }
        if claim(obs, vals, n) && in_namespace(obs[n], provider, kind) && v
            == obs[n].identity.external_id {
            assert(after.contains(v));
        }
    }
    assert(after =~= expected);
    if claimed_upto(obs, vals, n + 1, provider, kind) {
        let i = choose|i: int|
            0 <= i < n + 1 && claim(obs, vals, i) && in_namespace(#[trigger] obs[i], provider, kind);
        if i < n {
            assert(claimed_upto(obs, vals, n, provider, kind));
        }
    }
    if invalid_upto(obs, vals, n + 1, provider, kind) {
        let i = choose|i: int|
            0 <= i < n + 1 && claim(obs, vals, i) && in_namespace(#[trigger] obs[i], provider, kind)
                && vals[i] == Validation::Invalid;
        if i < n {
            assert(invalid_upto(obs, vals, n, provider, kind));
        }
    }
}

fn is_promotable(o: &Observation) -> (r: bool)
    ensures
        r == promotable(o@),
{
    let embedded = match &o.origin {
        Origin::EmbeddedTag { .. } => true,
        _ => false,
    };
    embedded && ((o.scope == Scope::Album && o.semantics == Semantics::AlbumIdentity) || (o.scope
        == Scope::Recording && o.semantics == Semantics::RecordingIdentity))
}

fn group_less(g: &Group, provider: &Vec<char>, kind: &Vec<char>) -> (r: bool)
    ensures
        r == (lex_lt(g.provider@, provider@) || (g.provider@ == provider@ && lex_lt(g.kind@, kind@))),
{
    let gp = chars_of(g.provider.as_str());
    if lex_less(&gp, provider) {
        return true;
    }
    crate::text::chars_eq(&gp, provider) && lex_less(&chars_of(g.kind.as_str()), kind)
}

/// Record claim `i` in the groups.
fn add_claim(
    groups: &mut Vec<Group>,
    observations: &[Observation],
    validations: &[Validation],
    i: usize,
)
    requires
        i < observations@.len(),
        validations@.len() == observations@.len(),
        claim(observation_views(observations@), validations@, i as int),
        groups_hold(group_views(old(groups)@), observation_views(observations@), validations@, i as int),
    ensures
        groups_hold(
            group_views(final(groups)@),
            observation_views(observations@),
            validations@,
            i + 1,
        ),
{
    let ghost ov = observation_views(observations@);
    let ghost vals = validations@;
    let ghost gs = group_views(groups@);
    let o = &observations[i];
    assert(ov[i as int] == o@);
    let provider = chars_of(o.identity.provider.as_str());
    let kind = chars_of(o.identity.kind.as_str());
    let ghost nv = GroupView { provider: o@.identity.provider, kind: o@.identity.kind, values: seq![o@.identity.external_id], invalid: vals[i as int] == Validation::Invalid };
    let mut pos: usize = 0;
    let mut done = false;
    while !done && pos < groups.len()
        invariant
            pos <= groups.len(),
            gs == group_views(groups@),
            provider@ == nv.provider,
            kind@ == nv.kind,
            forall|a: int| 0 <= a < pos ==> group_lt(#[trigger] gs[a], nv),
            done ==> pos < groups.len() && !group_lt(gs[pos as int], nv),
        decreases groups.len() - pos + (if done {
            0int
        } else {
            1int
        }),
    {
        assert(gs[pos as int] == group_view(groups@[pos as int]));
        if group_less(&groups[pos], &provider, &kind) {
            pos = pos + 1;
        } else {
            done = true;
        }
    }
    let found = pos < groups.len() && groups[pos].provider == o.identity.provider
        && groups[pos].kind == o.identity.kind;
    proof {
        assert forall|j: int| 0 <= j < gs.len() && #[trigger] gs[j].provider == nv.provider
            && gs[j].kind == nv.kind implies found && j == pos by {
            lemma_group_order(gs[j], nv, nv);
            if j < pos {
                assert(group_lt(gs[j], nv));
            } else if j > pos {
                assert(gs[pos as int] == group_view(groups@[pos as int]));
                lemma_group_order(gs[pos as int], gs[j], nv);
                lemma_group_order(gs[pos as int], nv, nv);
            }
        }
    }
    if found {
        let mut g = groups.remove(pos);
        let ghost old_g = group_view(g);
        assert(old_g == gs[pos as int]);
        insert_value(&mut g.values, &o.identity.external_id);
        if validations[i] == Validation::Invalid {
            g.invalid = true;
        }
        groups.insert(pos, g);
        proof {
            let ngs = group_views(groups@);
            assert(ngs =~= gs.update(pos as int, group_view(g)));
            assert forall|j: int| 0 <= j < ngs.len() implies {
                let h = #[trigger] ngs[j];
                &&& claimed_upto(ov, vals, i + 1, h.provider, h.kind)
                &&& sorted_values(h.values)
                &&& h.values.to_set() == values_upto(ov, vals, i + 1, h.provider, h.kind)
                &&& h.invalid == invalid_upto(ov, vals, i + 1, h.provider, h.kind)
            } by {
                lemma_claim_step(ov, vals, i as int, ngs[j].provider, ngs[j].kind);
                if j != pos {
                    assert(ngs[j] == gs[j]);
                }
            }
            assert forall|k: int|
                0 <= k < i + 1 && claim(ov, vals, k) implies exists|j: int|
                0 <= j < ngs.len() && in_namespace(#[trigger] ov[k], (#[trigger] ngs[j]).provider, ngs[j].kind) by {
                if k < i {
                    let j = choose|j: int|
                        0 <= j < gs.len() && in_namespace(#[trigger] ov[k], (#[trigger] gs[j]).provider, gs[j].kind);
                    assert(ngs[j].provider == gs[j].provider && ngs[j].kind == gs[j].kind);
                } else {
                    assert(in_namespace(ov[k], ngs[pos as int].provider, ngs[pos as int].kind));
                }
            }
            assert forall|a: int, b: int| 0 <= a < b < ngs.len() implies group_lt(#[trigger] ngs[a], #[trigger] ngs[b]) by {
                assert(group_lt(gs[a], gs[b]));
            }
        }
    } else {
        let g = Group {
            provider: o.identity.provider.clone(),
            kind: o.identity.kind.clone(),
            values: vec![o.identity.external_id.clone()],
            invalid: validations[i] == Validation::Invalid,
        };
        proof {
            assert(group_view(g).values =~= nv.values);
            if pos < gs.len() {
                assert(gs[pos as int] == group_view(groups@[pos as int]));
                lemma_group_order(gs[pos as int], nv, nv);
            }
            lemma_insert_group(gs, pos as int, group_view(g));
        }
        groups.insert(pos, g);
        proof {
            let ngs = group_views(groups@);
            assert(ngs =~= gs.insert(pos as int, group_view(g)));
            assert forall|j: int| 0 <= j < ngs.len() implies {
                let h = #[trigger] ngs[j];
                &&& claimed_upto(ov, vals, i + 1, h.provider, h.kind)
                &&& sorted_values(h.values)
                &&& h.values.to_set() == values_upto(ov, vals, i + 1, h.provider, h.kind)
                &&& h.invalid == invalid_upto(ov, vals, i + 1, h.provider, h.kind)
            } by {
                lemma_claim_step(ov, vals, i as int, ngs[j].provider, ngs[j].kind);
                if j < pos {
                    assert(ngs[j] == gs[j]);
                } else if j > pos {
                    assert(ngs[j] == gs[j - 1]);
                } else {
                    assert(!claimed_upto(ov, vals, i as int, nv.provider, nv.kind));
                    assert(values_upto(ov, vals, i as int, nv.provider, nv.kind) =~= Set::empty()) by {
                        assert forall|v: Seq<char>| !values_upto(ov, vals, i as int, nv.provider, nv.kind).contains(v) by {
                            if values_upto(ov, vals, i as int, nv.provider, nv.kind).contains(v) {
                                let k = choose|k: int|
                                    0 <= k < i && claim(ov, vals, k) && in_namespace(#[trigger] ov[k], nv.provider, nv.kind)
                                        && ov[k].identity.external_id == v;
                                assert(claimed_upto(ov, vals, i as int, nv.provider, nv.kind));
                            }
                        }
                    }
                    assert(!invalid_upto(ov, vals, i as int, nv.provider, nv.kind));
                    assert forall|y: Seq<char>| #[trigger] nv.values.to_set().contains(y) <==> y
                        == o@.identity.external_id by {
                        if nv.values.to_set().contains(y) {
                            let q = choose|q: int| 0 <= q < nv.values.len() && nv.values[q] == y;
                        }
                        if y == o@.identity.external_id {
                            assert(nv.values[0] == y);
                        }
                    }
                    assert(nv.values.to_set() =~= Set::empty().insert(o@.identity.external_id));
                }
            }
            assert forall|k: int|
                0 <= k < i + 1 && claim(ov, vals, k) implies exists|j: int|
                0 <= j < ngs.len() && in_namespace(#[trigger] ov[k], (#[trigger] ngs[j]).provider, ngs[j].kind) by {
                if k < i {
                    let j = choose|j: int|
                        0 <= j < gs.len() && in_namespace(#[trigger] ov[k], (#[trigger] gs[j]).provider, gs[j].kind);
                    if j < pos {
                        assert(ngs[j] == gs[j]);
                    } else {
                        assert(ngs[j + 1] == gs[j]);
                    }
                } else {
                    assert(in_namespace(ov[k], ngs[pos as int].provider, ngs[pos as int].kind));
                }
            }
        }
    }
}

/// The groups hold after an observation that is no claim.
proof fn lemma_skip(gs: Seq<GroupView>, obs: Seq<ObservationView>, vals: Seq<Validation>, n: int)
    requires
        0 <= n < obs.len(),
        vals.len() == obs.len(),
        !claim(obs, vals, n),
        groups_hold(gs, obs, vals, n),
    ensures
        groups_hold(gs, obs, vals, n + 1),
{
    assert forall|j: int| 0 <= j < gs.len() implies {
        let g = #[trigger] gs[j];
        &&& claimed_upto(obs, vals, n + 1, g.provider, g.kind)
        &&& sorted_values(g.values)
        &&& g.values.to_set() == values_upto(obs, vals, n + 1, g.provider, g.kind)
        &&& g.invalid == invalid_upto(obs, vals, n + 1, g.provider, g.kind)
    } by {
        lemma_claim_step(obs, vals, n, gs[j].provider, gs[j].kind);
    }
}

fn independent_conflict(independent: &[ExternalIdentity], provider: &String, kind: &String, value: &String) -> (r: bool)
    ensures
        r == exists|k: int|
            0 <= k < independent@.len() && (#[trigger] id_views(independent@)[k]).provider == provider@
                && id_views(independent@)[k].kind == kind@ && id_views(independent@)[k].external_id
                != value@,
{
    let ghost iv = id_views(independent@);
    let mut k: usize = 0;
    while k < independent.len()
        invariant
            k <= independent.len(),
            iv == id_views(independent@),
            forall|x: int|
                0 <= x < k ==> !((#[trigger] iv[x]).provider == provider@ && iv[x].kind == kind@
                    && iv[x].external_id != value@),
        decreases independent.len() - k,
    {
        let i = &independent[k];
        assert(iv[k as int] == i@);
        if i.provider == *provider && i.kind == *kind && !(i.external_id == *value) {
            return true;
        }
        k = k + 1;
    }
    false
}

/// Assess the claims of the observations, given the validator's verdict on each.
pub fn assess_validated(
    observations: &[Observation],
    independent: &[ExternalIdentity],
    validations: &[Validation],
) -> (r: Vec<Assessment>)
    requires
        validations@.len() == observations@.len(),
    ensures
        assesses(
            assessment_views(r@),
            observation_views(observations@),
            validations@,
            id_views(independent@),
        ),
{
    let ghost ov = observation_views(observations@);
    let ghost vals = validations@;
    let mut groups: Vec<Group> = Vec::new();
    let mut i: usize = 0;
    while i < observations.len()
        invariant
            i <= observations.len(),
            validations@.len() == observations@.len(),
            ov == observation_views(observations@),
            vals == validations@,
            groups_hold(group_views(groups@), ov, vals, i as int),
        decreases observations.len() - i,
    {
        assert(ov[i as int] == observations@[i as int]@);
        if is_promotable(&observations[i]) && validations[i] != Validation::Unsupported {
            add_claim(&mut groups, observations, validations, i);
        } else {
            proof {
                lemma_skip(group_views(groups@), ov, vals, i as int);
            }
        }
        i = i + 1;
    }
    let ghost gs = group_views(groups@);
    let mut out: Vec<Assessment> = Vec::new();
    let mut j: usize = 0;
    while j < groups.len()
        invariant
            j <= groups.len(),
            gs == group_views(groups@),
            out@.len() == j,
            forall|x: int|
                0 <= x < j ==> {
                    let a = #[trigger] assessment_views(out@)[x];
                    &&& a.provider == gs[x].provider
                    &&& a.kind == gs[x].kind
                    &&& a.values == gs[x].values
                    &&& a.decision == decision_for(
                        a.values,
                        gs[x].invalid,
                        id_views(independent@),
                        a.provider,
                        a.kind,
                    )
                },
        decreases groups.len() - j,
    {
        let g = &groups[j];
        assert(gs[j as int] == group_view(*g));
        let values = crate::domain::copy_strings(g.values.as_slice());
        let decision = if values.len() != 1 {
            Decision::ConflictingObservations
        } else if g.invalid {
            Decision::Invalid
        } else if independent_conflict(independent, &g.provider, &g.kind, &values[0]) {
            Decision::ConflictingIndependentIdentity
        } else {
            Decision::Accepted
        };
        proof {
            if values@.len() > 0 {
                assert(views(values@)[0] == values@[0]@);
            }
        }
        let ghost before = assessment_views(out@);
        out.push(
            Assessment { provider: g.provider.clone(), kind: g.kind.clone(), values, decision },
        );
        assert(assessment_views(out@) =~= before.push(assessment_views(out@)[j as int]));
        j = j + 1;
    }
    proof {
        let av = assessment_views(out@);
        assert forall|a: int, b: int| 0 <= a < b < av.len() implies namespace_lt(#[trigger] av[a], #[trigger] av[b]) by {
            assert(group_lt(gs[a], gs[b]));
        }
        assert forall|k: int|
            0 <= k < ov.len() && claim(ov, vals, k) implies exists|j: int|
            0 <= j < av.len() && in_namespace(#[trigger] ov[k], (#[trigger] av[j]).provider, av[j].kind) by {
            let j = choose|j: int|
                0 <= j < gs.len() && in_namespace(#[trigger] ov[k], (#[trigger] gs[j]).provider, gs[j].kind);
            assert(av[j].provider == gs[j].provider);
        }
        assert forall|x: int| 0 <= x < av.len() implies {
            let a = #[trigger] av[x];
            &&& claimed(ov, vals, a.provider, a.kind)
            &&& sorted_values(a.values)
            &&& a.values.to_set() == claimed_values(ov, vals, a.provider, a.kind)
            &&& a.decision == decision_for(
                a.values,
                invalid_claim(ov, vals, a.provider, a.kind),
                id_views(independent@),
                a.provider,
                a.kind,
            )
        } by {
            assert(av[x].provider == gs[x].provider);
        }
    }
    out
}

/// Independent canonical associations constrain acceptance; managed ones are
/// reevaluated from scratch. Completeness, Artist credits and editions are
/// irrelevant. The validator is asked about every embedded Album or Recording
/// identity; whatever it answers, the assessments follow from its answers.
pub fn assess<F: Fn(&Observation) -> Validation>(
    observations: &[Observation],
    independent: &[ExternalIdentity],
    validator: F,
) -> (r: Vec<Assessment>)
    requires
        forall|o: &Observation| #[trigger] validator.requires((o,)),
    ensures
        exists|vals: Seq<Validation>|
            {
                &&& vals.len() == observations@.len()
                &&& forall|i: int|
                    0 <= i < vals.len() && promotable(#[trigger] observations@[i]@) ==> validator.ensures(
                        (&observations@[i],),
                        vals[i],
                    )
                &&& assesses(
                    assessment_views(r@),
                    observation_views(observations@),
                    vals,
                    id_views(independent@),
                )
            },
{
    let mut validations: Vec<Validation> = Vec::new();
    let mut i: usize = 0;
    while i < observations.len()
        invariant
            i <= observations.len(),
            validations@.len() == i,
            forall|o: &Observation| #[trigger] validator.requires((o,)),
            forall|k: int|
                0 <= k < i && promotable(#[trigger] observations@[k]@) ==> validator.ensures(
                    (&observations@[k],),
                    validations@[k],
                ),
        decreases observations.len() - i,
    {
        let v = if is_promotable(&observations[i]) {
            validator(&observations[i])
        } else {
            Validation::Unsupported
        };
        validations.push(v);
        i = i + 1;
    }
    let r = assess_validated(observations, independent, validations.as_slice());
    assert(validations@.len() == observations@.len());
    r
}

// ---------------------------------------------------------------------------
// What assessments promise.

/// An accepted assessment stands for the single value that the embedded claims
/// of its namespace agree on: no claim of the namespace was found invalid, and
/// every independent identity of the namespace holds that same value.
pub proof fn lemma_accepted_is_agreed(
    r: Seq<AssessmentView>,
    obs: Seq<ObservationView>,
    vals: Seq<Validation>,
    independent: Seq<IdentityView>,
    j: int,
)
    requires
        assesses(r, obs, vals, independent),
        0 <= j < r.len(),
        r[j].decision == Decision::Accepted,
    ensures
        r[j].values.len() == 1,
        claimed_values(obs, vals, r[j].provider, r[j].kind) == set![r[j].values[0]],
        !invalid_claim(obs, vals, r[j].provider, r[j].kind),
        forall|k: int|
            0 <= k < independent.len() && (#[trigger] independent[k]).provider == r[j].provider
                && independent[k].kind == r[j].kind ==> independent[k].external_id
                == r[j].values[0],
{
    let a = r[j];
    assert(a.values.to_set() =~= set![a.values[0]]);
}

/// An invalid claim blocks its namespace: the namespace is assessed, and its
/// assessment is not an acceptance.
pub proof fn lemma_invalid_claim_blocks(
    r: Seq<AssessmentView>,
    obs: Seq<ObservationView>,
    vals: Seq<Validation>,
    independent: Seq<IdentityView>,
    i: int,
)
    requires
        assesses(r, obs, vals, independent),
        0 <= i < obs.len(),
        promotable(obs[i]),
        vals[i] == Validation::Invalid,
    ensures
        exists|j: int|
            0 <= j < r.len() && in_namespace(obs[i], (#[trigger] r[j]).provider, r[j].kind)
                && r[j].decision != Decision::Accepted,
{
    assert(claim(obs, vals, i));
    let j = choose|j: int|
        0 <= j < r.len() && in_namespace(#[trigger] obs[i], (#[trigger] r[j]).provider, r[j].kind);
    assert(invalid_claim(obs, vals, r[j].provider, r[j].kind));
}

/// Only supported embedded claims are assessed, each namespace once: an
/// observation that is not embedded, or that the validator does not support,
/// opens no namespace of its own.
pub proof fn lemma_only_claims_assessed(
    r: Seq<AssessmentView>,
    obs: Seq<ObservationView>,
    vals: Seq<Validation>,
    independent: Seq<IdentityView>,
    j: int,
    k: int,
)
    requires
        assesses(r, obs, vals, independent),
        0 <= j < r.len(),
        0 <= k < r.len(),
        j != k,
    ensures
        exists|i: int|
            0 <= i < obs.len() && claim(obs, vals, i) && in_namespace(
                #[trigger] obs[i],
                r[j].provider,
                r[j].kind,
            ),
        !(r[j].provider == r[k].provider && r[j].kind == r[k].kind),
{
    assert(claimed(obs, vals, r[j].provider, r[j].kind));
    lemma_lex_order(r[j].provider, r[k].provider, r[k].provider);
    lemma_lex_order(r[j].kind, r[k].kind, r[k].kind);
    if j < k {
        assert(namespace_lt(r[j], r[k]));
    } else {
        assert(namespace_lt(r[k], r[j]));
    }
}

/// The assessments group the claims by namespace: a namespace has an
/// assessment exactly when some claim lies in it, and then exactly one; the
/// assessments come in namespace order, and each lists its namespace's claimed
/// values once each, in order.
pub proof fn lemma_grouped_by_namespace(
    r: Seq<AssessmentView>,
    obs: Seq<ObservationView>,
    vals: Seq<Validation>,
    independent: Seq<IdentityView>,
    provider: Seq<char>,
    kind: Seq<char>,
)
    requires
        assesses(r, obs, vals, independent),
    ensures
        claimed(obs, vals, provider, kind) <==> exists|j: int|
            0 <= j < r.len() && (#[trigger] r[j]).provider == provider && r[j].kind == kind,
        forall|j: int, k: int|
            0 <= j < r.len() && 0 <= k < r.len() && (#[trigger] r[j]).provider == provider
                && r[j].kind == kind && (#[trigger] r[k]).provider == provider && r[k].kind
                == kind ==> j == k,
        forall|j: int, k: int| 0 <= j < k < r.len() ==> namespace_lt(#[trigger] r[j], #[trigger] r[k]),
        forall|j: int|
            0 <= j < r.len() && (#[trigger] r[j]).provider == provider && r[j].kind == kind
                ==> sorted_values(r[j].values) && r[j].values.to_set() == claimed_values(
                obs,
                vals,
                provider,
                kind,
            ),
{
    if claimed(obs, vals, provider, kind) {
        let i = choose|i: int|
            0 <= i < obs.len() && claim(obs, vals, i) && in_namespace(#[trigger] obs[i], provider, kind);
        let j = choose|j: int|
            0 <= j < r.len() && in_namespace(#[trigger] obs[i], (#[trigger] r[j]).provider, r[j].kind);
        assert(r[j].provider == provider && r[j].kind == kind);
    }
    assert forall|j: int, k: int|
        0 <= j < r.len() && 0 <= k < r.len() && (#[trigger] r[j]).provider == provider
            && r[j].kind == kind && (#[trigger] r[k]).provider == provider && r[k].kind == kind
        implies j == k by {
        if j != k {
            lemma_only_claims_assessed(r, obs, vals, independent, j, k);
        }
    }
}

// ---------------------------------------------------------------------------
// Reconciling managed identities.

/// The identity that an accepted assessment stands for.
pub open spec fn accepted_identity(a: AssessmentView) -> IdentityView {
    IdentityView { provider: a.provider, kind: a.kind, external_id: a.values[0] }
}

/// The accepted identities, in assessment order, that are not already
/// associated independently.
pub open spec fn desired_of(assessments: Seq<AssessmentView>, independent: Seq<ExternalIdentity>) -> Seq<
    IdentityView,
>
    decreases assessments.len(),
{
    if assessments.len() == 0 {
        Seq::empty()
    } else {
        let a = assessments.last();
        let rest = desired_of(assessments.drop_last(), independent);
        if a.decision == Decision::Accepted && !holds_identity(independent, accepted_identity(a)) {
            rest.push(accepted_identity(a))
        } else {
            rest
        }
    }
}

/// The identities that reconciliation wants managed: each accepted value that
/// no independent association already holds.
pub fn desired_identities(assessments: &[Assessment], independent: &[ExternalIdentity]) -> (r: Vec<
    ExternalIdentity,
>)
    requires
        forall|j: int|
            0 <= j < assessments@.len() && (#[trigger] assessments@[j]).decision
                == Decision::Accepted ==> assessments@[j].values@.len() > 0,
    ensures
        id_views(r@) == desired_of(assessment_views(assessments@), independent@),
{
    let ghost av = assessment_views(assessments@);
    let mut out: Vec<ExternalIdentity> = Vec::new();
    let mut j: usize = 0;
    while j < assessments.len()
        invariant
            j <= assessments.len(),
            av == assessment_views(assessments@),
            forall|x: int|
                0 <= x < assessments@.len() && (#[trigger] assessments@[x]).decision
                    == Decision::Accepted ==> assessments@[x].values@.len() > 0,
            id_views(out@) == desired_of(av.take(j as int), independent@),
        decreases assessments.len() - j,
    {
        let a = &assessments[j];
        assert(av.take(j + 1).drop_last() =~= av.take(j as int));
        assert(av.take(j + 1).last() == a@);
        if a.decision == Decision::Accepted {
            let id = ExternalIdentity {
                provider: a.provider.clone(),
                kind: a.kind.clone(),
                external_id: a.values[0].clone(),
            };
            assert(id@ == accepted_identity(a@));
            if !crate::domain::contains_identity(independent, &id) {
                let ghost before = id_views(out@);
                out.push(id);
                assert(id_views(out@) =~= before.push(accepted_identity(a@)));
            }
        }
        j = j + 1;
    }
    assert(av.take(assessments.len() as int) =~= av);
    out
}

/// The identities of `list` that `other` does not hold, in order.
pub open spec fn missing_from(list: Seq<ExternalIdentity>, other: Seq<ExternalIdentity>) -> Seq<
    IdentityView,
> {
    id_views(list).filter(|i: IdentityView| !holds_identity(other, i))
}

fn not_held(list: &[ExternalIdentity], other: &[ExternalIdentity]) -> (r: Vec<ExternalIdentity>)
    ensures
        id_views(r@) == missing_from(list@, other@),
{
    let ghost iv = id_views(list@);
    let ghost p = |i: IdentityView| !holds_identity(other@, i);
    proof {
        crate::text::lemma_filter_empty(iv, p);
    }
    let mut out: Vec<ExternalIdentity> = Vec::new();
    let mut k: usize = 0;
    while k < list.len()
        invariant
            k <= list.len(),
            iv == id_views(list@),
            p == (|i: IdentityView| !holds_identity(other@, i)),
            id_views(out@) == iv.take(k as int).filter(p),
        decreases list.len() - k,
    {
        proof {
            crate::text::lemma_filter_step(iv, p, k as int);
        }
        assert(iv[k as int] == list@[k as int]@);
        if !crate::domain::contains_identity(other, &list[k]) {
            let id = list[k].clone();
            let ghost before = id_views(out@);
            out.push(id);
            assert(id_views(out@) =~= before.push(iv[k as int]));
        }
        k = k + 1;
    }
    assert(iv.take(list.len() as int) =~= iv);
    out
}

/// What reconciliation removes from and adds to the managed identities: the
/// managed identities that are no longer desired, and the desired identities
/// not yet managed, each in its list's order.
pub fn identity_changes(managed: &[ExternalIdentity], desired: &[ExternalIdentity]) -> (r: (
    Vec<ExternalIdentity>,
    Vec<ExternalIdentity>,
))
    ensures
        id_views(r.0@) == missing_from(managed@, desired@),
        id_views(r.1@) == missing_from(desired@, managed@),
{
    (not_held(managed, desired), not_held(desired, managed))
}

/// The observations that are held back from promotion, in order: those not
/// read from an embedded tag, and those the validator does not support.
pub open spec fn held_back(obs: Seq<ObservationView>, vals: Seq<Validation>) -> Seq<ObservationView>
    decreases obs.len(),
{
    if obs.len() == 0 {
        Seq::empty()
    } else {
        let n = obs.len() - 1;
        let rest = held_back(obs.drop_last(), vals);
        if !(obs[n].origin is EmbeddedTag) || vals[n] == Validation::Unsupported {
            rest.push(obs[n])
        } else {
            rest
        }
    }
}

/// The observations held back from promotion, given the validator's verdict on
/// each.
pub fn non_promotable(observations: &[Observation], validations: &[Validation]) -> (r: Vec<
    Observation,
>)
    requires
        validations@.len() == observations@.len(),
    ensures
        observation_views(r@) == held_back(observation_views(observations@), validations@),
{
    let ghost ov = observation_views(observations@);
    let mut out: Vec<Observation> = Vec::new();
    let mut i: usize = 0;
    while i < observations.len()
        invariant
            i <= observations.len(),
            validations@.len() == observations@.len(),
            ov == observation_views(observations@),
            observation_views(out@) == held_back(ov.take(i as int), validations@),
        decreases observations.len() - i,
    {
        assert(ov.take(i + 1).drop_last() =~= ov.take(i as int));
        assert(ov.take(i + 1)[i as int] == ov[i as int]);
        assert(ov[i as int] == observations@[i as int]@);
        let embedded = match &observations[i].origin {
            Origin::EmbeddedTag { .. } => true,
            _ => false,
        };
        if !embedded || validations[i] == Validation::Unsupported {
            let x = observations[i].clone();
            let ghost before = observation_views(out@);
            out.push(x);
            assert(observation_views(out@) =~= before.push(ov[i as int]));
        }
        i = i + 1;
    }
    assert(ov.take(observations.len() as int) =~= ov);
    out
}

/// What reconciliation found for one Album or Recording.
#[derive(Debug)]
pub struct EntityReport {
    pub entity: &'static str,
    pub id: String,
    pub observations: Vec<Observation>,
    pub non_promotable: Vec<Observation>,
    pub assessments: Vec<Assessment>,
    pub independent: Vec<ExternalIdentity>,
    pub managed: Vec<ExternalIdentity>,
}

} // verus!
