//! Explicit-Play route selection. No network, identity mutation, or queue
//! advancement; the filesystem probes and the stored associations are the
//! application's to read.
use vstd::prelude::*;

use crate::domain::{id_views, ExternalIdentity, IdentityView, PlayableSource};
use crate::text::{append_chars, chars_of, string_of};

verus! {

#[derive(Debug, PartialEq, Eq)]
pub enum ActiveBackend {
    Inactive,
    Local,
    Remote(String),
}

impl Default for ActiveBackend {
    fn default() -> (r: Self)
        ensures
            r == ActiveBackend::Inactive,
    {
        ActiveBackend::Inactive
    }
}

/// A playback adapter supplies capability separately from catalog identity;
/// which identities it accepts is asked of it separately.
#[derive(Debug)]
pub struct RemoteCapability {
    pub provider: String,
    pub unavailable: Option<String>,
    pub catalog_available: bool,
}

#[derive(Debug, PartialEq, Eq)]
pub enum Route {
    Local(PlayableSource),
    Remote(ExternalIdentity),
    NeedsEnrichment,
    Unavailable(String),
}

/// What probing one local source found.
#[derive(Debug)]
pub enum SourceCheck {
    /// A readable regular file.
    Usable,
    /// Missing, or not a regular file: try the next source.
    Missing,
    /// An unexpected access error, by its message; it never masquerades as
    /// absence and never falls back to a remote provider.
    Failed(String),
}

/// The route the probes of the local sources decide, in source order: the
/// first usable source, unless an access error comes first; none when every
/// source is missing.
pub open spec fn local_route_of(checks: Seq<(PlayableSource, SourceCheck)>) -> Option<int>
    decreases checks.len(),
{
    if checks.len() == 0 {
        None
    } else {
        match checks[0].1 {
            SourceCheck::Missing => match local_route_of(checks.drop_first()) {
                Some(k) => Some(k + 1),
                None => None,
            },
            _ => Some(0),
        }
    }
}

fn is_missing(c: &SourceCheck) -> (r: bool)
    ensures
        r == c is Missing,
{
    match c {
        SourceCheck::Missing => true,
        _ => false,
    }
}

/// The local route: the first source that is usable or failed, decided by
/// `local_route_of`; `None` when every source is missing.
pub fn local_route(checks: Vec<(PlayableSource, SourceCheck)>) -> (r: Option<Route>)
    ensures
        match local_route_of(checks@) {
            None => r is None,
            Some(k) => 0 <= k < checks@.len() && match checks@[k].1 {
                SourceCheck::Usable => r == Some(Route::Local(checks@[k].0)),
                SourceCheck::Failed(m) => r == Some(Route::Unavailable(m)),
                SourceCheck::Missing => false,
            },
        },
{
    let ghost all = checks@;
    assert(all.skip(0) =~= all);
    let mut rest = checks;
    let mut index: usize = 0;
    while index < rest.len() && is_missing(&rest[index].1)
        invariant
            rest@ == all,
            index <= all.len(),
            local_route_of(all) == match local_route_of(all.skip(index as int)) {
                Some(j) => Some(j + index),
                None => None,
            },
        decreases all.len() - index,
    {
        proof {
            let tail = all.skip(index as int);
            assert(tail[0] == all[index as int]);
            assert(tail.drop_first() =~= all.skip(index + 1));
        }
        index = index + 1;
    }
    if index == rest.len() {
        assert(all.skip(index as int) =~= Seq::<(PlayableSource, SourceCheck)>::empty());
        return None;
    }
    proof {
        let tail = all.skip(index as int);
        assert(tail[0] == all[index as int]);
    }
    let (source, check) = rest.remove(index);
    assert(source == all[index as int].0 && check == all[index as int].1);
    match check {
        SourceCheck::Usable => Some(Route::Local(source)),
        SourceCheck::Failed(m) => Some(Route::Unavailable(m)),
        SourceCheck::Missing => None,
    }
}

/// How many identities the adapter accepted.
pub open spec fn accepted_count(accepted: Seq<bool>) -> nat
    decreases accepted.len(),
{
    if accepted.len() == 0 {
        0
    } else {
        accepted_count(accepted.drop_last()) + if accepted.last() {
            1nat
        } else {
            0nat
        }
    }
}

/// The only accepted identity's position, when exactly one was accepted.
pub open spec fn sole_accepted(accepted: Seq<bool>, k: int) -> bool {
    0 <= k < accepted.len() && accepted[k] && accepted_count(accepted) == 1
}

/// The remote route for the adapter's answers on the stored associations.
pub open spec fn routes(
    remote: &RemoteCapability,
    identities: Seq<ExternalIdentity>,
    accepted: Seq<bool>,
    r: Route,
) -> bool {
    match remote.unavailable {
        Some(reason) => r matches Route::Unavailable(m) && m@ == "No usable local source; "@
            + reason@,
        None => if accepted_count(accepted) == 1 {
            exists|k: int| sole_accepted(accepted, k) && r == Route::Remote(identities[k])
        } else if identities.len() > 0 {
            r matches Route::Unavailable(m) && m@
                == "Existing provider association is invalid or ambiguous; explicit correction required"@
        } else if remote.catalog_available {
            r == Route::NeedsEnrichment
        } else {
            r matches Route::Unavailable(m) && m@
                == "No playable source; remote catalog is not configured"@
        },
    }
}

/// Without a usable local source: the adapter's unavailability, else the one
/// stored association the adapter accepts, else a refusal when stored
/// associations exist but none or several are accepted, else enrichment when
/// the remote catalog is configured.
pub fn remote_route(remote: &RemoteCapability, identities: &[ExternalIdentity], accepted: &[bool]) -> (r: Route)
    requires
        accepted@.len() == identities@.len(),
    ensures
        routes(remote, identities@, accepted@, r),
{
    if let Some(reason) = &remote.unavailable {
        let mut text = chars_of("No usable local source; ");
        append_chars(&mut text, &chars_of(reason.as_str()));
        return Route::Unavailable(string_of(text.as_slice()));
    }
    let mut count: usize = 0;
    let mut chosen: usize = 0;
    let mut k: usize = 0;
    while k < accepted.len()
        invariant
            k <= accepted.len(),
            accepted@.len() == identities@.len(),
            count == accepted_count(accepted@.take(k as int)),
            count <= k,
            count > 0 ==> chosen < k && accepted@[chosen as int],
            count == 0 ==> forall|x: int| 0 <= x < k ==> !accepted@[x],
            count == 1 ==> forall|x: int| 0 <= x < k && accepted@[x] ==> x == chosen,
        decreases accepted.len() - k,
    {
        assert(accepted@.take(k + 1).drop_last() =~= accepted@.take(k as int));
        if accepted[k] {
            if count == 0 {
                chosen = k;
            }
            count = count + 1;
        }
        k = k + 1;
    }
    assert(accepted@.take(accepted.len() as int) =~= accepted@);
    if count == 1 {
        assert(sole_accepted(accepted@, chosen as int));
        return Route::Remote(identities[chosen].clone());
    }
    if identities.len() > 0 {
        return Route::Unavailable(
            string_of(
                chars_of(
                    "Existing provider association is invalid or ambiguous; explicit correction required",
                ).as_slice(),
            ),
        );
    }
    if remote.catalog_available {
        Route::NeedsEnrichment
    } else {
        Route::Unavailable(
            string_of(chars_of("No playable source; remote catalog is not configured").as_slice()),
        )
    }
}

/// Ask the adapter about every stored association, then decide the remote
/// route from its answers; whatever it answers, the route follows from them.
pub fn remote_route_with<F: Fn(&ExternalIdentity) -> bool>(
    remote: &RemoteCapability,
    accepts: &F,
    identities: &[ExternalIdentity],
) -> (r: Route)
    requires
        forall|i: &ExternalIdentity| accepts.requires((i,)),
    ensures
        exists|answers: Seq<bool>|
            #![trigger answers.len()]
            answers.len() == identities@.len() && (forall|k: int|
                0 <= k < answers.len() ==> accepts.ensures((&identities@[k],), #[trigger] answers[k]))
                && routes(remote, identities@, answers, r),
{
    let mut answers: Vec<bool> = Vec::new();
    let mut k: usize = 0;
    while k < identities.len()
        invariant
            k <= identities.len(),
            answers@.len() == k,
            forall|i: &ExternalIdentity| accepts.requires((i,)),
            forall|x: int| 0 <= x < k ==> accepts.ensures((&identities@[x],), #[trigger] answers@[x]),
        decreases identities.len() - k,
    {
        let a = accepts(&identities[k]);
        answers.push(a);
        k = k + 1;
    }
    let r = remote_route(remote, identities, answers.as_slice());
    assert(answers@.len() == identities@.len());
    r
}

/// The first source that is not missing decides the local route: an
/// unexpected access error there is reported as such, never taken for absence,
/// and no later source or remote provider is tried.
pub proof fn lemma_first_present_source_decides(checks: Seq<(PlayableSource, SourceCheck)>, k: int)
    requires
        0 <= k < checks.len(),
        !(checks[k].1 is Missing),
        forall|j: int| 0 <= j < k ==> (#[trigger] checks[j]).1 is Missing,
    ensures
        local_route_of(checks) == Some(k),
    decreases k,
{
    if k > 0 {
        let rest = checks.drop_first();
        assert forall|j: int| 0 <= j < k - 1 implies (#[trigger] rest[j]).1 is Missing by {
            assert(rest[j] == checks[j + 1]);
        }
        assert(rest[k - 1] == checks[k]);
        lemma_first_present_source_decides(rest, k - 1);
        assert(checks[0].1 is Missing);
    }
}

/// The probes a route makes: the sources in order until the first one that
/// is not missing, every source when all are missing.
pub open spec fn probed_until_decided<P: Fn(&PlayableSource) -> SourceCheck>(
    probe: P,
    sources: Seq<PlayableSource>,
    checks: Seq<SourceCheck>,
) -> bool {
    &&& checks.len() <= sources.len()
    &&& forall|k: int| 0 <= k < checks.len() ==> probe.ensures((&sources[k],), #[trigger] checks[k])
    &&& forall|k: int| 0 <= k < checks.len() - 1 ==> (#[trigger] checks[k]) is Missing
    &&& checks.len() < sources.len() ==> checks.len() > 0 && !(checks.last() is Missing)
}

/// The route without a usable local source: an unavailable remote decides
/// alone, without the stored associations; otherwise the associations read
/// and the adapter's answers on them decide.
pub open spec fn remote_decided<A: Fn() -> Vec<ExternalIdentity>, F: Fn(&ExternalIdentity) -> bool>(
    remote: &RemoteCapability,
    associations: A,
    accepts: F,
    r: Route,
) -> bool {
    if remote.unavailable is Some {
        routes(remote, Seq::empty(), Seq::empty(), r)
    } else {
        exists|ids: Vec<ExternalIdentity>, answers: Seq<bool>|
            #![trigger associations.ensures((), ids), answers.len()]
            associations.ensures((), ids) && answers.len() == ids@.len() && (forall|k: int|
                0 <= k < answers.len() ==> accepts.ensures((&ids@[k],), #[trigger] answers[k]))
                && routes(remote, ids@, answers, r)
    }
}

/// The route of a Track: its first present local source (or the access error
/// met there), else the remote route. Probing stops at the first source that
/// is not missing.
pub fn route<P, A, F>(
    sources: &Vec<PlayableSource>,
    probe: &P,
    remote: &RemoteCapability,
    accepts: &F,
    associations: &A,
) -> (r: Route) where
    P: Fn(&PlayableSource) -> SourceCheck,
    A: Fn() -> Vec<ExternalIdentity>,
    F: Fn(&ExternalIdentity) -> bool,

    requires
        forall|s: &PlayableSource| probe.requires((s,)),
        associations.requires(()),
        forall|i: &ExternalIdentity| accepts.requires((i,)),
    ensures
        exists|checks: Seq<SourceCheck>|
            #[trigger] probed_until_decided(*probe, sources@, checks) && if checks.len() > 0 && !(
            checks.last() is Missing) {
                match checks.last() {
                    SourceCheck::Usable => r matches Route::Local(s) && s@ == sources@[checks.len()
                        - 1]@,
                    SourceCheck::Failed(m) => r == Route::Unavailable(m),
                    SourceCheck::Missing => false,
                }
            } else {
                remote_decided(remote, *associations, *accepts, r)
            },
{
    let ghost mut checks: Seq<SourceCheck> = Seq::empty();
    let mut k: usize = 0;
    while k < sources.len()
        invariant
            k <= sources.len(),
            checks.len() == k,
            forall|s: &PlayableSource| probe.requires((s,)),
            forall|j: int| 0 <= j < k ==> probe.ensures((&sources@[j],), #[trigger] checks[j]),
            forall|j: int| 0 <= j < k ==> (#[trigger] checks[j]) is Missing,
        decreases sources.len() - k,
    {
        let c = probe(&sources[k]);
        proof {
            checks = checks.push(c);
        }
        match c {
            SourceCheck::Usable => {
                let chosen = sources[k].clone();
                assert(probed_until_decided(*probe, sources@, checks));
                return Route::Local(chosen);
            },
            SourceCheck::Failed(m) => {
                assert(probed_until_decided(*probe, sources@, checks));
                return Route::Unavailable(m);
            },
            SourceCheck::Missing => {},
        }
        k = k + 1;
    }
    assert(probed_until_decided(*probe, sources@, checks));
    if remote.unavailable.is_some() {
        let none: Vec<ExternalIdentity> = Vec::new();
        let no_answers: Vec<bool> = Vec::new();
        let r = remote_route(remote, none.as_slice(), no_answers.as_slice());
        assert(none@ =~= Seq::<ExternalIdentity>::empty());
        assert(no_answers@ =~= Seq::<bool>::empty());
        return r;
    }
    let ids = associations();
    let r = remote_route_with(remote, accepts, ids.as_slice());
    proof {
        let answers = choose|answers: Seq<bool>|
            #![trigger answers.len()]
            answers.len() == ids@.len() && (forall|k: int|
                0 <= k < answers.len() ==> accepts.ensures((&ids@[k],), #[trigger] answers[k]))
                && routes(remote, ids@, answers, r);
        assert(associations.ensures((), ids) && answers.len() == ids@.len());
    }
    r
}

} // verus!
