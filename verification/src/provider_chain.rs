//! Ordered fallback, not cross-provider enrichment: the scheduling decisions of
//! a chain of catalog providers. Only the active Album job grants a provider
//! permission to start work; no HTTP or storage here.
use vstd::prelude::*;

use crate::album_matching::MatchOutcome;
use crate::domain::AlbumId;

verus! {

/// One provider's most recent outcome for an Album.
#[derive(Debug)]
pub struct Attempt {
    pub provider: String,
    pub outcome: MatchOutcome,
}

/// An Album's way through the chain: the provider slots to try in order,
/// the next one, the slots that deferred, whether a manual or accepted
/// choice pinned the provider, and whether the Album already carries that
/// provider's identity.
#[derive(Debug, PartialEq, Eq)]
pub struct Job {
    pub album: AlbumId,
    pub order: Vec<usize>,
    pub at: usize,
    pub deferred: Vec<usize>,
    pub pinned: bool,
    pub resolved: bool,
}

pub struct JobView {
    pub album: Seq<char>,
    pub order: Seq<usize>,
    pub at: usize,
    pub deferred: Seq<usize>,
    pub pinned: bool,
    pub resolved: bool,
}

impl View for Job {
    type V = JobView;

    open spec fn view(&self) -> JobView {
        JobView {
            album: self.album.0@,
            order: self.order@,
            at: self.at,
            deferred: self.deferred@,
            pinned: self.pinned,
            resolved: self.resolved,
        }
    }
}

pub open spec fn job_views(s: Seq<Job>) -> Seq<JobView> {
    s.map_values(|j: Job| j@)
}

/// The first index whose flag is set.
pub open spec fn first_set(flags: Seq<bool>) -> Option<int>
    decreases flags.len(),
{
    if flags.len() == 0 {
        None
    } else {
        match first_set(flags.drop_last()) {
            Some(k) => Some(k),
            None => if flags.last() {
                Some(flags.len() - 1)
            } else {
                None
            },
        }
    }
}

fn first_set_of(flags: &[bool]) -> (r: Option<usize>)
    ensures
        match first_set(flags@) {
            Some(k) => r == Some(k as usize),
            None => r is None,
        },
{
    let mut k: usize = 0;
    while k < flags.len()
        invariant
            k <= flags.len(),
            first_set(flags@.take(k as int)) is None,
        decreases flags.len() - k,
    {
        assert(flags@.take(k + 1).drop_last() =~= flags@.take(k as int));
        if flags[k] {
            proof {
                lemma_first_set_prefix(flags@, k as int + 1);
            }
            return Some(k);
        }
        k = k + 1;
    }
    assert(flags@.take(flags.len() as int) =~= flags@);
    None
}

proof fn lemma_first_set_prefix(flags: Seq<bool>, n: int)
    requires
        0 <= n <= flags.len(),
        first_set(flags.take(n)) is Some,
    ensures
        first_set(flags) == first_set(flags.take(n)),
    decreases flags.len() - n,
{
    if n < flags.len() {
        assert(flags.take(n + 1).drop_last() =~= flags.take(n));
        lemma_first_set_prefix(flags, n + 1);
    } else {
        assert(flags.take(n) =~= flags);
    }
}

/// The provider a new job is tied to: the first slot holding a manual
/// choice, else the first slot whose identity the Album already carries.
pub open spec fn known_slot(manual: Seq<bool>, identified: Seq<bool>) -> Option<int> {
    match first_set(manual) {
        Some(k) => Some(k),
        None => first_set(identified),
    }
}

/// A job for `album` over `identified.len()` provider slots. Manual provider
/// choices take precedence; otherwise the first configured provider whose
/// Album identity the Album carries wins before any rediscovery; with
/// neither, every provider is tried in order.
pub fn new_job(album: AlbumId, manual: &[bool], identified: &[bool]) -> (r: Job)
    requires
        manual.len() == identified.len(),
    ensures
        r.album == album,
        r.at == 0,
        r.deferred@.len() == 0,
        r.pinned == known_slot(manual@, identified@) is Some,
        r.order@ == match known_slot(manual@, identified@) {
            Some(k) => seq![k as usize],
            None => Seq::new(identified.len() as nat, |p: int| p as usize),
        },
        r.resolved == (known_slot(manual@, identified@) matches Some(k) && identified@[k]),
{
    let known = match first_set_of(manual) {
        Some(k) => Some(k),
        None => first_set_of(identified),
    };
    proof {
        lemma_first_set_bounds(manual@);
        lemma_first_set_bounds(identified@);
    }
    match known {
        Some(k) => {
            let order = vec![k];
            Job { album, order, at: 0, deferred: Vec::new(), pinned: true, resolved: identified[k] }
        },
        None => {
            let mut order: Vec<usize> = Vec::new();
            let mut p: usize = 0;
            while p < identified.len()
                invariant
                    p <= identified.len(),
                    order@ == Seq::new(p as nat, |q: int| q as usize),
                decreases identified.len() - p,
            {
                order.push(p);
                assert(order@ =~= Seq::new((p + 1) as nat, |q: int| q as usize));
                p = p + 1;
            }
            Job { album, order, at: 0, deferred: Vec::new(), pinned: false, resolved: false }
        },
    }
}

proof fn lemma_first_set_bounds(flags: Seq<bool>)
    ensures
        first_set(flags) matches Some(k) ==> 0 <= k < flags.len() && flags[k],
    decreases flags.len(),
{
    if flags.len() > 0 {
        lemma_first_set_bounds(flags.drop_last());
    }
}

// ---------------------------------------------------------------------------
// Results of an attempt.

/// A provider settled the Album.
pub open spec fn success(o: MatchOutcome) -> bool {
    o is Matched || o is MatchedClose || o is AlreadyMatched
}

/// An outcome that the user resolves by hand.
pub open spec fn manual_kind(o: MatchOutcome) -> bool {
    o is ArtistAmbiguous
}

pub open spec fn album_choice_kind(o: MatchOutcome) -> bool {
    o is AlbumEquivalent || o is AlbumAmbiguous
}

pub open spec fn artist_flags(attempts: Seq<Attempt>) -> Seq<bool> {
    Seq::new(attempts.len(), |k: int| manual_kind(attempts[k].outcome))
}

pub open spec fn album_flags(attempts: Seq<Attempt>) -> Seq<bool> {
    Seq::new(attempts.len(), |k: int| album_choice_kind(attempts[k].outcome))
}

/// The attempt kept when every provider missed: the most useful manual
/// result, not just the last miss. An ambiguous Artist first, else an
/// equivalent or ambiguous Album.
pub open spec fn preferred(attempts: Seq<Attempt>) -> Option<int> {
    match first_set(artist_flags(attempts)) {
        Some(k) => Some(k),
        None => first_set(album_flags(attempts)),
    }
}

/// The attempt to keep when every provider of a job missed.
pub fn preferred_attempt(attempts: &[Attempt]) -> (r: Option<usize>)
    ensures
        match preferred(attempts@) {
            Some(k) => r == Some(k as usize),
            None => r is None,
        },
{
    let mut artist: Vec<bool> = Vec::new();
    let mut album: Vec<bool> = Vec::new();
    let mut k: usize = 0;
    while k < attempts.len()
        invariant
            k <= attempts.len(),
            artist@ =~= Seq::new(k as nat, |x: int| manual_kind(attempts@[x].outcome)),
            album@ =~= Seq::new(k as nat, |x: int| album_choice_kind(attempts@[x].outcome)),
        decreases attempts.len() - k,
    {
        let (a, b) = match &attempts[k].outcome {
            MatchOutcome::ArtistAmbiguous(_) => (true, false),
            MatchOutcome::AlbumEquivalent { .. } => (false, true),
            MatchOutcome::AlbumAmbiguous(_) => (false, true),
            _ => (false, false),
        };
        artist.push(a);
        album.push(b);
        k = k + 1;
    }
    assert(artist@ =~= artist_flags(attempts@));
    assert(album@ =~= album_flags(attempts@));
    match first_set_of(artist.as_slice()) {
        Some(k) => Some(k),
        None => first_set_of(album.as_slice()),
    }
}

/// What an attempt's outcome does to its job: a deferral records the slot
/// and moves on; success, a program result, a skip or a disabled provider
/// ends the job; any other miss moves on to the next provider.
pub open spec fn after(job: JobView, o: MatchOutcome, program: bool) -> Option<JobView> {
    if o is Deferred {
        Some(JobView { at: (job.at + 1) as usize, deferred: job.deferred.push(job.order[job.at as int]), ..job })
    } else if success(o) || program || o is Skipped || o is Disabled {
        None
    } else {
        Some(JobView { at: (job.at + 1) as usize, ..job })
    }
}

/// The job to queue again at the front after an attempt, if any; and
/// whether the Album shows as already matched while its provider defers.
pub fn after_attempt(job: Job, outcome: &MatchOutcome, program: bool) -> (r: (Option<Job>, bool))
    requires
        job.at < job.order.len(),
    ensures
        match after(job@, *outcome, program) {
            Some(v) => (r.0 matches Some(j) && j@ == v),
            None => r.0 is None,
        },
        r.1 == (outcome is Deferred && job.resolved),
{
    let mut job = job;
    let deferred = match outcome {
        MatchOutcome::Deferred(_) => true,
        _ => false,
    };
    if deferred {
        let i = job.order[job.at];
        job.deferred.push(i);
        let shown = job.resolved;
        job.at = job.at + 1;
        return (Some(job), shown);
    }
    let ends = match outcome {
        MatchOutcome::Matched(_) => true,
        MatchOutcome::MatchedClose(_) => true,
        MatchOutcome::AlreadyMatched => true,
        MatchOutcome::Skipped => true,
        MatchOutcome::Disabled => true,
        _ => program,
    };
    if ends {
        return (None, false);
    }
    job.at = job.at + 1;
    (Some(job), false)
}

/// When a job has tried every provider: the attempt to record instead of the
/// last miss (none for a pinned job), and the job that waits for the
/// deferred providers, if any.
pub fn exhaust(job: Job, attempts: &[Attempt]) -> (r: (Option<usize>, Option<Job>))
    ensures
        job.pinned ==> r.0 is None,
        !job.pinned ==> match preferred(attempts@) {
            Some(k) => r.0 == Some(k as usize),
            None => r.0 is None,
        },
        job.deferred@.len() == 0 ==> r.1 is None,
        job.deferred@.len() > 0 ==> (r.1 matches Some(w) && w@ == (JobView {
            order: job@.deferred,
            at: 0,
            deferred: Seq::empty(),
            ..job@
        })),
{
    let keep = if job.pinned {
        None
    } else {
        preferred_attempt(attempts)
    };
    if job.deferred.len() == 0 {
        return (keep, None);
    }
    let Job { album, order: _, at: _, deferred, pinned, resolved } = job;
    (keep, Some(Job { album, order: deferred, at: 0, deferred: Vec::new(), pinned, resolved }))
}

// ---------------------------------------------------------------------------
// Waking deferred work.

/// `order` without slot `i`.
pub open spec fn without(order: Seq<usize>, i: usize) -> Seq<usize>
    decreases order.len(),
{
    if order.len() == 0 {
        Seq::empty()
    } else if order.last() == i {
        without(order.drop_last(), i)
    } else {
        without(order.drop_last(), i).push(order.last())
    }
}

/// The first waiting job that would use slot `i`.
pub open spec fn first_holding(waiting: Seq<JobView>, i: usize) -> Option<int> {
    first_set(Seq::new(waiting.len(), |k: int| waiting[k].order.contains(i)))
}

/// A woken job tries slot `i` first, then the rest of its order.
pub open spec fn woken(j: JobView, i: usize) -> JobView {
    JobView { order: seq![i] + without(j.order, i), at: 0, ..j }
}

fn holds_slot(order: &Vec<usize>, i: usize) -> (r: bool)
    ensures
        r == order@.contains(i),
{
    let mut k: usize = 0;
    while k < order.len()
        invariant
            k <= order.len(),
            forall|x: int| 0 <= x < k ==> order@[x] != i,
        decreases order.len() - k,
    {
        if order[k] == i {
            return true;
        }
        k = k + 1;
    }
    false
}

fn without_of(order: &Vec<usize>, i: usize) -> (r: Vec<usize>)
    ensures
        r@ == without(order@, i),
{
    let mut out: Vec<usize> = Vec::new();
    let mut k: usize = 0;
    while k < order.len()
        invariant
            k <= order.len(),
            out@ == without(order@.take(k as int), i),
        decreases order.len() - k,
    {
        assert(order@.take(k + 1).drop_last() =~= order@.take(k as int));
        if order[k] != i {
            out.push(order[k]);
        }
        k = k + 1;
    }
    assert(order@.take(order.len() as int) =~= order@);
    out
}

/// Waiting jobs and queue after slot `i` wakes the first waiting job that
/// would use it.
pub open spec fn after_wake(w: Seq<JobView>, q: Seq<JobView>, i: usize) -> (Seq<JobView>, Seq<
    JobView,
>) {
    match first_holding(w, i) {
        Some(n) => (w.remove(n), seq![woken(w[n], i)] + q),
        None => (w, q),
    }
}

/// A ready provider wakes the first waiting job that would use it: that job
/// moves to the front of the queue and tries the provider first.
pub fn wake(waiting: &mut Vec<Job>, queue: &mut Vec<Job>, i: usize)
    ensures
        (job_views(final(waiting)@), job_views(final(queue)@)) == after_wake(
            job_views(old(waiting)@),
            job_views(old(queue)@),
            i,
        ),
        match first_holding(job_views(old(waiting)@), i) {
            Some(n) => {
                &&& job_views(final(waiting)@) == job_views(old(waiting)@).remove(n)
                &&& job_views(final(queue)@) == seq![woken(job_views(old(waiting)@)[n], i)]
                    + job_views(old(queue)@)
            },
            None => final(waiting)@ == old(waiting)@ && final(queue)@ == old(queue)@,
        },
{
    let ghost wv = job_views(waiting@);
    let mut flags: Vec<bool> = Vec::new();
    let mut k: usize = 0;
    while k < waiting.len()
        invariant
            k <= waiting.len(),
            wv == job_views(waiting@),
            flags@ =~= Seq::new(k as nat, |x: int| wv[x].order.contains(i)),
        decreases waiting.len() - k,
    {
        flags.push(holds_slot(&waiting[k].order, i));
        k = k + 1;
    }
    assert(flags@ =~= Seq::new(wv.len(), |x: int| wv[x].order.contains(i)));
    match first_set_of(flags.as_slice()) {
        None => {},
        Some(n) => {
            proof {
                lemma_first_set_bounds(flags@);
            }
            let j = waiting.remove(n);
            assert(job_views(waiting@) =~= wv.remove(n as int));
            let rest = without_of(&j.order, i);
            let mut order: Vec<usize> = vec![i];
            let mut t: usize = 0;
            while t < rest.len()
                invariant
                    t <= rest.len(),
                    order@ == seq![i] + rest@.take(t as int),
                decreases rest.len() - t,
            {
                order.push(rest[t]);
                assert(order@ =~= seq![i] + rest@.take(t + 1));
                t = t + 1;
            }
            assert(rest@.take(rest.len() as int) =~= rest@);
            let Job { album, order: _, at: _, deferred, pinned, resolved } = j;
            let front = Job { album, order, at: 0, deferred, pinned, resolved };
            let ghost before = job_views(queue@);
            queue.insert(0, front);
            assert(job_views(queue@) =~= seq![woken(wv[n as int], i)] + before);
        },
    }
}

/// The waiting jobs that would use slot `i`, in order.
pub open spec fn holding(waiting: Seq<JobView>, i: usize) -> Seq<JobView> {
    waiting.filter(|j: JobView| j.order.contains(i))
}

/// The waiting jobs that would not use slot `i`, in order.
pub open spec fn not_holding(waiting: Seq<JobView>, i: usize) -> Seq<JobView> {
    waiting.filter(|j: JobView| !j.order.contains(i))
}

/// A provider that answered again wakes every waiting job that would use
/// it: they join the back of the queue in order; the others keep waiting.
pub fn wake_all(waiting: &mut Vec<Job>, queue: &mut Vec<Job>, i: usize)
    ensures
        job_views(final(queue)@) == job_views(old(queue)@) + holding(job_views(old(waiting)@), i),
        job_views(final(waiting)@) == not_holding(job_views(old(waiting)@), i),
{
    let ghost wv = job_views(waiting@);
    let ghost qv = job_views(queue@);
    let mut jobs: Vec<Job> = Vec::new();
    std::mem::swap(&mut jobs, waiting);
    let mut retained: Vec<Job> = Vec::new();
    proof {
        crate::text::lemma_filter_empty(wv, |j: JobView| j.order.contains(i));
        crate::text::lemma_filter_empty(wv, |j: JobView| !j.order.contains(i));
    }
    let mut k: usize = 0;
    let n = jobs.len();
    assert(job_views(jobs@) == wv);
    while k < n
        invariant
            k <= n,
            n == wv.len(),
            jobs@.len() == n - k,
            forall|x: int| 0 <= x < jobs@.len() ==> (#[trigger] jobs@[x])@ == wv[k + x],
            job_views(queue@) == qv + wv.take(k as int).filter(|j: JobView| j.order.contains(i)),
            job_views(retained@) == wv.take(k as int).filter(|j: JobView| !j.order.contains(i)),
        decreases n - k,
    {
        let j = jobs.remove(0);
        assert(j@ == wv[k as int]);
        proof {
            crate::text::lemma_filter_step(wv, |j: JobView| j.order.contains(i), k as int);
            crate::text::lemma_filter_step(wv, |j: JobView| !j.order.contains(i), k as int);
        }
        let ghost qb = job_views(queue@);
        let ghost rb = job_views(retained@);
        if holds_slot(&j.order, i) {
            queue.push(j);
            assert(job_views(queue@) =~= qb.push(wv[k as int]));
        } else {
            retained.push(j);
            assert(job_views(retained@) =~= rb.push(wv[k as int]));
        }
        k = k + 1;
    }
    assert(wv.take(n as int) =~= wv);
    *waiting = retained;
}

// ---------------------------------------------------------------------------
// The next attempt.

/// The first slot of `order` whose provider is ready again.
pub open spec fn first_ready_in(order: Seq<usize>, ready: Seq<bool>) -> Option<usize>
    decreases order.len(),
{
    if order.len() == 0 {
        None
    } else {
        match first_ready_in(order.drop_last(), ready) {
            Some(p) => Some(p),
            None => if order.last() < ready.len() && ready[order.last() as int] {
                Some(order.last())
            } else {
                None
            },
        }
    }
}

/// The first slot, in the order of the waiting jobs and of their slots,
/// whose provider is ready again.
pub open spec fn first_ready(waiting: Seq<JobView>, ready: Seq<bool>) -> Option<usize>
    decreases waiting.len(),
{
    if waiting.len() == 0 {
        None
    } else {
        match first_ready(waiting.drop_last(), ready) {
            Some(p) => Some(p),
            None => first_ready_in(waiting.last().order, ready),
        }
    }
}

fn first_ready_in_of(order: &Vec<usize>, ready: &[bool]) -> (r: Option<usize>)
    ensures
        r == first_ready_in(order@, ready@),
{
    let mut k: usize = 0;
    while k < order.len()
        invariant
            k <= order.len(),
            first_ready_in(order@.take(k as int), ready@) is None,
        decreases order.len() - k,
    {
        assert(order@.take(k + 1).drop_last() =~= order@.take(k as int));
        let p = order[k];
        if p < ready.len() && ready[p] {
            proof {
                lemma_first_ready_in_prefix(order@, ready@, k as int + 1);
            }
            return Some(p);
        }
        k = k + 1;
    }
    assert(order@.take(order.len() as int) =~= order@);
    None
}

proof fn lemma_first_ready_in_prefix(order: Seq<usize>, ready: Seq<bool>, n: int)
    requires
        0 <= n <= order.len(),
        first_ready_in(order.take(n), ready) is Some,
    ensures
        first_ready_in(order, ready) == first_ready_in(order.take(n), ready),
    decreases order.len() - n,
{
    if n < order.len() {
        assert(order.take(n + 1).drop_last() =~= order.take(n));
        lemma_first_ready_in_prefix(order, ready, n + 1);
    } else {
        assert(order.take(n) =~= order);
    }
}

proof fn lemma_first_ready_prefix(waiting: Seq<JobView>, ready: Seq<bool>, n: int)
    requires
        0 <= n <= waiting.len(),
        first_ready(waiting.take(n), ready) is Some,
    ensures
        first_ready(waiting, ready) == first_ready(waiting.take(n), ready),
    decreases waiting.len() - n,
{
    if n < waiting.len() {
        assert(waiting.take(n + 1).drop_last() =~= waiting.take(n));
        lemma_first_ready_prefix(waiting, ready, n + 1);
    } else {
        assert(waiting.take(n) =~= waiting);
    }
}

fn first_ready_of(waiting: &Vec<Job>, ready: &[bool]) -> (r: Option<usize>)
    ensures
        r == first_ready(job_views(waiting@), ready@),
{
    let ghost wv = job_views(waiting@);
    let mut k: usize = 0;
    while k < waiting.len()
        invariant
            k <= waiting.len(),
            wv == job_views(waiting@),
            first_ready(wv.take(k as int), ready@) is None,
        decreases waiting.len() - k,
    {
        assert(wv.take(k + 1).drop_last() =~= wv.take(k as int));
        assert(wv.take(k + 1).last() == waiting@[k as int]@);
        match first_ready_in_of(&waiting[k].order, ready) {
            Some(p) => {
                proof {
                    lemma_first_ready_prefix(wv, ready@, k as int + 1);
                }
                return Some(p);
            },
            None => {},
        }
        k = k + 1;
    }
    assert(wv.take(waiting.len() as int) =~= wv);
    None
}

/// The job the chain takes up next: with an empty queue, the first provider
/// that is ready again first wakes a waiting job that would use it; then the
/// front of the queue, if any.
pub fn next_job(waiting: &mut Vec<Job>, queue: &mut Vec<Job>, ready: &[bool]) -> (r: Option<Job>)
    ensures
        ({
            let (w, q) = if old(queue)@.len() == 0 && first_ready(job_views(old(waiting)@), ready@)
                is Some {
                after_wake(
                    job_views(old(waiting)@),
                    job_views(old(queue)@),
                    first_ready(job_views(old(waiting)@), ready@)->0,
                )
            } else {
                (job_views(old(waiting)@), job_views(old(queue)@))
            };
            &&& job_views(final(waiting)@) == w
            &&& q.len() == 0 ==> r is None && job_views(final(queue)@) == q
            &&& q.len() > 0 ==> (r matches Some(j) && j@ == q[0]) && job_views(final(queue)@)
                == q.drop_first()
        }),
{
    if queue.len() == 0 {
        match first_ready_of(waiting, ready) {
            Some(p) => wake(waiting, queue, p),
            None => {},
        }
    }
    if queue.len() == 0 {
        return None;
    }
    let ghost qv = job_views(queue@);
    let j = queue.remove(0);
    assert(job_views(queue@) =~= qv.drop_first());
    Some(j)
}

/// What the chain does with a slot that a job reaches: a misconfigured
/// provider is recorded and skipped; an unavailable one that is not ready
/// again defers; otherwise the provider runs, probing first when it was
/// ready again.
#[derive(Clone, Copy, Debug, PartialEq, Eq)]
pub enum Gate {
    Misconfigured,
    Defer,
    Run { probe: bool },
}

pub fn gate(misconfigured: bool, unavailable: bool, ready: bool) -> (r: Gate)
    ensures
        misconfigured ==> r == Gate::Misconfigured,
        !misconfigured && unavailable && !ready ==> r == Gate::Defer,
        !misconfigured && !(unavailable && !ready) ==> r == (Gate::Run { probe: ready }),
{
    if misconfigured {
        Gate::Misconfigured
    } else if unavailable && !ready {
        Gate::Defer
    } else {
        Gate::Run { probe: ready }
    }
}

/// One step of the chain on the job it takes up.
#[derive(Debug, PartialEq, Eq)]
pub enum ChainStep {
    /// Every provider of the job was tried: record the kept attempt, if
    /// any, and let the job wait for its deferred providers, if any.
    Exhausted { keep: Option<usize>, waiting: Option<Job> },
    /// The provider is misconfigured: record that for it and queue the job
    /// again at the front, moved on to its next provider.
    Misconfigured { slot: usize, job: Job },
    /// The provider is unavailable and not ready again: record the deferral
    /// (the Album shows as already matched when it is resolved) and queue the
    /// job again at the front, moved on.
    Deferred { slot: usize, already_matched: bool, job: Job },
    /// Run the provider on the Album, probing first when it is ready again.
    Run { slot: usize, probe: bool, job: Job },
}

/// The chain's step on `job`, given each slot's configuration, availability
/// and readiness and the job's attempts so far.
pub fn chain_step(
    job: Job,
    attempts: &[Attempt],
    misconfigured: &[bool],
    unavailable: &[bool],
    ready: &[bool],
) -> (r: ChainStep)
    requires
        job.at <= job.order.len(),
        misconfigured.len() == unavailable.len(),
        unavailable.len() == ready.len(),
        forall|k: int| 0 <= k < job.order@.len() ==> (#[trigger] job.order@[k]) < ready.len(),
    ensures
        job.at == job.order.len() ==> (r matches ChainStep::Exhausted { keep, waiting } && (
        job.pinned ==> keep is None) && (!job.pinned ==> match preferred(attempts@) {
            Some(k) => keep == Some(k as usize),
            None => keep is None,
        }) && (job.deferred@.len() == 0 ==> waiting is None) && (job.deferred@.len() > 0 ==> (
        waiting matches Some(w) && w@ == (JobView {
            order: job@.deferred,
            at: 0,
            deferred: Seq::empty(),
            ..job@
        })))),
        job.at < job.order.len() ==> ({
            let i = job.order@[job.at as int];
            if misconfigured@[i as int] {
                r matches ChainStep::Misconfigured { slot, job: j } && slot == i && j@ == (JobView {
                    at: (job.at + 1) as usize,
                    ..job@
                })
            } else if unavailable@[i as int] && !ready@[i as int] {
                r matches ChainStep::Deferred { slot, already_matched, job: j } && slot == i
                    && already_matched == job.resolved && j@ == (JobView {
                    at: (job.at + 1) as usize,
                    deferred: job@.deferred.push(i),
                    ..job@
                })
            } else {
                r matches ChainStep::Run { slot, probe, job: j } && slot == i && probe
                    == ready@[i as int] && j@ == job@
            }
        }),
{
    if job.at == job.order.len() {
        let (keep, waiting) = exhaust(job, attempts);
        return ChainStep::Exhausted { keep, waiting };
    }
    let i = job.order[job.at];
    let mut job = job;
    match gate(misconfigured[i], unavailable[i], ready[i]) {
        Gate::Misconfigured => {
            job.at = job.at + 1;
            ChainStep::Misconfigured { slot: i, job }
        },
        Gate::Defer => {
            job.deferred.push(i);
            let already_matched = job.resolved;
            job.at = job.at + 1;
            ChainStep::Deferred { slot: i, already_matched, job }
        },
        Gate::Run { probe } => ChainStep::Run { slot: i, probe, job },
    }
}

/// A chain is configured when it has providers, each provider's matcher
/// (where one was built) serves that provider's scope, and no provider occurs
/// twice.
pub open spec fn chain_configured(providers: Seq<Seq<char>>, scopes_agree: Seq<bool>) -> bool {
    &&& providers.len() > 0
    &&& forall|k: int| 0 <= k < scopes_agree.len() ==> #[trigger] scopes_agree[k]
    &&& providers.no_duplicates()
}

/// Check a chain's providers (by name) and whether each one's matcher serves
/// its scope.
pub fn chain_configuration(providers: &Vec<String>, scopes_agree: &[bool]) -> (r: Result<(), String>)
    ensures
        r is Ok <==> chain_configured(crate::text::views(providers@), scopes_agree@),
        r matches Err(m) ==> m@ == "Configure a nonempty chain of distinct providers"@,
{
    let ghost v = crate::text::views(providers@);
    let mut ok = providers.len() > 0;
    let mut k: usize = 0;
    while k < scopes_agree.len()
        invariant
            k <= scopes_agree.len(),
            ok == (providers@.len() > 0 && forall|j: int| 0 <= j < k ==> #[trigger] scopes_agree@[j]),
        decreases scopes_agree.len() - k,
    {
        if !scopes_agree[k] {
            ok = false;
        }
        k = k + 1;
    }
    let mut i: usize = 0;
    while i < providers.len()
        invariant
            i <= providers.len(),
            v == crate::text::views(providers@),
            forall|a: int, b: int| 0 <= a < b < i ==> v[a] != v[b],
        decreases providers.len() - i,
    {
        let mut j: usize = 0;
        while j < i
            invariant
                j <= i,
                i < providers.len(),
                v == crate::text::views(providers@),
                forall|a: int| 0 <= a < j ==> v[a] != v[i as int],
            decreases i - j,
        {
            if providers[j] == providers[i] {
                proof {
                    assert(v[j as int] == v[i as int]);
                }
                return Err("Configure a nonempty chain of distinct providers".to_owned());
            }
            j = j + 1;
        }
        i = i + 1;
    }
    assert(v.no_duplicates());
    if ok {
        Ok(())
    } else {
        Err("Configure a nonempty chain of distinct providers".to_owned())
    }
}

// ---------------------------------------------------------------------------
// Laws.

proof fn lemma_push_contains(s: Seq<usize>, v: usize, x: usize)
    ensures
        s.push(v).contains(x) <==> (s.contains(x) || x == v),
{
    if s.push(v).contains(x) {
        let k = choose|k: int| 0 <= k < s.push(v).len() && s.push(v)[k] == x;
        if k < s.len() {
            assert(s[k] == x);
        }
    }
    if s.contains(x) {
        let k = choose|k: int| 0 <= k < s.len() && s[k] == x;
        assert(s.push(v)[k] == x);
    }
    if x == v {
        assert(s.push(v)[s.len() as int] == x);
    }
}

proof fn lemma_without(order: Seq<usize>, i: usize, x: usize)
    ensures
        without(order, i).contains(x) <==> (order.contains(x) && x != i),
    decreases order.len(),
{
    if order.len() == 0 {
    } else {
        let rest = order.drop_last();
        lemma_without(rest, i, x);
        assert(order =~= rest.push(order.last()));
        lemma_push_contains(rest, order.last(), x);
        if order.last() != i {
            lemma_push_contains(without(rest, i), order.last(), x);
        }
    }
}

/// A woken job tries the waking provider first and keeps exactly the
/// providers it had: waking reorders, it never adds or drops one.
pub proof fn lemma_woken_keeps_providers(j: JobView, i: usize)
    requires
        j.order.contains(i),
    ensures
        woken(j, i).order[0] == i,
        woken(j, i).at == 0,
        forall|x: usize| #[trigger] woken(j, i).order.contains(x) <==> j.order.contains(x),
{
    let rest = without(j.order, i);
    let w = woken(j, i).order;
    assert forall|x: usize| #[trigger] w.contains(x) <==> j.order.contains(x) by {
        lemma_without(j.order, i, x);
        if x == i {
            assert(w[0] == i);
        } else {
            if rest.contains(x) {
                let k = choose|k: int| 0 <= k < rest.len() && rest[k] == x;
                assert(w[k + 1] == x);
            }
            if w.contains(x) {
                let k = choose|k: int| 0 <= k < w.len() && w[k] == x;
                assert(k > 0);
                assert(rest[k - 1] == x);
            }
        }
    }
}

/// A miss moves a job on to the next provider in its order, never back: the
/// order stays and the position grows by one; only a deferral adds the
/// provider to the deferred ones.
pub proof fn lemma_misses_move_forward(job: JobView, o: MatchOutcome, program: bool)
    requires
        job.at < job.order.len() <= usize::MAX,
    ensures
        after(job, o, program) matches Some(next) ==> next.order == job.order && next.at == job.at
            + 1 && next.album == job.album && next.pinned == job.pinned,
        after(job, o, program) matches Some(next) ==> (o is Deferred ==> next.deferred
            == job.deferred.push(job.order[job.at as int])) && (!(o is Deferred) ==> next.deferred
            == job.deferred),
        success(o) ==> after(job, o, program) is None,
{
}

} // verus!
