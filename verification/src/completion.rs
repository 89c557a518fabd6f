//! Conservative observation of an application-owned single-song request on a
//! remote (Connect) player. Empty responses are not end of stream unless
//! preceded by fresh, near-end playback.
use vstd::prelude::*;

use crate::text::{chars_of, str_eq, string_of};

verus! {

#[derive(Clone, Copy, Debug, PartialEq, Eq)]
pub enum Outcome {
    Completed,
    Interrupted,
}

/// A remote playback device as the player reports it.
#[derive(Debug)]
pub struct Device {
    pub id: Option<String>,
    pub name: String,
    pub kind: String,
    pub is_active: bool,
    pub is_restricted: bool,
    pub supports_volume: bool,
}

impl Default for Device {
    fn default() -> (r: Self)
        ensures
            r.id is None,
            r.name@ == Seq::<char>::empty(),
            r.kind@ == Seq::<char>::empty(),
            !r.is_active,
            !r.is_restricted,
            !r.supports_volume,
    {
        Device {
            id: None,
            name: String::new(),
            kind: String::new(),
            is_active: false,
            is_restricted: false,
            supports_volume: false,
        }
    }
}

/// One observation of the remote player.
#[derive(Debug)]
pub struct State {
    pub track_id: Option<String>,
    pub title: String,
    pub progress_ms: u64,
    pub duration_ms: Option<u64>,
    pub playing: bool,
    pub device: Option<Device>,
}

impl Default for State {
    fn default() -> (r: Self)
        ensures
            r.track_id is None,
            r.title@ == Seq::<char>::empty(),
            r.progress_ms == 0,
            r.duration_ms is None,
            !r.playing,
            r.device is None,
    {
        State {
            track_id: None,
            title: String::new(),
            progress_ms: 0,
            duration_ms: None,
            playing: false,
            device: None,
        }
    }
}

/// What the detector reads of an observation.
pub struct StateView {
    pub track_id: Option<Seq<char>>,
    pub progress_ms: u64,
    pub duration_ms: Option<u64>,
    pub playing: bool,
    /// Identity of the reporting device; a device without an identity counts as none.
    pub device: Option<Seq<char>>,
}

pub open spec fn opt_view(s: Option<String>) -> Option<Seq<char>> {
    match s {
        Some(v) => Some(v@),
        None => None,
    }
}

impl State {
    pub open spec fn view(self) -> StateView {
        StateView {
            track_id: opt_view(self.track_id),
            progress_ms: self.progress_ms,
            duration_ms: self.duration_ms,
            playing: self.playing,
            device: match self.device {
                Some(d) => opt_view(d.id),
                None => None,
            },
        }
    }
}

/// Abstract detector state.
pub struct DetectorView {
    /// The requested song's track identifier.
    pub song: Seq<char>,
    /// The requested song has been observed playing.
    pub seen: bool,
    /// Device that was playing the requested song.
    pub device: Option<Seq<char>>,
    /// Fresh near-end evidence: (observed at, expected end).
    pub near_end: Option<(u64, u64)>,
    /// Consecutive empty observations after the expected end.
    pub empty: u8,
    pub finished: bool,
}

/// Near-end window of the remaining playback.
pub open spec fn near_end_margin() -> u64 {
    6000
}

/// Evidence older than this is stale.
pub open spec fn evidence_lifetime() -> u64 {
    15000
}

pub open spec fn sat_sub(a: u64, b: u64) -> u64 {
    if a >= b {
        (a - b) as u64
    } else {
        0
    }
}

/// Near-end evidence carried by a playing observation of the requested song.
pub open spec fn near_evidence(s: StateView, now: u64) -> Option<(u64, u64)> {
    match s.duration_ms {
        Some(d) => if s.playing && d > 0 && s.progress_ms <= d && sat_sub(d, s.progress_ms)
            <= near_end_margin() {
            Some((now, (now + sat_sub(d, s.progress_ms)) as u64))
        } else {
            None
        },
        None => None,
    }
}

/// Observations whose near-end expected end is representable, where one is
/// taken: playing, a known positive duration, at most six seconds left.
pub open spec fn end_representable(s: StateView, now: u64) -> bool {
    match s.duration_ms {
        Some(d) => (s.playing && d > 0 && s.progress_ms <= d && sat_sub(d, s.progress_ms) <= 6000)
            ==> now + sat_sub(d, s.progress_ms) <= u64::MAX,
        None => true,
    }
}

/// Forget near-end evidence.
pub open spec fn forget(d: DetectorView) -> DetectorView {
    DetectorView { near_end: None, empty: 0, ..d }
}

/// The detector's transition on one observation at time `now`.
pub open spec fn step(d: DetectorView, s: StateView, now: u64) -> (DetectorView, Option<Outcome>) {
    if d.finished {
        (d, None)
    } else if d.seen && s.device != d.device {
        // Another device now reports; losing the device (or an empty response) proves nothing.
        if s.device is Some {
            (DetectorView { finished: true, ..forget(d) }, Some(Outcome::Interrupted))
        } else {
            (forget(d), None)
        }
    } else if s.track_id is Some {
        if s.track_id->0 != d.song {
            // Another song: interruption once ours was seen, else eventual consistency.
            if d.seen {
                (DetectorView { finished: true, ..forget(d) }, Some(Outcome::Interrupted))
            } else {
                (forget(d), None)
            }
        } else {
            let current = DetectorView { seen: true, device: s.device, empty: 0, ..d };
            if d.near_end is Some && s.playing && s.duration_ms is Some && sat_sub(
                s.duration_ms->0,
                s.progress_ms,
            ) > near_end_margin() {
                // Repeat or external seek after near-end evidence: not a proven end.
                (DetectorView { finished: true, ..current }, Some(Outcome::Interrupted))
            } else {
                (DetectorView { near_end: near_evidence(s, now), ..current }, None)
            }
        }
    } else if !s.playing && s.device is Some && d.near_end is Some {
        let (observed, end) = d.near_end->0;
        if sat_sub(now, observed) > evidence_lifetime() {
            (forget(d), None)
        } else if now >= end {
            let empty = (d.empty + 1) as u8;
            if empty >= 2 {
                (DetectorView { empty, finished: true, ..d }, Some(Outcome::Completed))
            } else {
                (DetectorView { empty, ..d }, None)
            }
        } else {
            (d, None)
        }
    } else {
        (d, None)
    }
}

/// Detector of the end of one application-owned song request.
pub struct Detector {
    song: String,
    seen: bool,
    device: Option<String>,
    near_end: Option<(u64, u64)>,
    empty: u8,
    finished: bool,
}

/// `s` with every leading occurrence of the nonempty `prefix` removed.
pub open spec fn strip_prefixes(s: Seq<char>, prefix: Seq<char>) -> Seq<char>
    decreases s.len(),
{
    if prefix.len() > 0 && prefix.len() <= s.len() && s.take(prefix.len() as int) == prefix {
        strip_prefixes(s.skip(prefix.len() as int), prefix)
    } else {
        s
    }
}

/// `str::trim_start_matches` for a nonempty literal prefix.
fn trim_prefixes(s: &str, prefix: &str) -> (r: String)
    requires
        prefix@.len() > 0,
    ensures
        r@ == strip_prefixes(s@, prefix@),
{
    let v = chars_of(s);
    let p = chars_of(prefix);
    let mut start: usize = 0;
    let mut stop = false;
    assert(v@.skip(0) =~= v@);
    while !stop && p.len() <= v.len() - start
        invariant
            stop ==> strip_prefixes(v@.skip(start as int), p@) == v@.skip(start as int),
            p@ == prefix@,
            v@ == s@,
            p@.len() > 0,
            start <= v@.len(),
            strip_prefixes(v@.skip(start as int), p@) == strip_prefixes(v@, p@),
        decreases v.len() - start + if stop { 0int } else { 1int },
    {
        let mut k: usize = 0;
        let mut same = true;
        while k < p.len() && same
            invariant
                k <= p.len(),
                start + p.len() <= v.len(),
                forall|m: int| 0 <= m < k ==> v@[start + m] == p@[m],
                !same ==> k < p.len() && v@[start + k] != p@[k as int],
            decreases p.len() - k + if same { 1int } else { 0int },
        {
            if v[start + k] != p[k] {
                same = false;
            } else {
                k = k + 1;
            }
        }
        let ghost rest = v@.skip(start as int);
        if !same {
            assert(rest.take(p@.len() as int)[k as int] != p@[k as int]);
            assert(strip_prefixes(rest, p@) == rest);
            stop = true;
        } else {
            assert(rest.take(p@.len() as int) =~= p@);
            assert(rest.skip(p@.len() as int) =~= v@.skip(start + p.len()));
            start = start + p.len();
        }
    }
    let ghost rest = v@.skip(start as int);
    if !stop {
        assert(strip_prefixes(rest, p@) == rest);
    }
    let mut out: Vec<char> = Vec::new();
    let mut i = start;
    while i < v.len()
        invariant
            start <= i <= v.len(),
            out@ == v@.subrange(start as int, i as int),
        decreases v.len() - i,
    {
        out.push(v[i]);
        i = i + 1;
        assert(out@ =~= v@.subrange(start as int, i as int));
    }
    assert(out@ =~= v@.skip(start as int));
    string_of(out.as_slice())
}

fn opt_string_eq(a: &Option<String>, b: &Option<String>) -> (r: bool)
    ensures
        r == (opt_view(*a) == opt_view(*b)),
{
    match (a, b) {
        (Some(x), Some(y)) => str_eq(x.as_str(), y.as_str()),
        (None, None) => true,
        _ => false,
    }
}

fn device_id(state: &State) -> (r: Option<String>)
    ensures
        opt_view(r) == state.view().device,
{
    match &state.device {
        Some(d) => d.id.clone(),
        None => None,
    }
}

impl Detector {
    pub closed spec fn view(&self) -> DetectorView {
        DetectorView {
            song: self.song@,
            seen: self.seen,
            device: opt_view(self.device),
            near_end: self.near_end,
            empty: self.empty,
            finished: self.finished,
        }
    }

    /// The detector's counters are within their bounds.
    pub closed spec fn wf(&self) -> bool {
        !self.finished ==> self.empty < 2
    }

    /// Track the song of a track URI (or bare track identifier).
    pub fn new(uri: &str) -> (r: Self)
        ensures
            r.wf(),
            r.view() == (DetectorView {
                song: strip_prefixes(uri@, "spotify:track:"@),
                seen: false,
                device: None,
                near_end: None,
                empty: 0,
                finished: false,
            }),
    {
        proof {
            reveal_strlit("spotify:track:");
        }
        Detector {
            song: trim_prefixes(uri, "spotify:track:"),
            seen: false,
            device: None,
            near_end: None,
            empty: 0,
            finished: false,
        }
    }

    /// Forget near-end evidence.
    pub fn reset_evidence(&mut self)
        requires
            old(self).wf(),
        ensures
            final(self).wf(),
            final(self).view() == forget(old(self).view()),
    {
        self.near_end = None;
        self.empty = 0;
    }

    /// Observe the player; reports the request's end at most once.
    pub fn observe(&mut self, state: &State, now: u64) -> (r: Option<Outcome>)
        requires
            old(self).wf(),
            end_representable(state.view(), now),
        ensures
            final(self).wf(),
            (final(self).view(), r) == step(old(self).view(), state.view(), now),
    {
        if self.finished {
            return None;
        }
        let device = device_id(state);
        if self.seen && !opt_string_eq(&device, &self.device) {
            self.reset_evidence();
            if device.is_some() {
                self.finished = true;
                return Some(Outcome::Interrupted);
            }
            return None;
        }
        if let Some(id) = &state.track_id {
            self.empty = 0;
            if !str_eq(id.as_str(), self.song.as_str()) {
                self.reset_evidence();
                if self.seen {
                    self.finished = true;
                    return Some(Outcome::Interrupted);
                }
                return None;
            }
            let had_evidence = self.near_end.is_some();
            self.seen = true;
            self.device = device;
            if had_evidence && state.playing && match state.duration_ms {
                Some(duration) => duration.saturating_sub(state.progress_ms) > 6000,
                None => false,
            } {
                self.finished = true;
                return Some(Outcome::Interrupted);
            }
            self.near_end = match state.duration_ms {
                Some(d) => if state.playing && d > 0 && state.progress_ms <= d
                    && d.saturating_sub(state.progress_ms) <= 6000 {
                    Some((now, now + d.saturating_sub(state.progress_ms)))
                } else {
                    None
                },
                None => None,
            };
            return None;
        }
        if !state.playing && device.is_some() {
            if let Some((observed, end)) = self.near_end {
                if now.saturating_sub(observed) > 15000 {
                    self.reset_evidence();
                } else if now >= end {
                    self.empty = self.empty + 1;
                    if self.empty >= 2 {
                        self.finished = true;
                        return Some(Outcome::Completed);
                    }
                }
            }
        }
        None
    }
}

/// Outcomes reported while the detector observes `events` in order.
pub open spec fn run(d: DetectorView, events: Seq<(StateView, u64)>) -> (DetectorView, nat)
    decreases events.len(),
{
    if events.len() == 0 {
        (d, 0)
    } else {
        let (next, outcome) = step(d, events[0].0, events[0].1);
        let (last, count) = run(next, events.skip(1));
        (last, count + if outcome is Some { 1nat } else { 0nat })
    }
}

/// A finished detector stays finished and reports nothing more.
pub proof fn lemma_finished_is_terminal(d: DetectorView, s: StateView, now: u64)
    requires
        d.finished,
    ensures
        step(d, s, now) == (d, None::<Outcome>),
{
}

/// Whenever the detector reports an outcome, it has finished.
pub proof fn lemma_outcome_finishes(d: DetectorView, s: StateView, now: u64)
    ensures
        step(d, s, now).1 is Some ==> step(d, s, now).0.finished,
        d.finished ==> step(d, s, now).0.finished,
{
}

/// The end of a request is reported at most once over any sequence of observations.
pub proof fn lemma_reported_at_most_once(d: DetectorView, events: Seq<(StateView, u64)>)
    ensures
        run(d, events).1 <= 1,
        d.finished ==> run(d, events).1 == 0,
    decreases events.len(),
{
    if events.len() > 0 {
        let (next, outcome) = step(d, events[0].0, events[0].1);
        lemma_reported_at_most_once(next, events.skip(1));
        lemma_outcome_finishes(d, events[0].0, events[0].1);
    }
}

/// Completion needs an empty, paused answer from a present device, after
/// fresh near-end evidence and one earlier empty answer past the expected end.
/// An observation that still names a song, playing or paused, never completes.
pub proof fn lemma_completion_evidence(d: DetectorView, s: StateView, now: u64)
    requires
        step(d, s, now).1 == Some(Outcome::Completed),
    ensures
        s.track_id is None,
        !s.playing,
        s.device is Some,
        d.near_end is Some,
        now >= (d.near_end->0).1,
        d.empty >= 1,
        !d.finished,
{
}

/// Once the requested song was seen, a different song is an interruption.
pub proof fn lemma_other_song_interrupts(d: DetectorView, s: StateView, now: u64)
    requires
        !d.finished,
        d.seen,
        s.device == d.device,
        s.track_id is Some,
        s.track_id->0 != d.song,
    ensures
        step(d, s, now).1 == Some(Outcome::Interrupted),
{
}

/// Some observation in `past`, made at time `at`, saw the requested song
/// playing with a known positive duration and at most six seconds left.
pub open spec fn saw_near_end(song: Seq<char>, past: Seq<(StateView, u64)>, at: u64) -> bool {
    exists|k: int|
        0 <= k < past.len() && (#[trigger] past[k]).1 == at && past[k].0.track_id == Some(song)
            && near_evidence(past[k].0, at) is Some
}

/// The detector's near-end evidence comes from an observation in `past`.
pub open spec fn evidence_recorded(d: DetectorView, past: Seq<(StateView, u64)>) -> bool {
    d.near_end matches Some(p) ==> saw_near_end(d.song, past, p.0)
}

proof fn lemma_step_keeps_evidence(
    d: DetectorView,
    past: Seq<(StateView, u64)>,
    s: StateView,
    now: u64,
)
    requires
        evidence_recorded(d, past),
    ensures
        evidence_recorded(step(d, s, now).0, past.push((s, now))),
        step(d, s, now).0.song == d.song,
{
    let next = past.push((s, now));
    if d.near_end is Some {
        let k = choose|k: int|
            0 <= k < past.len() && (#[trigger] past[k]).1 == (d.near_end->0).0 && past[k].0.track_id
                == Some(d.song) && near_evidence(past[k].0, (d.near_end->0).0) is Some;
        assert(next[k] == past[k]);
    }
    let after = step(d, s, now).0;
    if after.near_end is Some && after.near_end != d.near_end {
        assert(next[past.len() as int] == (s, now));
    }
}

proof fn lemma_run_keeps_evidence(
    d: DetectorView,
    past: Seq<(StateView, u64)>,
    events: Seq<(StateView, u64)>,
)
    requires
        evidence_recorded(d, past),
    ensures
        evidence_recorded(run(d, events).0, past + events),
        run(d, events).0.song == d.song,
    decreases events.len(),
{
    if events.len() > 0 {
        lemma_step_keeps_evidence(d, past, events[0].0, events[0].1);
        let next = step(d, events[0].0, events[0].1).0;
        lemma_run_keeps_evidence(next, past.push(events[0]), events.skip(1));
        assert(past.push(events[0]) + events.skip(1) =~= past + events);
    } else {
        assert(past + events =~= past);
    }
}

/// Completion is reported only after an observation of the requested song,
/// at most fifteen seconds earlier, playing with a known positive duration
/// and at most six seconds left: a detector without near-end evidence that
/// observes `events` and then `s` at `now` completes only so.
pub proof fn lemma_completion_follows_recent_near_end(
    d: DetectorView,
    events: Seq<(StateView, u64)>,
    s: StateView,
    now: u64,
)
    requires
        d.near_end is None,
        step(run(d, events).0, s, now).1 == Some(Outcome::Completed),
    ensures
        exists|k: int|
            #![trigger events[k]]
            0 <= k < events.len() && events[k].0.track_id == Some(d.song) && events[k].0.playing
                && sat_sub(now, events[k].1) <= evidence_lifetime() && (events[k].0.duration_ms
                matches Some(dur) && dur > 0 && events[k].0.progress_ms <= dur && sat_sub(
                dur,
                events[k].0.progress_ms,
            ) <= near_end_margin()),
{
    let empty = Seq::<(StateView, u64)>::empty();
    lemma_run_keeps_evidence(d, empty, events);
    assert(empty + events =~= events);
    let before = run(d, events).0;
    lemma_completion_evidence(before, s, now);
    let at = (before.near_end->0).0;
    let k = choose|k: int|
        0 <= k < events.len() && (#[trigger] events[k]).1 == at && events[k].0.track_id == Some(
            before.song,
        ) && near_evidence(events[k].0, at) is Some;
    assert(sat_sub(now, at) <= evidence_lifetime());
}

} // verus!
