//! In-memory, UI-independent playback orchestration. No decoding or audio
//! output lives here; the session gain is the application's.
use vstd::prelude::*;

use crate::domain::{PlayableSource, TrackId};

verus! {

#[derive(Debug, PartialEq, Eq)]
pub struct EngineError(pub String);

impl Clone for EngineError {
    fn clone(&self) -> (r: Self)
        ensures
            r == *self,
    {
        EngineError(self.0.clone())
    }
}

/// Commands, not a queue/state model. Synchronous engines complete on return;
/// asynchronous engines accept on return and confirm through generation-tagged
/// events. `start` replaces any previous input and starts the given source from
/// its beginning. On transport error, output state may be unknown; the
/// controller requires a successful stop to recover.
pub trait PlaybackEngine {
    /// Set before a new media lifetime or Stop. Events must retain their
    /// originating generation.
    fn set_event_generation(&mut self, generation: u64) {
    }

    /// Whether commands are confirmed later by events. Engines are
    /// synchronous unless they say otherwise.
    fn asynchronous(&self) -> (r: bool)
        default_ensures
            !r,
    {
        false
    }

    fn start(&mut self, source: &PlayableSource) -> Result<(), EngineError>;

    fn pause(&mut self) -> Result<(), EngineError>;

    fn resume(&mut self) -> Result<(), EngineError>;

    fn stop(&mut self) -> Result<(), EngineError>;
}

#[derive(Clone, Copy, Debug, PartialEq, Eq, Structural)]
pub enum PlaybackStatus {
    Stopped,
    Playing,
    Paused,
    /// An engine command failed; this does not claim that audio output has stopped.
    Failed,
}

impl Default for PlaybackStatus {
    fn default() -> (r: Self)
        ensures
            r == PlaybackStatus::Stopped,
    {
        PlaybackStatus::Stopped
    }
}

/// Plain application data; no decoder/backend types cross this boundary.
#[derive(Debug, PartialEq, Eq)]
pub struct EngineEvent {
    pub generation: u64,
    pub kind: EngineEventKind,
}

#[derive(Debug, PartialEq, Eq)]
pub enum EngineEventKind {
    State(PlaybackStatus),
    EndOfStream,
    Error(EngineError),
    Duration(Option<u64>),
    Position(u64),
}

#[derive(Debug, PartialEq, Eq)]
pub enum PlaybackError {
    InvalidVolume,
    EmptyQueue,
    NoAvailableSource(TrackId),
    Failed,
    /// A storage failure while resolving a source, by its message.
    Storage(String),
    Engine(EngineError),
}

#[derive(Debug)]
pub struct PlaybackState {
    pub queue: Vec<TrackId>,
    /// Selected queue entry, including an entry whose playback attempt failed.
    pub position: Option<usize>,
    /// Last confirmed state (Stopped for a newly selected input until it starts).
    pub status: PlaybackStatus,
    /// Accepted asynchronous command awaiting confirmation; never an optimistic actual state.
    pub pending: Option<PlaybackStatus>,
    /// Media clock, distinct from the queue index. Stop resets it immediately.
    pub media_position_ms: u64,
    pub duration_ms: Option<u64>,
    /// Selected input source (possibly still loading), cleared on stop or engine failure.
    pub source: Option<PlayableSource>,
}

/// A command the controller gave the engine.
#[derive(Debug)]
pub enum EngineCommand {
    /// Start this source from its beginning.
    Start(PlayableSource),
    Pause,
    Resume,
    Stop,
}

/// The commands a stop gives: none when idle, else one stop.
pub open spec fn stop_commands(s: PlaybackState) -> Seq<EngineCommand> {
    if idle(s) {
        Seq::empty()
    } else {
        seq![EngineCommand::Stop]
    }
}

/// The status a command last asked for: the pending one, else the confirmed one.
pub open spec fn requested(s: PlaybackState) -> PlaybackStatus {
    match s.pending {
        Some(p) => p,
        None => s.status,
    }
}

/// The selected entry lies in the queue.
pub open spec fn well_formed(s: PlaybackState) -> bool {
    s.position matches Some(p) ==> p < s.queue@.len()
}

/// No source is selected and the media clock is reset.
pub open spec fn cleared(s: PlaybackState) -> bool {
    s.source is None && s.media_position_ms == 0 && s.duration_ms is None
}

/// An engine failure: Failed, nothing pending, no source, clocks reset.
pub open spec fn failed(s: PlaybackState) -> bool {
    s.status == PlaybackStatus::Failed && s.pending is None && cleared(s)
}

/// A command toward `target` was accepted from confirmed status `before`:
/// confirmed at once by a synchronous engine, or awaiting confirmation.
pub open spec fn accepted(before: PlaybackStatus, after: PlaybackState, target: PlaybackStatus) -> bool {
    (after.status == target && after.pending is None) || (after.status == before && after.pending
        == Some(target))
}

/// Stopped, with nothing pending.
pub open spec fn idle(s: PlaybackState) -> bool {
    s.status == PlaybackStatus::Stopped && s.pending is None
}

/// A stop reached the engine: accepted, or the engine failed.
pub open spec fn stopped(before: PlaybackState, after: PlaybackState, r: Result<(), PlaybackError>) -> bool {
    match r {
        Ok(()) => accepted(before.status, after, PlaybackStatus::Stopped),
        Err(e) => e is Engine && failed(after),
    }
}

/// What a stop does: the selection stays, the source is cleared; an idle
/// controller is left as it is, otherwise the engine is told to stop and every
/// earlier event becomes stale.
pub open spec fn stop_outcome(
    before: PlaybackState,
    after: PlaybackState,
    g0: u64,
    g1: u64,
    r: Result<(), PlaybackError>,
    c0: Seq<EngineCommand>,
    c1: Seq<EngineCommand>,
) -> bool {
    &&& c1 == c0 + stop_commands(before)
    &&& same_selection(after, before)
    &&& cleared(after)
    &&& idle(before) ==> r is Ok && idle(after) && g1 == g0
    &&& !idle(before) ==> stopped(before, after, r) && g0 < g1 <= g0 + 2
}

/// Forget whether a navigation moved.
pub open spec fn unit(r: Result<bool, PlaybackError>) -> Result<(), PlaybackError> {
    match r {
        Ok(_) => Ok(()),
        Err(e) => Err(e),
    }
}

/// What selecting entry `p` and starting it does: the entry is selected even
/// when it cannot play; on success its source, as the lookup gave it, is
/// started from the beginning; on failure nothing is left playing under the
/// new selection.
pub open spec fn started<F: Fn(&TrackId) -> Result<Option<PlayableSource>, PlaybackError>>(
    lookup: F,
    before: PlaybackState,
    after: PlaybackState,
    p: int,
    g0: u64,
    g1: u64,
    r: Result<(), PlaybackError>,
    c0: Seq<EngineCommand>,
    c1: Seq<EngineCommand>,
) -> bool {
    exists|found: Result<Option<PlayableSource>, PlaybackError>|
        #[trigger] started_from(lookup, before, after, p, g0, g1, r, c0, c1, found)
}

/// The commands a start gives, from what the lookup found for the entry. A
/// found source is started, after a stop that recovers a failed engine;
/// otherwise the old input is stopped and the lookup's refusal reported
/// (`NoAvailableSource` for an entry without a source), unless the stop
/// itself failed.
pub open spec fn start_commands(
    before: PlaybackState,
    after: PlaybackState,
    p: int,
    found: Result<Option<PlayableSource>, PlaybackError>,
    r: Result<(), PlaybackError>,
    c0: Seq<EngineCommand>,
    c1: Seq<EngineCommand>,
) -> bool {
    match found {
        Ok(Some(s)) => {
            &&& if before.status == PlaybackStatus::Failed {
                c1 == c0 + seq![EngineCommand::Stop, EngineCommand::Start(s)] || (c1 == c0 + seq![
                    EngineCommand::Stop,
                ] && (r matches Err(PlaybackError::Engine(_))))
            } else {
                c1 == c0 + seq![EngineCommand::Start(s)]
            }
            &&& r is Ok ==> after.source == Some(s)
        },
        Ok(None) => c1 == c0 + stop_commands(before) && (r == Err::<(), PlaybackError>(
            PlaybackError::NoAvailableSource(before.queue@[p]),
        ) || (!idle(before) && (r matches Err(PlaybackError::Engine(_))))),
        Err(e) => c1 == c0 + stop_commands(before) && (r == Err::<(), PlaybackError>(e) || (!idle(
            before,
        ) && (r matches Err(PlaybackError::Engine(_))))),
    }
}

/// Selecting entry `p` and starting it, the lookup having found `found`.
pub open spec fn started_from<F: Fn(&TrackId) -> Result<Option<PlayableSource>, PlaybackError>>(
    lookup: F,
    before: PlaybackState,
    after: PlaybackState,
    p: int,
    g0: u64,
    g1: u64,
    r: Result<(), PlaybackError>,
    c0: Seq<EngineCommand>,
    c1: Seq<EngineCommand>,
    found: Result<Option<PlayableSource>, PlaybackError>,
) -> bool {
    &&& lookup.ensures((&before.queue@[p],), found)
    &&& start_commands(before, after, p, found, r, c0, c1)
    &&& after.queue@ == before.queue@
    &&& after.position == Some(p as usize)
    &&& g0 <= g1 <= g0 + 4
    &&& match r {
        Ok(()) => {
            &&& after.source matches Some(s) && lookup.ensures(
                (&before.queue@[p],),
                Ok::<Option<PlayableSource>, PlaybackError>(Some(s)),
            )
            &&& accepted(PlaybackStatus::Stopped, after, PlaybackStatus::Playing)
            &&& after.media_position_ms == 0
            &&& after.duration_ms is None
            &&& g0 < g1
        },
        Err(e) => cleared(after) && (requested(after) == PlaybackStatus::Stopped || requested(after)
            == PlaybackStatus::Failed),
    }
}

/// What moving to the next entry does: at the last entry stop without
/// wrapping and report no move.
pub open spec fn advanced<F: Fn(&TrackId) -> Result<Option<PlayableSource>, PlaybackError>>(
    lookup: F,
    before: PlaybackState,
    after: PlaybackState,
    g0: u64,
    g1: u64,
    r: Result<bool, PlaybackError>,
    c0: Seq<EngineCommand>,
    c1: Seq<EngineCommand>,
) -> bool {
    match before.position {
        None => r == Err::<bool, PlaybackError>(PlaybackError::EmptyQueue) && after == before && g1
            == g0 && c1 == c0,
        Some(p) => if p + 1 == before.queue@.len() {
            (r is Ok ==> r == Ok::<bool, PlaybackError>(false)) && stop_outcome(
                before,
                after,
                g0,
                g1,
                unit(r),
                c0,
                c1,
            )
        } else {
            (r is Ok ==> r == Ok::<bool, PlaybackError>(true)) && started(
                lookup,
                before,
                after,
                p + 1,
                g0,
                g1,
                unit(r),
                c0,
                c1,
            )
        },
    }
}

/// A command toward `target` that reached the engine: accepted with the media
/// untouched, or failed.
pub open spec fn commanded(
    before: PlaybackState,
    after: PlaybackState,
    target: PlaybackStatus,
    g0: u64,
    g1: u64,
    r: Result<(), PlaybackError>,
    c0: Seq<EngineCommand>,
    c1: Seq<EngineCommand>,
    command: EngineCommand,
) -> bool {
    &&& c1 == c0.push(command)
    &&& match r {
        Ok(()) => accepted(before.status, after, target) && same_media(after, before) && g1 == g0,
        Err(e) => e is Engine && failed(after) && same_selection(after, before) && g1 == g0 + 1,
    }
}

/// What a current event does. A state confirms only the latest requested
/// target; positions and durations apply to a selected source; an error fails
/// the engine; an end of stream is consumed, then moves to the next entry.
pub open spec fn handled<F: Fn(&TrackId) -> Result<Option<PlayableSource>, PlaybackError>>(
    lookup: F,
    kind: EngineEventKind,
    before: PlaybackState,
    after: PlaybackState,
    g0: u64,
    g1: u64,
    r: Result<bool, PlaybackError>,
    c0: Seq<EngineCommand>,
    c1: Seq<EngineCommand>,
) -> bool {
    &&& !(kind is EndOfStream && before.source is Some) ==> c1 == c0
    &&& match kind {
        EngineEventKind::State(s) => if s == PlaybackStatus::Failed || s != requested(before) {
            r == Ok::<bool, PlaybackError>(false) && after == before && g1 == g0
        } else {
            r == Ok::<bool, PlaybackError>(true) && after.status == s && after.pending is None
                && same_media(after, before) && g1 == g0
        },
        EngineEventKind::Position(ms) => if before.source is None {
            r == Ok::<bool, PlaybackError>(false) && after == before && g1 == g0
        } else {
            r == Ok::<bool, PlaybackError>(true) && after == (PlaybackState {
                media_position_ms: ms,
                ..before
            }) && g1 == g0
        },
        EngineEventKind::Duration(ms) => if before.source is None {
            r == Ok::<bool, PlaybackError>(false) && after == before && g1 == g0
        } else {
            r == Ok::<bool, PlaybackError>(true) && after == (PlaybackState { duration_ms: ms, ..before })
                && g1 == g0
        },
        EngineEventKind::Error(e) => r == Err::<bool, PlaybackError>(PlaybackError::Engine(e))
            && failed(after) && same_selection(after, before) && g1 == g0 + 1,
        EngineEventKind::EndOfStream => if before.source is None {
            r == Ok::<bool, PlaybackError>(false) && after == before && g1 == g0
        } else {
            g0 < g1 && (r is Ok ==> r == Ok::<bool, PlaybackError>(true)) && exists|moved: Result<
                bool,
                PlaybackError,
            >|
                #![trigger unit(moved)]
                unit(moved) == unit(r) && advanced(
                    lookup,
                    before,
                    after,
                    (g0 + 1) as u64,
                    g1,
                    moved,
                    c0,
                    c1,
                )
        },
    }
}

/// The queue and the selected entry are as before.
pub open spec fn same_selection(a: PlaybackState, b: PlaybackState) -> bool {
    a.queue@ == b.queue@ && a.position == b.position
}

/// Only the status and pending command may differ.
pub open spec fn same_media(a: PlaybackState, b: PlaybackState) -> bool {
    same_selection(a, b) && a.source == b.source && a.media_position_ms == b.media_position_ms
        && a.duration_ms == b.duration_ms
}

impl PlaybackState {
    pub fn can_next(&self) -> (r: bool)
        ensures
            r == (self.position matches Some(p) && p + 1 < self.queue@.len()),
    {
        match self.position {
            Some(p) => self.queue.len() > 0 && p < self.queue.len() - 1,
            None => false,
        }
    }

    pub fn can_previous(&self) -> (r: bool)
        ensures
            r == (self.position matches Some(p) && p > 0),
    {
        match self.position {
            Some(p) => p > 0,
            None => false,
        }
    }

    pub fn current_track(&self) -> (r: Option<&TrackId>)
        ensures
            match self.position {
                Some(p) => if p < self.queue@.len() {
                    r == Some(&self.queue@[p as int])
                } else {
                    r is None
                },
                None => r is None,
            },
    {
        match self.position {
            Some(p) => if p < self.queue.len() {
                Some(&self.queue[p])
            } else {
                None
            },
            None => None,
        }
    }
}

/// The generations a single command may use up.
pub open spec fn generation_room(g: u64) -> bool {
    g <= u64::MAX - 8
}

/// Owns the engine and session state. Mutations are available only through
/// application commands.
pub struct Playback<E> {
    engine: E,
    state: PlaybackState,
    generation: u64,
    /// Every command given to the engine, in order.
    log: Ghost<Seq<EngineCommand>>,
}

impl<E: PlaybackEngine> Playback<E> {
    /// The session state.
    pub closed spec fn current(&self) -> PlaybackState {
        self.state
    }

    /// The generation that events must carry to be current.
    pub closed spec fn generation(&self) -> u64 {
        self.generation
    }

    /// The commands given to the engine so far, in order.
    pub closed spec fn commands(&self) -> Seq<EngineCommand> {
        self.log@
    }

    pub fn new(engine: E) -> (r: Self)
        ensures
            r.current().queue@.len() == 0,
            r.current().position is None,
            r.current().status == PlaybackStatus::Stopped,
            r.current().pending is None,
            cleared(r.current()),
            r.generation() == 0,
            r.commands().len() == 0,
    {
        Playback {
            engine,
            state: PlaybackState {
                queue: Vec::new(),
                position: None,
                status: PlaybackStatus::Stopped,
                pending: None,
                media_position_ms: 0,
                duration_ms: None,
                source: None,
            },
            generation: 0,
            log: Ghost(Seq::empty()),
        }
    }

    pub fn state(&self) -> (r: &PlaybackState)
        ensures
            *r == self.current(),
    {
        &self.state
    }

    /// Whether every command and event still has generations to use; the
    /// controller refuses to run out of them.
    pub fn generations_left(&self) -> (r: bool)
        ensures
            r == (self.generation() < u64::MAX - 8),
    {
        self.generation < u64::MAX - 8
    }

    fn new_generation(&mut self)
        requires
            old(self).generation < u64::MAX,
        ensures
            final(self).generation == old(self).generation + 1,
            final(self).state == old(self).state,
            final(self).log == old(self).log,
    {
        self.generation = self.generation + 1;
        self.engine.set_event_generation(self.generation);
    }

    fn accept_command(&mut self, target: PlaybackStatus)
        ensures
            accepted(old(self).state.status, final(self).state, target),
            same_media(final(self).state, old(self).state),
            final(self).generation == old(self).generation,
            final(self).log == old(self).log,
    {
        if self.engine.asynchronous() {
            self.state.pending = Some(target);
        } else {
            self.state.status = target;
            self.state.pending = None;
        }
    }

    fn acknowledge(&mut self, result: Result<(), EngineError>) -> (r: Result<(), PlaybackError>)
        requires
            old(self).generation < u64::MAX,
        ensures
            final(self).log == old(self).log,
            match result {
                Ok(()) => r is Ok && final(self).state == old(self).state && final(self).generation
                    == old(self).generation,
                Err(e) => r == Err::<(), PlaybackError>(PlaybackError::Engine(e)) && failed(
                    final(self).state,
                ) && same_selection(final(self).state, old(self).state) && final(self).generation
                    == old(self).generation + 1,
            },
    {
        match result {
            Ok(()) => Ok(()),
            Err(error) => {
                self.new_generation();
                self.state.status = PlaybackStatus::Failed;
                self.state.pending = None;
                self.state.source = None;
                self.state.media_position_ms = 0;
                self.state.duration_ms = None;
                Err(PlaybackError::Engine(error))
            },
        }
    }

    /// Stop output, retaining the queue and current position. Play will
    /// resolve a source afresh. A stop that reaches the engine invalidates
    /// every earlier event, even before it completes.
    pub fn stop(&mut self) -> (r: Result<(), PlaybackError>)
        requires
            generation_room(old(self).generation()),
        ensures
            stop_outcome(
                old(self).current(),
                final(self).current(),
                old(self).generation(),
                final(self).generation(),
                r,
                old(self).commands(),
                final(self).commands(),
            ),
    {
        let ghost c0 = self.log@;
        if self.state.status != PlaybackStatus::Stopped || self.state.pending.is_some() {
            self.new_generation();
            let result = self.engine.stop();
            self.log = Ghost(self.log@.push(EngineCommand::Stop));
            assert(self.log@ =~= c0 + seq![EngineCommand::Stop]);
            self.acknowledge(result)?;
            self.accept_command(PlaybackStatus::Stopped);
        } else {
            assert(self.log@ =~= c0 + Seq::<EngineCommand>::empty());
        }
        self.state.source = None;
        self.state.media_position_ms = 0;
        self.state.duration_ms = None;
        Ok(())
    }

    /// Append without disturbing playback or consuming earlier entries.
    /// Duplicates are allowed. The first append selects position zero without
    /// starting playback.
    pub fn enqueue(&mut self, track_id: TrackId)
        ensures
            final(self).current().queue@ == old(self).current().queue@.push(track_id),
            final(self).current().position == (match old(self).current().position {
                Some(p) => Some(p),
                None => Some(0usize),
            }),
            final(self).current().status == old(self).current().status,
            final(self).current().pending == old(self).current().pending,
            final(self).current().source == old(self).current().source,
            final(self).current().media_position_ms == old(self).current().media_position_ms,
            final(self).current().duration_ms == old(self).current().duration_ms,
            final(self).generation() == old(self).generation(),
            final(self).commands() == old(self).commands(),
    {
        self.state.queue.push(track_id);
        if self.state.position.is_none() {
            self.state.position = Some(0);
        }
    }

    fn start_at<F: Fn(&TrackId) -> Result<Option<PlayableSource>, PlaybackError>>(
        &mut self,
        lookup: &F,
        position: usize,
    ) -> (r: (Result<(), PlaybackError>, Ghost<Result<Option<PlayableSource>, PlaybackError>>))
        requires
            position < old(self).state.queue@.len(),
            generation_room(old(self).generation),
            forall|t: &TrackId| lookup.requires((t,)),
        ensures
            started_from(
                *lookup,
                old(self).state,
                final(self).state,
                position as int,
                old(self).generation,
                final(self).generation,
                r.0,
                old(self).log@,
                final(self).log@,
                r.1@,
            ),
    {
        // Selection is independent of successful playback: another Next or
        // Previous must move past a failed entry rather than retrying it.
        let ghost c0 = self.log@;
        self.state.position = Some(position);
        let found = lookup(&self.state.queue[position]);
        let ghost looked = found;
        let source = match found {
            Ok(Some(source)) => source,
            Ok(None) => {
                let error = PlaybackError::NoAvailableSource(self.state.queue[position].clone());
                // Do not leave the old Track playing under the newly selected entry.
                return match self.stop() {
                    Ok(()) => (Err(error), Ghost(looked)),
                    Err(e) => (Err(e), Ghost(looked)),
                };
            },
            Err(error) => {
                return match self.stop() {
                    Ok(()) => (Err(error), Ghost(looked)),
                    Err(e) => (Err(e), Ghost(looked)),
                };
            },
        };
        let was_failed = self.state.status == PlaybackStatus::Failed;
        if was_failed {
            match self.stop() {
                Ok(()) => {},
                Err(e) => return (Err(e), Ghost(looked)),
            }
        }
        let ghost c_mid = self.log@;
        assert(was_failed ==> c_mid =~= c0 + seq![EngineCommand::Stop]);
        assert(!was_failed ==> c_mid =~= c0);
        self.new_generation();
        self.state.status = PlaybackStatus::Stopped;
        self.state.pending = None;
        self.state.media_position_ms = 0;
        self.state.duration_ms = None;
        let result = self.engine.start(&source);
        self.log = Ghost(self.log@.push(EngineCommand::Start(source)));
        assert(was_failed ==> self.log@ =~= c0 + seq![EngineCommand::Stop, EngineCommand::Start(source)]);
        assert(!was_failed ==> self.log@ =~= c0 + seq![EngineCommand::Start(source)]);
        match self.acknowledge(result) {
            Ok(()) => {},
            Err(e) => return (Err(e), Ghost(looked)),
        }
        self.state.source = Some(source);
        self.accept_command(PlaybackStatus::Playing);
        (Ok(()), Ghost(looked))
    }

    /// Resume a paused input, or resolve and start the current queue entry.
    pub fn play<F: Fn(&TrackId) -> Result<Option<PlayableSource>, PlaybackError>>(
        &mut self,
        lookup: &F,
    ) -> (r: Result<(), PlaybackError>)
        requires
            well_formed(old(self).current()),
            generation_room(old(self).generation()),
            forall|t: &TrackId| lookup.requires((t,)),
        ensures
            well_formed(final(self).current()),
            match old(self).current().position {
                None => r == Err::<(), PlaybackError>(PlaybackError::EmptyQueue) && final(self).current() == old(self).current() && final(self).generation() == old(self).generation() && final(self).commands() == old(self).commands(),
                Some(p) => match requested(old(self).current()) {
                    PlaybackStatus::Playing => r is Ok && final(self).current() == old(self).current() && final(self).generation() == old(self).generation() && final(self).commands() == old(self).commands(),
                    PlaybackStatus::Paused => commanded(
                        old(self).current(),
                        final(self).current(),
                        PlaybackStatus::Playing,
                        old(self).generation(),
                        final(self).generation(),
                        r,
                        old(self).commands(),
                        final(self).commands(),
                        EngineCommand::Resume,
                    ),
                    _ => started(
                        *lookup,
                        old(self).current(),
                        final(self).current(),
                        p as int,
                        old(self).generation(),
                        final(self).generation(),
                        r,
                        old(self).commands(),
                        final(self).commands(),
                    ),
                },
            },
    {
        let position = match self.state.position {
            Some(p) => p,
            None => return Err(PlaybackError::EmptyQueue),
        };
        let requested = match self.state.pending {
            Some(p) => p,
            None => self.state.status,
        };
        match requested {
            PlaybackStatus::Playing => Ok(()),
            PlaybackStatus::Paused => {
                let result = self.engine.resume();
                self.log = Ghost(self.log@.push(EngineCommand::Resume));
                self.acknowledge(result)?;
                self.accept_command(PlaybackStatus::Playing);
                Ok(())
            },
            _ => {
                let (result, found) = self.start_at(lookup, position);
                result
            },
        }
    }

    pub fn pause(&mut self) -> (r: Result<(), PlaybackError>)
        requires
            generation_room(old(self).generation()),
        ensures
            match requested(old(self).current()) {
                PlaybackStatus::Playing => commanded(
                    old(self).current(),
                    final(self).current(),
                    PlaybackStatus::Paused,
                    old(self).generation(),
                    final(self).generation(),
                    r,
                    old(self).commands(),
                    final(self).commands(),
                    EngineCommand::Pause,
                ),
                PlaybackStatus::Failed => r == Err::<(), PlaybackError>(PlaybackError::Failed)
                    && final(self).current() == old(self).current() && final(self).generation()
                    == old(self).generation() && final(self).commands() == old(self).commands(),
                _ => r is Ok && final(self).current() == old(self).current() && final(self).generation() == old(self).generation() && final(self).commands() == old(self).commands(),
            },
    {
        let requested = match self.state.pending {
            Some(p) => p,
            None => self.state.status,
        };
        match requested {
            PlaybackStatus::Playing => {
                let result = self.engine.pause();
                self.log = Ghost(self.log@.push(EngineCommand::Pause));
                self.acknowledge(result)?;
                self.accept_command(PlaybackStatus::Paused);
                Ok(())
            },
            PlaybackStatus::Failed => Err(PlaybackError::Failed),
            _ => Ok(()),
        }
    }

    /// Start the next entry. At the end, stop without wrapping and return false.
    pub fn next<F: Fn(&TrackId) -> Result<Option<PlayableSource>, PlaybackError>>(
        &mut self,
        lookup: &F,
    ) -> (r: Result<bool, PlaybackError>)
        requires
            well_formed(old(self).current()),
            generation_room(old(self).generation()),
            forall|t: &TrackId| lookup.requires((t,)),
        ensures
            well_formed(final(self).current()),
            advanced(
                *lookup,
                old(self).current(),
                final(self).current(),
                old(self).generation(),
                final(self).generation(),
                r,
                old(self).commands(),
                final(self).commands(),
            ),
    {
        let position = match self.state.position {
            Some(p) => p,
            None => return Err(PlaybackError::EmptyQueue),
        };
        let len = self.state.queue.len();
        assert(position < len);
        if position + 1 == len {
            self.stop()?;
            return Ok(false);
        }
        let (result, found) = self.start_at(lookup, position + 1);
        result?;
        Ok(true)
    }

    /// Start the preceding entry; at the first entry return false without
    /// changing playback.
    pub fn previous<F: Fn(&TrackId) -> Result<Option<PlayableSource>, PlaybackError>>(
        &mut self,
        lookup: &F,
    ) -> (r: Result<bool, PlaybackError>)
        requires
            well_formed(old(self).current()),
            generation_room(old(self).generation()),
            forall|t: &TrackId| lookup.requires((t,)),
        ensures
            well_formed(final(self).current()),
            match old(self).current().position {
                None => r == Err::<bool, PlaybackError>(PlaybackError::EmptyQueue) && final(self).current() == old(self).current() && final(self).generation() == old(self).generation() && final(self).commands() == old(self).commands(),
                Some(p) => if p == 0 {
                    r == Ok::<bool, PlaybackError>(false) && final(self).current() == old(self).current() && final(self).generation() == old(self).generation() && final(self).commands() == old(self).commands()
                } else {
                    (r is Ok ==> r == Ok::<bool, PlaybackError>(true)) && started(
                        *lookup,
                        old(self).current(),
                        final(self).current(),
                        p - 1,
                        old(self).generation(),
                        final(self).generation(),
                        unit(r),
                        old(self).commands(),
                        final(self).commands(),
                    )
                },
            },
    {
        let position = match self.state.position {
            Some(p) => p,
            None => return Err(PlaybackError::EmptyQueue),
        };
        if position == 0 {
            return Ok(false);
        }
        let (result, found) = self.start_at(lookup, position - 1);
        result?;
        Ok(true)
    }

    /// Stop first; if stopping fails the existing queue and position are
    /// preserved.
    pub fn set_queue(&mut self, queue: Vec<TrackId>) -> (r: Result<(), PlaybackError>)
        requires
            generation_room(old(self).generation()),
        ensures
            well_formed(final(self).current()) || r is Err,
            final(self).commands() == old(self).commands() + stop_commands(old(self).current()),
            match r {
                Ok(()) => {
                    &&& final(self).current().queue@ == queue@
                    &&& final(self).current().position == if queue@.len() == 0 {
                        None
                    } else {
                        Some(0usize)
                    }
                    &&& cleared(final(self).current())
                    &&& idle(old(self).current()) ==> idle(final(self).current())
                    &&& !idle(old(self).current()) ==> accepted(
                        old(self).current().status,
                        final(self).current(),
                        PlaybackStatus::Stopped,
                    )
                },
                Err(e) => e is Engine && failed(final(self).current()) && same_selection(
                    final(self).current(),
                    old(self).current(),
                ),
            },
    {
        self.stop()?;
        self.state.position = if queue.len() == 0 {
            None
        } else {
            Some(0)
        };
        self.state.queue = queue;
        Ok(())
    }

    /// Stop and empty the queue. If the engine cannot stop, retain the queue
    /// and report failure.
    pub fn clear_queue(&mut self) -> (r: Result<(), PlaybackError>)
        requires
            generation_room(old(self).generation()),
        ensures
            final(self).commands() == old(self).commands() + stop_commands(old(self).current()),
            match r {
                Ok(()) => final(self).current().queue@.len() == 0 && final(self).current().position
                    is None && cleared(final(self).current()),
                Err(e) => e is Engine && failed(final(self).current()) && same_selection(
                    final(self).current(),
                    old(self).current(),
                ),
            },
    {
        self.set_queue(Vec::new())
    }

    /// Apply an engine event on the application's owning thread. Returns false
    /// for stale or irrelevant events. End of stream advances exactly once, and
    /// surfaces an unplayable neighbour without skipping it.
    pub fn handle_event<F: Fn(&TrackId) -> Result<Option<PlayableSource>, PlaybackError>>(
        &mut self,
        lookup: &F,
        event: EngineEvent,
    ) -> (r: Result<bool, PlaybackError>)
        requires
            well_formed(old(self).current()),
            old(self).generation() < u64::MAX - 8,
            forall|t: &TrackId| lookup.requires((t,)),
        ensures
            well_formed(final(self).current()),
            event.generation != old(self).generation() ==> r == Ok::<bool, PlaybackError>(false)
                && final(self).current() == old(self).current() && final(self).generation() == old(
            self).generation() && final(self).commands() == old(self).commands(),
            event.generation == old(self).generation() ==> handled(
                *lookup,
                event.kind,
                old(self).current(),
                final(self).current(),
                old(self).generation(),
                final(self).generation(),
                r,
                old(self).commands(),
                final(self).commands(),
            ),
    {
        if event.generation != self.generation {
            return Ok(false);
        }
        match event.kind {
            EngineEventKind::State(status) => {
                // State messages carry no operation id: only the latest
                // requested target is confirmed, so a delayed Playing cannot
                // undo a pending Pause.
                let requested = match self.state.pending {
                    Some(p) => p,
                    None => self.state.status,
                };
                if status == PlaybackStatus::Failed || status != requested {
                    return Ok(false);
                }
                self.state.status = status;
                self.state.pending = None;
            },
            EngineEventKind::Position(ms) => {
                if self.state.source.is_none() {
                    return Ok(false);
                }
                self.state.media_position_ms = ms;
            },
            EngineEventKind::Duration(ms) => {
                if self.state.source.is_none() {
                    return Ok(false);
                }
                self.state.duration_ms = ms;
            },
            EngineEventKind::Error(error) => {
                self.acknowledge(Err(error))?;
            },
            EngineEventKind::EndOfStream => {
                if self.state.source.is_none() {
                    return Ok(false);
                }
                // Consume the end of stream before navigating, errors included.
                self.new_generation();
                self.next(lookup)?;
            },
        }
        Ok(true)
    }
}

/// An end of stream is consumed when it is handled: the generation moves on,
/// so the same event is stale afterwards and cannot advance the queue twice.
pub proof fn lemma_end_of_stream_consumed<F: Fn(&TrackId) -> Result<
    Option<PlayableSource>,
    PlaybackError,
>>(
    lookup: F,
    before: PlaybackState,
    after: PlaybackState,
    g0: u64,
    g1: u64,
    r: Result<bool, PlaybackError>,
    c0: Seq<EngineCommand>,
    c1: Seq<EngineCommand>,
)
    requires
        handled(lookup, EngineEventKind::EndOfStream, before, after, g0, g1, r, c0, c1),
        before.source is Some,
    ensures
        g1 != g0,
{
}

/// A start that fails still selects its entry, and leaves nothing playing or
/// paused under that selection.
pub proof fn lemma_failed_start_plays_nothing<F: Fn(&TrackId) -> Result<
    Option<PlayableSource>,
    PlaybackError,
>>(
    lookup: F,
    before: PlaybackState,
    after: PlaybackState,
    p: int,
    g0: u64,
    g1: u64,
    e: PlaybackError,
    c0: Seq<EngineCommand>,
    c1: Seq<EngineCommand>,
)
    requires
        started(lookup, before, after, p, g0, g1, Err(e), c0, c1),
    ensures
        after.position == Some(p as usize),
        after.source is None,
        requested(after) != PlaybackStatus::Playing,
        requested(after) != PlaybackStatus::Paused,
{
    let found = choose|found: Result<Option<PlayableSource>, PlaybackError>|
        #[trigger] started_from(lookup, before, after, p, g0, g1, Err(e), c0, c1, found);
}

/// A successful start's last command starts exactly the source the lookup
/// gave for the entry, and that source is the one now selected.
pub proof fn lemma_start_uses_found_source<F: Fn(&TrackId) -> Result<
    Option<PlayableSource>,
    PlaybackError,
>>(
    lookup: F,
    before: PlaybackState,
    after: PlaybackState,
    p: int,
    g0: u64,
    g1: u64,
    c0: Seq<EngineCommand>,
    c1: Seq<EngineCommand>,
)
    requires
        started(lookup, before, after, p, g0, g1, Ok(()), c0, c1),
    ensures
        after.source is Some,
        c1.len() > c0.len(),
        c1.last() == EngineCommand::Start(after.source->0),
        lookup.ensures(
            (&before.queue@[p],),
            Ok::<Option<PlayableSource>, PlaybackError>(Some(after.source->0)),
        ),
{
    let found = choose|found: Result<Option<PlayableSource>, PlaybackError>|
        #[trigger] started_from(lookup, before, after, p, g0, g1, Ok(()), c0, c1, found);
}

/// Moving past the last entry never wraps and never starts the engine: the
/// selection stays on it, no move is reported, and at most a stop is given.
pub proof fn lemma_next_never_wraps<F: Fn(&TrackId) -> Result<
    Option<PlayableSource>,
    PlaybackError,
>>(
    lookup: F,
    before: PlaybackState,
    after: PlaybackState,
    g0: u64,
    g1: u64,
    r: Result<bool, PlaybackError>,
    p: usize,
    c0: Seq<EngineCommand>,
    c1: Seq<EngineCommand>,
)
    requires
        advanced(lookup, before, after, g0, g1, r, c0, c1),
        before.position == Some(p),
        p + 1 == before.queue@.len(),
    ensures
        after.position == Some(p),
        after.queue@ == before.queue@,
        r is Ok ==> r == Ok::<bool, PlaybackError>(false),
        cleared(after),
        c1 == c0 || c1 == c0.push(EngineCommand::Stop),
{
    if !idle(before) {
        assert(c0 + seq![EngineCommand::Stop] =~= c0.push(EngineCommand::Stop));
    } else {
        assert(c0 + Seq::<EngineCommand>::empty() =~= c0);
    }
}

/// A state that is not the requested target, a position or duration without
/// a selected source, and an engine error give the engine no command and,
/// but for an error, leave the session as it was.
pub proof fn lemma_rejected_events_reach_no_engine<F: Fn(&TrackId) -> Result<
    Option<PlayableSource>,
    PlaybackError,
>>(
    lookup: F,
    kind: EngineEventKind,
    before: PlaybackState,
    after: PlaybackState,
    g0: u64,
    g1: u64,
    r: Result<bool, PlaybackError>,
    c0: Seq<EngineCommand>,
    c1: Seq<EngineCommand>,
)
    requires
        handled(lookup, kind, before, after, g0, g1, r, c0, c1),
        !(kind is EndOfStream && before.source is Some),
    ensures
        c1 == c0,
        r == Ok::<bool, PlaybackError>(false) ==> after == before && g1 == g0,
{
}

} // verus!
