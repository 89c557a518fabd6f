//! The audio engine's bus messages as playback events. The engine reports
//! state changes, stream ends, errors, durations and positions; the player
//! forwards what playback orchestration needs and refuses a silent output.
use vstd::prelude::*;

use crate::playback::{EngineError, EngineEventKind, PlaybackStatus};
use crate::text::{chars_of, string_of};

verus! {

/// The states the player reports.
#[derive(Clone, Copy, Debug, PartialEq, Eq, Structural)]
pub enum PlayState {
    Playing,
    Paused,
    Stopped,
    Buffering,
}

/// A bus message, its error and warning texts already rendered.
#[derive(Debug)]
pub enum BusMessage {
    StateChanged(PlayState),
    Warning(String),
    EndOfStream,
    Error(String),
    DurationChanged(Option<u64>),
    PositionUpdated(Option<u64>),
    Other,
}

/// What a bus message asks of the player.
#[derive(Debug, PartialEq, Eq)]
pub enum BusAction {
    /// Forward the event to playback.
    Emit(EngineEventKind),
    /// Keep the warning: it explains a later silent output.
    Remember(String),
    /// Nothing to forward.
    Ignore,
    /// Stop the player, report the error, and read no further messages now.
    Halt(EngineError),
}

pub open spec fn silent_output_text(warning: Option<Seq<char>>) -> Seq<char> {
    "No usable audio output: GStreamer selected a silent fallback. "@ + match warning {
        Some(w) => w,
        None => "Check the system audio service."@,
    }
}

/// The action for a message. `silent_output` tells whether, once playing,
/// the automatic output turned out to be the silent fallback; `warning` is
/// the last warning kept. Buffering and position-less updates are not
/// forwarded.
pub fn bus_action(m: BusMessage, silent_output: bool, warning: &Option<String>) -> (r: BusAction)
    ensures
        match m {
            BusMessage::StateChanged(PlayState::Playing) => if silent_output {
                r matches BusAction::Halt(e) && e.0@ == silent_output_text(
                    match warning {
                        Some(w) => Some(w@),
                        None => None,
                    },
                )
            } else {
                r == BusAction::Emit(EngineEventKind::State(PlaybackStatus::Playing))
            },
            BusMessage::StateChanged(PlayState::Paused) => r == BusAction::Emit(
                EngineEventKind::State(PlaybackStatus::Paused),
            ),
            BusMessage::StateChanged(PlayState::Stopped) => r == BusAction::Emit(
                EngineEventKind::State(PlaybackStatus::Stopped),
            ),
            BusMessage::StateChanged(PlayState::Buffering) => r == BusAction::Ignore,
            BusMessage::Warning(w) => r == BusAction::Remember(w),
            BusMessage::EndOfStream => r == BusAction::Emit(EngineEventKind::EndOfStream),
            BusMessage::Error(e) => r == BusAction::Emit(EngineEventKind::Error(EngineError(e))),
            BusMessage::DurationChanged(d) => r == BusAction::Emit(EngineEventKind::Duration(d)),
            BusMessage::PositionUpdated(Some(p)) => r == BusAction::Emit(EngineEventKind::Position(p)),
            BusMessage::PositionUpdated(None) => r == BusAction::Ignore,
            BusMessage::Other => r == BusAction::Ignore,
        },
{
    match m {
        BusMessage::StateChanged(PlayState::Playing) => {
            if silent_output {
                let mut text = chars_of("No usable audio output: GStreamer selected a silent fallback. ");
                let rest = match warning {
                    Some(w) => chars_of(w.as_str()),
                    None => chars_of("Check the system audio service."),
                };
                crate::text::append_chars(&mut text, &rest);
                BusAction::Halt(EngineError(string_of(text.as_slice())))
            } else {
                BusAction::Emit(EngineEventKind::State(PlaybackStatus::Playing))
            }
        },
        BusMessage::StateChanged(PlayState::Paused) => BusAction::Emit(
            EngineEventKind::State(PlaybackStatus::Paused),
        ),
        BusMessage::StateChanged(PlayState::Stopped) => BusAction::Emit(
            EngineEventKind::State(PlaybackStatus::Stopped),
        ),
        BusMessage::StateChanged(PlayState::Buffering) => BusAction::Ignore,
        BusMessage::Warning(w) => BusAction::Remember(w),
        BusMessage::EndOfStream => BusAction::Emit(EngineEventKind::EndOfStream),
        BusMessage::Error(e) => BusAction::Emit(EngineEventKind::Error(EngineError(e))),
        BusMessage::DurationChanged(d) => BusAction::Emit(EngineEventKind::Duration(d)),
        BusMessage::PositionUpdated(Some(p)) => BusAction::Emit(EngineEventKind::Position(p)),
        BusMessage::PositionUpdated(None) => BusAction::Ignore,
        BusMessage::Other => BusAction::Ignore,
    }
}

} // verus!
