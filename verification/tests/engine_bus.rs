use music_library::engine_bus::{bus_action, BusAction, BusMessage, PlayState};
use music_library::playback::{EngineError, EngineEventKind, PlaybackStatus};

#[test]
fn state_changes_and_stream_events_are_forwarded() {
    assert_eq!(
        bus_action(BusMessage::StateChanged(PlayState::Playing), false, &None),
        BusAction::Emit(EngineEventKind::State(PlaybackStatus::Playing))
    );
    assert_eq!(
        bus_action(BusMessage::StateChanged(PlayState::Paused), false, &None),
        BusAction::Emit(EngineEventKind::State(PlaybackStatus::Paused))
    );
    assert_eq!(
        bus_action(BusMessage::StateChanged(PlayState::Stopped), true, &None),
        BusAction::Emit(EngineEventKind::State(PlaybackStatus::Stopped))
    );
    assert_eq!(bus_action(BusMessage::StateChanged(PlayState::Buffering), false, &None), BusAction::Ignore);
    assert_eq!(bus_action(BusMessage::EndOfStream, false, &None), BusAction::Emit(EngineEventKind::EndOfStream));
    assert_eq!(
        bus_action(BusMessage::Error("decoder failed (details)".into()), false, &None),
        BusAction::Emit(EngineEventKind::Error(EngineError("decoder failed (details)".into())))
    );
    assert_eq!(
        bus_action(BusMessage::DurationChanged(Some(1500)), false, &None),
        BusAction::Emit(EngineEventKind::Duration(Some(1500)))
    );
    assert_eq!(
        bus_action(BusMessage::DurationChanged(None), false, &None),
        BusAction::Emit(EngineEventKind::Duration(None))
    );
    assert_eq!(
        bus_action(BusMessage::PositionUpdated(Some(20)), false, &None),
        BusAction::Emit(EngineEventKind::Position(20))
    );
    assert_eq!(bus_action(BusMessage::PositionUpdated(None), false, &None), BusAction::Ignore);
    assert_eq!(bus_action(BusMessage::Other, false, &None), BusAction::Ignore);
    assert_eq!(
        bus_action(BusMessage::Warning("no device".into()), false, &None),
        BusAction::Remember("no device".into())
    );
}

#[test]
fn automatic_silent_fallback_is_refused_with_the_last_warning() {
    assert_eq!(
        bus_action(BusMessage::StateChanged(PlayState::Playing), true, &Some("pulse down".into())),
        BusAction::Halt(EngineError(
            "No usable audio output: GStreamer selected a silent fallback. pulse down".into()
        ))
    );
    assert_eq!(
        bus_action(BusMessage::StateChanged(PlayState::Playing), true, &None),
        BusAction::Halt(EngineError(
            "No usable audio output: GStreamer selected a silent fallback. Check the system audio service."
                .into()
        ))
    );
}
