use std::cell::Cell;
use std::rc::Rc;
use music_library::domain::{PlayableSource, SourceId, SourceLocation, TrackId};
use music_library::playback::{
    EngineError, EngineEvent, EngineEventKind, Playback, PlaybackEngine, PlaybackError,
    PlaybackStatus,
};

#[derive(Default)]
struct Engine {
    asynchronous: bool,
    fail_start: bool,
    fail_stop: bool,
    generation: Rc<Cell<u64>>,
    commands: Vec<String>,
}

impl PlaybackEngine for Engine {
    fn set_event_generation(&mut self, generation: u64) {
        self.generation.set(generation);
    }
    fn asynchronous(&self) -> bool {
        self.asynchronous
    }
    fn start(&mut self, source: &PlayableSource) -> Result<(), EngineError> {
        self.commands.push(format!("start {}", source.source_id.0));
        if self.fail_start {
            Err(EngineError("no output".into()))
        } else {
            Ok(())
        }
    }
    fn pause(&mut self) -> Result<(), EngineError> {
        self.commands.push("pause".into());
        Ok(())
    }
    fn resume(&mut self) -> Result<(), EngineError> {
        self.commands.push("resume".into());
        Ok(())
    }
    fn stop(&mut self) -> Result<(), EngineError> {
        self.commands.push("stop".into());
        if self.fail_stop {
            Err(EngineError("stuck".into()))
        } else {
            Ok(())
        }
    }
}

fn source(track: &TrackId) -> Result<Option<PlayableSource>, PlaybackError> {
    if track.0 == "missing" {
        return Ok(None);
    }
    Ok(Some(PlayableSource {
        source_id: SourceId(format!("source-{}", track.0)),
        location: SourceLocation::LocalFile(track.0.as_bytes().to_vec()),
    }))
}

fn tracks(ids: &[&str]) -> Vec<TrackId> {
    ids.iter().map(|id| TrackId(id.to_string())).collect()
}

#[test]
fn play_next_and_end_of_queue_without_wrapping() {
    let mut p = Playback::new(Engine::default());
    assert!(matches!(p.play(&source), Err(PlaybackError::EmptyQueue)));
    p.set_queue(tracks(&["a", "b"])).unwrap();
    assert_eq!(p.state().position, Some(0));
    p.play(&source).unwrap();
    assert_eq!(p.state().status, PlaybackStatus::Playing);
    assert_eq!(p.state().source.as_ref().unwrap().source_id.0, "source-a");
    assert_eq!(p.next(&source).unwrap(), true);
    assert_eq!(p.state().current_track(), Some(&TrackId("b".into())));
    assert!(!p.state().can_next());
    assert!(p.state().can_previous());
    assert_eq!(p.next(&source).unwrap(), false);
    assert_eq!(p.state().position, Some(1));
    assert_eq!(p.state().status, PlaybackStatus::Stopped);
    assert!(p.state().source.is_none());
    assert_eq!(p.previous(&source).unwrap(), true);
    assert_eq!(p.state().position, Some(0));
    assert_eq!(p.previous(&source).unwrap(), false);
}

#[test]
fn pause_resume_and_stop_keep_the_selection() {
    let mut p = Playback::new(Engine::default());
    p.enqueue(TrackId("a".into()));
    p.enqueue(TrackId("a".into()));
    assert_eq!(p.state().position, Some(0));
    assert_eq!(p.state().queue.len(), 2);
    p.play(&source).unwrap();
    p.pause().unwrap();
    assert_eq!(p.state().status, PlaybackStatus::Paused);
    p.play(&source).unwrap();
    assert_eq!(p.state().status, PlaybackStatus::Playing);
    p.stop().unwrap();
    assert_eq!(p.state().status, PlaybackStatus::Stopped);
    assert_eq!(p.state().position, Some(0));
    assert_eq!(p.state().media_position_ms, 0);
    p.clear_queue().unwrap();
    assert!(p.state().queue.is_empty());
    assert_eq!(p.state().position, None);
}

#[test]
fn unplayable_entries_are_selected_and_reported() {
    let mut p = Playback::new(Engine::default());
    p.set_queue(tracks(&["a", "missing", "c"])).unwrap();
    p.play(&source).unwrap();
    assert!(matches!(p.next(&source), Err(PlaybackError::NoAvailableSource(t)) if t.0 == "missing"));
    assert_eq!(p.state().position, Some(1));
    assert_eq!(p.state().status, PlaybackStatus::Stopped);
    assert!(p.state().source.is_none());
    assert_eq!(p.next(&source).unwrap(), true);
    assert_eq!(p.state().position, Some(2));
}

#[test]
fn engine_failures_are_reported_and_need_a_stop() {
    let mut p = Playback::new(Engine { fail_start: true, ..Engine::default() });
    p.set_queue(tracks(&["a"])).unwrap();
    assert!(matches!(p.play(&source), Err(PlaybackError::Engine(_))));
    assert_eq!(p.state().status, PlaybackStatus::Failed);
    assert!(matches!(p.pause(), Err(PlaybackError::Failed)));
    p.stop().unwrap();
    assert_eq!(p.state().status, PlaybackStatus::Stopped);
    let mut stuck = Playback::new(Engine { fail_stop: true, ..Engine::default() });
    stuck.set_queue(tracks(&["a", "b"])).unwrap();
    stuck.play(&source).unwrap();
    assert!(stuck.set_queue(tracks(&["c"])).is_err());
    assert_eq!(stuck.state().queue.len(), 2);
    assert_eq!(stuck.state().status, PlaybackStatus::Failed);
}

#[test]
fn stale_events_are_ignored_and_end_of_stream_advances_once() {
    let seen = Rc::new(Cell::new(0));
    let mut p = Playback::new(Engine { generation: seen.clone(), ..Engine::default() });
    p.set_queue(tracks(&["a", "b", "c"])).unwrap();
    p.play(&source).unwrap();
    let generation = seen.get();
    let stale = EngineEvent { generation: generation - 1, kind: EngineEventKind::EndOfStream };
    assert_eq!(p.handle_event(&source, stale).unwrap(), false);
    assert_eq!(p.state().position, Some(0));
    let position = EngineEvent { generation, kind: EngineEventKind::Position(1500) };
    assert!(p.handle_event(&source, position).unwrap());
    assert_eq!(p.state().media_position_ms, 1500);
    let eos = || EngineEvent { generation, kind: EngineEventKind::EndOfStream };
    assert!(p.handle_event(&source, eos()).unwrap());
    assert_eq!(p.state().position, Some(1));
    assert_eq!(p.handle_event(&source, eos()).unwrap(), false);
    assert_eq!(p.state().position, Some(1));
}

#[test]
fn asynchronous_commands_wait_for_the_latest_confirmation() {
    let seen = Rc::new(Cell::new(0));
    let mut p = Playback::new(Engine { asynchronous: true, generation: seen.clone(), ..Engine::default() });
    p.set_queue(tracks(&["a"])).unwrap();
    p.play(&source).unwrap();
    assert_eq!(p.state().status, PlaybackStatus::Stopped);
    assert_eq!(p.state().pending, Some(PlaybackStatus::Playing));
    p.pause().unwrap();
    assert_eq!(p.state().pending, Some(PlaybackStatus::Paused));
    let generation = seen.get();
    let late_playing = EngineEvent { generation, kind: EngineEventKind::State(PlaybackStatus::Playing) };
    assert_eq!(p.handle_event(&source, late_playing).unwrap(), false);
    let paused = EngineEvent { generation, kind: EngineEventKind::State(PlaybackStatus::Paused) };
    assert!(p.handle_event(&source, paused).unwrap());
    assert_eq!(p.state().status, PlaybackStatus::Paused);
    assert_eq!(p.state().pending, None);
    let error = EngineEvent { generation, kind: EngineEventKind::Error(EngineError("lost".into())) };
    assert!(matches!(p.handle_event(&source, error), Err(PlaybackError::Engine(_))));
    assert_eq!(p.state().status, PlaybackStatus::Failed);
}
