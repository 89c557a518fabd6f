use music_library::completion::{Detector, Device, Outcome, State};

fn playing() -> State {
    State {
        track_id: Some("song".into()),
        playing: true,
        progress_ms: 98000,
        duration_ms: Some(100000),
        device: Some(Device {
            id: Some("desktop".into()),
            name: "Desktop".into(),
            kind: "Computer".into(),
            is_active: true,
            is_restricted: false,
            supports_volume: false,
        }),
        ..Default::default()
    }
}

#[test]
fn terminal_evidence_is_consumed_once() {
    let mut d = Detector::new("spotify:track:song");
    let terminal = State {
        device: playing().device,
        ..Default::default()
    };
    assert_eq!(d.observe(&playing(), 0), None);
    assert_eq!(d.observe(&terminal, 2000), None);
    assert_eq!(d.observe(&terminal, 7000), Some(Outcome::Completed));
    assert_eq!(d.observe(&terminal, 12000), None);
}

#[test]
fn pause_error_stale_or_missing_state_cannot_finish() {
    for mode in 0..4 {
        let mut d = Detector::new("song");
        d.observe(&playing(), 0);
        match mode {
            0 => {
                let mut s = playing();
                s.playing = false;
                d.observe(&s, 1000);
            }
            1 => d.reset_evidence(),
            2 => {
                d.observe(&State::default(), 20000);
            }
            _ => {
                d = Detector::new("song");
            }
        }
        assert_eq!(d.observe(&State::default(), 21000), None);
        assert_eq!(d.observe(&State::default(), 26000), None);
    }
}

#[test]
fn external_song_interrupts_instead_of_advancing() {
    let mut d = Detector::new("song");
    d.observe(&playing(), 0);
    let mut external = playing();
    external.track_id = Some("other".into());
    assert_eq!(d.observe(&external, 5000), Some(Outcome::Interrupted));
    assert_eq!(d.observe(&State::default(), 10000), None);
}

#[test]
fn repeat_reset_and_device_change_are_not_completion() {
    for device_change in [false, true] {
        let mut d = Detector::new("song");
        d.observe(&playing(), 0);
        let mut changed = playing();
        if device_change {
            changed.device.as_mut().unwrap().id = Some("phone".into());
        } else {
            changed.progress_ms = 100;
        }
        assert_eq!(d.observe(&changed, 5000), Some(Outcome::Interrupted));
    }
}

#[test]
fn repeated_uri_prefixes_are_all_removed() {
    // trim_start_matches removes every leading occurrence of the prefix.
    let mut d = Detector::new("spotify:track:spotify:track:song");
    assert_eq!(d.observe(&playing(), 0), None);
    let terminal = State {
        device: playing().device,
        ..Default::default()
    };
    assert_eq!(d.observe(&terminal, 2000), None);
    assert_eq!(d.observe(&terminal, 3000), Some(Outcome::Completed));
}

#[test]
fn finished_detector_reports_nothing_more() {
    let mut d = Detector::new("song");
    d.observe(&playing(), 0);
    let mut other = playing();
    other.track_id = Some("other".into());
    assert_eq!(d.observe(&other, 100), Some(Outcome::Interrupted));
    assert_eq!(d.observe(&playing(), 200), None);
    let mut changed = playing();
    changed.device.as_mut().unwrap().id = Some("phone".into());
    assert_eq!(d.observe(&changed, 300), None);
}

#[test]
fn stale_near_end_evidence_is_forgotten() {
    let mut d = Detector::new("song");
    d.observe(&playing(), 0);
    let terminal = State {
        device: playing().device,
        ..Default::default()
    };
    // More than fifteen seconds after the near-end observation.
    assert_eq!(d.observe(&terminal, 15001), None);
    assert_eq!(d.observe(&terminal, 15002), None);
    assert_eq!(d.observe(&terminal, 15003), None);
}
