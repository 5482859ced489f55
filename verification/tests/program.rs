use snapple::capture::CaptureSession;
use snapple::games::{GameEvent, GameTracker};
use snapple::icon::{create_tray_icon, draw_s, ICON_SIZE};
use snapple::recorder::{
    check_health, look_due, shutter_sounds, HealthAction, HotkeyAction, Recorder,
};
use snapple::sound::{generate_shutter_wav, HEADER_BYTES, NUM_SAMPLES, SAMPLE_RATE};

#[test]
fn the_icon_shows_a_dot_and_a_letter() {
    let rgba = create_tray_icon();
    assert_eq!(rgba.len(), 64 * 64 * 4);
    let pixel = |x: u32, y: u32| {
        let at = ((y * ICON_SIZE + x) * 4) as usize;
        [rgba[at], rgba[at + 1], rgba[at + 2], rgba[at + 3]]
    };
    assert_eq!(pixel(0, 0), [0x2d, 0x2d, 0x2d, 0xff]);
    assert_eq!(pixel(30, 26), [0xe0, 0x40, 0x40, 0xff]);
    assert_eq!(pixel(30, 20), [0xff, 0xff, 0xff, 0xff]);
    for y in 0..64u32 {
        for x in 0..64u32 {
            let dx = x as f32 - 32.0;
            let dy = y as f32 - 32.0;
            let expected = if draw_s(x, y) {
                [0xff, 0xff, 0xff, 0xff]
            } else if (dx * dx + dy * dy).sqrt() <= 24.0 {
                [0xe0, 0x40, 0x40, 0xff]
            } else {
                [0x2d, 0x2d, 0x2d, 0xff]
            };
            assert_eq!(pixel(x, y), expected, "pixel ({x}, {y})");
        }
    }
}

#[test]
fn the_letter_has_three_bars_and_two_strokes() {
    assert!(draw_s(22, 18) && draw_s(41, 21) && !draw_s(42, 18) && !draw_s(21, 18));
    assert!(draw_s(25, 29) && !draw_s(26, 29) && !draw_s(40, 25));
    assert!(draw_s(30, 33) && draw_s(38, 41) && !draw_s(37, 41) && !draw_s(22, 38));
    assert!(draw_s(22, 45) && !draw_s(22, 46) && !draw_s(30, 17));
    assert!(!draw_s(u32::MAX, u32::MAX));
}

#[test]
fn the_shutter_is_a_decaying_burst_of_noise() {
    let shape = |i: usize, noise: i16| {
        let t = i as f32 / NUM_SAMPLES as f32;
        let decay = (-t * 10.0).exp();
        (noise as f32 / 32768.0 * decay * 16000.0) as i16
    };
    let wav = generate_shutter_wav(shape);

    let mut expected: Vec<u8> = Vec::new();
    expected.extend_from_slice(b"RIFF");
    expected.extend_from_slice(&(36u32 + 13_230).to_le_bytes());
    expected.extend_from_slice(b"WAVEfmt ");
    expected.extend_from_slice(&16u32.to_le_bytes());
    expected.extend_from_slice(&1u16.to_le_bytes());
    expected.extend_from_slice(&1u16.to_le_bytes());
    expected.extend_from_slice(&44_100u32.to_le_bytes());
    expected.extend_from_slice(&88_200u32.to_le_bytes());
    expected.extend_from_slice(&2u16.to_le_bytes());
    expected.extend_from_slice(&16u16.to_le_bytes());
    expected.extend_from_slice(b"data");
    expected.extend_from_slice(&13_230u32.to_le_bytes());
    assert_eq!(expected.len(), HEADER_BYTES);
    let mut rng: u32 = 48271;
    for i in 0..6_615usize {
        let t = i as f32 / 6_615f32;
        let decay = (-t * 10.0).exp();
        rng = rng.wrapping_mul(1103515245).wrapping_add(12345);
        let noise = ((rng >> 16) as i16 as f32) / 32768.0;
        let sample = (noise * decay * 16000.0) as i16;
        expected.extend_from_slice(&sample.to_le_bytes());
    }
    assert_eq!(wav, expected);
    assert_eq!(NUM_SAMPLES, (SAMPLE_RATE * 150 / 1000) as usize);
}

#[test]
fn clips_are_saved_only_while_a_game_is_recorded() {
    let mut recorder = Recorder::new();
    assert!(matches!(recorder.on_hotkey(), HotkeyAction::NoCapture));
    assert_eq!(recorder.status_text(), "Snapple \u{2014} Idle");

    let plan = recorder.on_game_event(GameEvent::Started { name: "A".to_string(), pid: 1 });
    assert!(!plan.stop);
    assert_eq!(plan.start, Some(("A".to_string(), 1)));
    assert!(matches!(recorder.on_hotkey(), HotkeyAction::NoCapture));
    recorder.on_session_start("A".to_string(), 1, true);
    assert!(matches!(recorder.on_hotkey(), HotkeyAction::Save(name) if name == "A"));
    assert_eq!(recorder.status_text(), "Snapple \u{2014} Recording A");

    let plan = recorder.on_game_event(GameEvent::Switched { name: "B".to_string(), pid: 2 });
    assert!(plan.stop);
    assert_eq!(plan.start, Some(("B".to_string(), 2)));
    recorder.on_session_start("B".to_string(), 2, false);
    assert_eq!(recorder.status_text(), "Snapple \u{2014} Idle");
    assert!(matches!(recorder.on_hotkey(), HotkeyAction::NoCapture));
}

#[test]
fn a_stopped_game_ends_its_session() {
    let mut recorder = Recorder::new();
    recorder.on_session_start("A".to_string(), 1, true);
    let plan = recorder.on_game_event(GameEvent::Stopped);
    assert!(plan.stop);
    assert!(plan.start.is_none());
    let plan = recorder.on_game_event(GameEvent::Stopped);
    assert!(!plan.stop);
}

#[test]
fn a_failed_session_is_begun_anew_for_the_same_game() {
    let mut recorder = Recorder::new();
    recorder.on_session_start("A".to_string(), 1, true);
    let mut session = CaptureSession { running: true, warmup_done: true, frame_counter: 10 };
    assert_eq!(check_health(&session, 0, 1), HealthAction::Wait);
    assert_eq!(check_health(&session, 0, 5_000_000_000), HealthAction::Remember);
    assert_eq!(check_health(&session, 10, 5_000_000_000), HealthAction::Restart);
    session.stop();
    assert_eq!(check_health(&session, 0, 0), HealthAction::Restart);
    let plan = recorder.on_failure();
    assert!(plan.stop);
    assert_eq!(plan.start, Some(("A".to_string(), 1)));
}

#[test]
fn the_shutter_sounds_only_for_saved_clips() {
    let saved: Result<u8, u8> = Ok(1);
    let failed: Result<u8, u8> = Err(1);
    assert!(shutter_sounds(&saved));
    assert!(!shutter_sounds(&failed));
}

#[test]
fn recording_follows_the_running_game() {
    let mut tracker = GameTracker::new();
    let mut recorder = Recorder::new();
    let seen = [Some("A"), Some("A"), Some("B"), None, None, Some("A")];
    for game in seen {
        let detected = game.map(|name| (name.to_string(), 7));
        if let Some(event) = tracker.observe(detected.clone()) {
            let plan = recorder.on_game_event(event);
            assert_eq!(plan.start, detected);
            if let Some((name, pid)) = plan.start {
                recorder.on_session_start(name, pid, true);
            }
        }
        assert_eq!(recorder.recording, detected);
    }
}

#[test]
fn the_session_is_looked_at_every_second() {
    assert!(!look_due(999_999_999));
    assert!(look_due(1_000_000_000));
}
