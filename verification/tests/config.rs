use snapple::config::{
    hotkey_from_upper, hotkey_or_default, parse_hotkey_code, steam_path, BufferConfig,
    CaptureConfig, Config, HotkeyCode,
};
use snapple::text::{decimal_text, parse_i32, parse_u32, parse_usize};

#[test]
fn defaults_record_the_last_minute() {
    let cfg = Config::with_steam_path(None);
    assert_eq!(cfg.clips_dir, "D:\\Clips");
    assert_eq!(cfg.hotkey, "F8");
    assert_eq!(cfg.capture.segment_time * cfg.buffer.segments as u64, 60);
    assert_eq!(cfg.cleanup_age_secs(), 65);
    assert_eq!(cfg.steam.path, "C:\\Program Files (x86)\\Steam");
    assert_eq!(cfg.steam.skip_appids, vec!["228980"]);
    assert_eq!(cfg.steam.poll_interval_secs, 5);
    assert!(cfg.extra_games.is_empty());
    assert_eq!(BufferConfig::default().segments, 12);
}

#[test]
fn steam_is_taken_from_where_it_was_found() {
    assert_eq!(steam_path(Some("E:\\Steam".to_string())), "E:\\Steam");
    let cfg = Config::with_steam_path(Some("E:\\Steam".to_string()));
    assert_eq!(cfg.steam.path, "E:\\Steam");
}

#[test]
fn quality_flag_follows_rate_control() {
    let mut cfg = CaptureConfig::default();
    assert_eq!(cfg.quality_flag(), "-qp");
    for (mode, flag) in [("crf", "-crf"), ("vbr", "-b:v"), ("cqp", "-qp"), ("CRF", "-qp")] {
        cfg.rate_control = mode.to_string();
        assert_eq!(cfg.quality_flag(), flag);
    }
}

#[test]
fn microphone_can_be_turned_off() {
    let cfg = CaptureConfig::default();
    assert_eq!(cfg.with_microphone(true).microphone, "default");
    let off = cfg.with_microphone(false);
    assert_eq!(off.microphone, "none");
    assert_eq!(off.encoder, "h264_nvenc");
}

#[test]
fn hotkeys_are_read_in_any_case() {
    assert_eq!(parse_hotkey_code("f8"), Some(HotkeyCode::F8));
    assert_eq!(parse_hotkey_code("F12"), Some(HotkeyCode::F12));
    assert_eq!(parse_hotkey_code("PrintScreen"), Some(HotkeyCode::PrintScreen));
    assert_eq!(parse_hotkey_code("scrolllock"), Some(HotkeyCode::ScrollLock));
    assert_eq!(parse_hotkey_code("pAuSe"), Some(HotkeyCode::Pause));
    assert_eq!(parse_hotkey_code("insert"), Some(HotkeyCode::Insert));
    assert_eq!(parse_hotkey_code("Home"), Some(HotkeyCode::Home));
    assert_eq!(parse_hotkey_code("end"), Some(HotkeyCode::End));
    assert_eq!(parse_hotkey_code("Delete"), Some(HotkeyCode::Delete));
    assert_eq!(parse_hotkey_code("F13"), None);
    assert_eq!(parse_hotkey_code(" F8"), None);
    assert_eq!(parse_hotkey_code(""), None);
    assert_eq!(hotkey_from_upper("F8"), Some(HotkeyCode::F8));
    assert_eq!(hotkey_from_upper("f8"), None);
}

#[test]
fn every_function_key_is_known() {
    let codes = [
        HotkeyCode::F1,
        HotkeyCode::F2,
        HotkeyCode::F3,
        HotkeyCode::F4,
        HotkeyCode::F5,
        HotkeyCode::F6,
        HotkeyCode::F7,
        HotkeyCode::F8,
        HotkeyCode::F9,
        HotkeyCode::F10,
        HotkeyCode::F11,
        HotkeyCode::F12,
    ];
    for (i, code) in codes.iter().enumerate() {
        assert_eq!(parse_hotkey_code(&format!("f{}", i + 1)), Some(*code));
    }
}

#[test]
fn unknown_hotkeys_fall_back_to_f8() {
    assert_eq!(hotkey_or_default("Home"), HotkeyCode::Home);
    assert_eq!(hotkey_or_default("Banana"), HotkeyCode::F8);
}

#[test]
fn numbers_are_read_as_the_standard_library_reads_them() {
    let texts = [
        "", "+", "-", "0", "-0", "+7", "-7", "007", "12a", " 1", "1 ", "+-1", "2147483647",
        "2147483648", "-2147483648", "-2147483649", "4294967295", "4294967296",
        "18446744073709551615", "18446744073709551616", "99999999999999999999999", "\u{661}",
    ];
    for text in texts {
        assert_eq!(parse_u32(text), text.parse::<u32>().ok(), "u32 {text}");
        assert_eq!(parse_i32(text), text.parse::<i32>().ok(), "i32 {text}");
        assert_eq!(parse_usize(text), text.parse::<usize>().ok(), "usize {text}");
    }
}

#[test]
fn numbers_are_written_without_leading_zeros() {
    for n in [0u64, 9, 10, 1000, 1_234_567_890, u64::MAX] {
        assert_eq!(decimal_text(n), n.to_string());
    }
}

#[test]
fn whitespace_is_that_of_unicode() {
    for n in 0..=0x10_ffffu32 {
        if let Some(c) = char::from_u32(n) {
            assert_eq!(snapple::text::is_whitespace(c), c.is_whitespace(), "{n:x}");
        }
    }
}
