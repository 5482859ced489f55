//! Settings, their defaults, and what is derived from them.

use vstd::prelude::*;

use crate::text;
use crate::text::same_text;

verus! {

/// All settings of the recorder.
pub struct Config {
    /// Directory that clips are saved to.
    pub clips_dir: String,
    /// Name of the key that saves a clip.
    pub hotkey: String,
    pub capture: CaptureConfig,
    pub buffer: BufferConfig,
    pub steam: SteamConfig,
    /// Games to watch for that Steam does not know.
    pub extra_games: Vec<ExtraGame>,
}

/// How a game is captured and encoded.
#[derive(Debug)]
pub struct CaptureConfig {
    pub fps: u64,
    pub scale: String,
    pub encoder: String,
    pub preset: String,
    pub rate_control: String,
    pub quality: String,
    pub segment_time: u64,
    /// Which monitor to capture: "auto" (follows the game window), or a
    /// 1-based index. Used as fallback when window capture is unavailable.
    pub monitor: String,
    /// Microphone device: "default" for system default, "none" to disable.
    pub microphone: String,
    /// Gain of the microphone in the mix, as the bits of a 32-bit float.
    pub mic_volume_bits: u32,
}

/// How much of the recording a clip holds.
pub struct BufferConfig {
    pub segments: usize,
}

/// Where Steam is installed and how it is watched.
pub struct SteamConfig {
    pub path: String,
    pub skip_appids: Vec<String>,
    pub poll_interval_secs: u64,
}

/// A game outside Steam, recognised by the name of its executable.
pub struct ExtraGame {
    pub name: String,
    pub exe: String,
}

impl Default for CaptureConfig {
    fn default() -> (cfg: Self)
        ensures
            cfg.fps == 60,
            cfg.scale@ == "scale=-2:720"@,
            cfg.encoder@ == "h264_nvenc"@,
            cfg.preset@ == "p4"@,
            cfg.rate_control@ == "constqp"@,
            cfg.quality@ == "28"@,
            cfg.segment_time == 5,
            cfg.monitor@ == "auto"@,
            cfg.microphone@ == "default"@,
            cfg.mic_volume_bits == UNITY_GAIN_BITS,
    {
        CaptureConfig {
            fps: 60,
            scale: "scale=-2:720".to_owned(),
            encoder: "h264_nvenc".to_owned(),
            preset: "p4".to_owned(),
            rate_control: "constqp".to_owned(),
            quality: "28".to_owned(),
            segment_time: 5,
            monitor: "auto".to_owned(),
            microphone: "default".to_owned(),
            mic_volume_bits: UNITY_GAIN_BITS,
        }
    }
}

impl Clone for CaptureConfig {
    fn clone(&self) -> (copy: Self)
        ensures
            copy == *self,
    {
        CaptureConfig {
            fps: self.fps,
            scale: self.scale.clone(),
            encoder: self.encoder.clone(),
            preset: self.preset.clone(),
            rate_control: self.rate_control.clone(),
            quality: self.quality.clone(),
            segment_time: self.segment_time,
            monitor: self.monitor.clone(),
            microphone: self.microphone.clone(),
            mic_volume_bits: self.mic_volume_bits,
        }
    }
}

/// The bits of the 32-bit float 1.0.
pub const UNITY_GAIN_BITS: u32 = 0x3f80_0000;

/// The ffmpeg flag that takes the quality value in a rate control mode.
pub open spec fn quality_flag_for(rate_control: Seq<char>) -> Seq<char> {
    if rate_control == "crf"@ {
        "-crf"@
    } else if rate_control == "vbr"@ {
        "-b:v"@
    } else {
        "-qp"@
    }
}

impl CaptureConfig {
    /// The ffmpeg flag that takes the quality value, by rate control mode:
    /// `-crf` for crf, `-b:v` for vbr, `-qp` for constqp, cqp and the rest.
    pub fn quality_flag(&self) -> (flag: &str)
        ensures
            flag@ == quality_flag_for(self.rate_control@),
    {
        if same_text(self.rate_control.as_str(), "crf") {
            "-crf"
        } else if same_text(self.rate_control.as_str(), "vbr") {
            "-b:v"
        } else {
            "-qp"
        }
    }

    /// These settings with the microphone left on or turned off.
    pub fn with_microphone(&self, record: bool) -> (cfg: CaptureConfig)
        ensures
            record ==> cfg == *self,
            !record ==> cfg.microphone@ == "none"@ && cfg == (CaptureConfig {
                microphone: cfg.microphone,
                ..*self
            }),
    {
        let mut cfg = self.clone();
        if !record {
            cfg.microphone = "none".to_owned();
        }
        cfg
    }
}

impl Default for BufferConfig {
    fn default() -> (cfg: Self)
        ensures
            cfg.segments == 12,
    {
        BufferConfig { segments: 12 }
    }
}

/// Where Steam is taken to be: the directory it was found in, or else the one
/// that its installer proposes.
pub fn steam_path(found: Option<String>) -> (path: String)
    ensures
        path@ == match found {
            Some(p) => p@,
            None => "C:\\Program Files (x86)\\Steam"@,
        },
{
    match found {
        Some(p) => p,
        None => "C:\\Program Files (x86)\\Steam".to_owned(),
    }
}

impl SteamConfig {
    /// The defaults, with Steam in the directory it was found in, if any.
    pub fn with_path(found: Option<String>) -> (cfg: SteamConfig)
        ensures
            cfg.path@ == match found {
                Some(p) => p@,
                None => "C:\\Program Files (x86)\\Steam"@,
            },
            cfg.skip_appids@.len() == 1,
            cfg.skip_appids@[0]@ == "228980"@,
            cfg.poll_interval_secs == 5,
    {
        let mut skip_appids: Vec<String> = Vec::new();
        skip_appids.push("228980".to_owned());
        SteamConfig { path: steam_path(found), skip_appids, poll_interval_secs: 5 }
    }
}

impl Config {
    /// The defaults, with Steam in the directory it was found in, if any.
    pub fn with_steam_path(found: Option<String>) -> (cfg: Config)
        ensures
            cfg.clips_dir@ == "D:\\Clips"@,
            cfg.hotkey@ == "F8"@,
            call_ensures(CaptureConfig::default, (), cfg.capture),
            cfg.buffer.segments == 12,
            call_ensures(SteamConfig::with_path, (found,), cfg.steam),
            cfg.extra_games@.len() == 0,
    {
        Config {
            clips_dir: "D:\\Clips".to_owned(),
            hotkey: "F8".to_owned(),
            capture: CaptureConfig::default(),
            buffer: BufferConfig::default(),
            steam: SteamConfig::with_path(found),
            extra_games: Vec::new(),
        }
    }

    /// The age in seconds from which a segment is no longer needed: that of a
    /// full clip and one segment more.
    pub open spec fn cleanup_age(&self) -> int {
        self.capture.segment_time * (self.buffer.segments + 1)
    }

    /// The age in seconds from which a segment is no longer needed: that of a
    /// full clip and one segment more.
    pub fn cleanup_age_secs(&self) -> (secs: u64)
        requires
            self.buffer.segments < u64::MAX,
            self.cleanup_age() <= u64::MAX,
        ensures
            secs == self.cleanup_age(),
    {
        self.capture.segment_time * (self.buffer.segments as u64 + 1)
    }
}

// ---------------------------------------------------------------------------
// The hotkey
// ---------------------------------------------------------------------------

/// The keys that can be bound to saving a clip.
#[derive(Debug, Clone, Copy, PartialEq, Eq, Structural)]
pub enum HotkeyCode {
    F1,
    F2,
    F3,
    F4,
    F5,
    F6,
    F7,
    F8,
    F9,
    F10,
    F11,
    F12,
    PrintScreen,
    ScrollLock,
    Pause,
    Insert,
    Home,
    End,
    Delete,
}

/// The key that a name in upper case stands for.
pub open spec fn hotkey_named(upper: Seq<char>) -> Option<HotkeyCode> {
    if upper == "F1"@ {
        Some(HotkeyCode::F1)
    } else if upper == "F2"@ {
        Some(HotkeyCode::F2)
    } else if upper == "F3"@ {
        Some(HotkeyCode::F3)
    } else if upper == "F4"@ {
        Some(HotkeyCode::F4)
    } else if upper == "F5"@ {
        Some(HotkeyCode::F5)
    } else if upper == "F6"@ {
        Some(HotkeyCode::F6)
    } else if upper == "F7"@ {
        Some(HotkeyCode::F7)
    } else if upper == "F8"@ {
        Some(HotkeyCode::F8)
    } else if upper == "F9"@ {
        Some(HotkeyCode::F9)
    } else if upper == "F10"@ {
        Some(HotkeyCode::F10)
    } else if upper == "F11"@ {
        Some(HotkeyCode::F11)
    } else if upper == "F12"@ {
        Some(HotkeyCode::F12)
    } else if upper == "PRINTSCREEN"@ {
        Some(HotkeyCode::PrintScreen)
    } else if upper == "SCROLLLOCK"@ {
        Some(HotkeyCode::ScrollLock)
    } else if upper == "PAUSE"@ {
        Some(HotkeyCode::Pause)
    } else if upper == "INSERT"@ {
        Some(HotkeyCode::Insert)
    } else if upper == "HOME"@ {
        Some(HotkeyCode::Home)
    } else if upper == "END"@ {
        Some(HotkeyCode::End)
    } else if upper == "DELETE"@ {
        Some(HotkeyCode::Delete)
    } else {
        None
    }
}

/// The key that a name in upper case stands for.
pub fn hotkey_from_upper(upper: &str) -> (code: Option<HotkeyCode>)
    ensures
        code == hotkey_named(upper@),
{
    if same_text(upper, "F1") {
        Some(HotkeyCode::F1)
    } else if same_text(upper, "F2") {
        Some(HotkeyCode::F2)
    } else if same_text(upper, "F3") {
        Some(HotkeyCode::F3)
    } else if same_text(upper, "F4") {
        Some(HotkeyCode::F4)
    } else if same_text(upper, "F5") {
        Some(HotkeyCode::F5)
    } else if same_text(upper, "F6") {
        Some(HotkeyCode::F6)
    } else if same_text(upper, "F7") {
        Some(HotkeyCode::F7)
    } else if same_text(upper, "F8") {
        Some(HotkeyCode::F8)
    } else if same_text(upper, "F9") {
        Some(HotkeyCode::F9)
    } else if same_text(upper, "F10") {
        Some(HotkeyCode::F10)
    } else if same_text(upper, "F11") {
        Some(HotkeyCode::F11)
    } else if same_text(upper, "F12") {
        Some(HotkeyCode::F12)
    } else if same_text(upper, "PRINTSCREEN") {
        Some(HotkeyCode::PrintScreen)
    } else if same_text(upper, "SCROLLLOCK") {
        Some(HotkeyCode::ScrollLock)
    } else if same_text(upper, "PAUSE") {
        Some(HotkeyCode::Pause)
    } else if same_text(upper, "INSERT") {
        Some(HotkeyCode::Insert)
    } else if same_text(upper, "HOME") {
        Some(HotkeyCode::Home)
    } else if same_text(upper, "END") {
        Some(HotkeyCode::End)
    } else if same_text(upper, "DELETE") {
        Some(HotkeyCode::Delete)
    } else {
        None
    }
}

/// The key that a name stands for, whatever the case of its letters.
pub fn parse_hotkey_code(name: &str) -> (code: Option<HotkeyCode>)
    ensures
        code == hotkey_named(text::uppercase(name@)),
        vstd::utf8::is_ascii_chars(name@) ==> code == hotkey_named(text::ascii_upper_text(name@)),
{
    let upper = name.to_uppercase();
    hotkey_from_upper(upper.as_str())
}

/// The key to bind: the one that is named, or F8 where the name stands for
/// none.
pub fn hotkey_or_default(name: &str) -> (code: HotkeyCode)
    ensures
        code == match hotkey_named(text::uppercase(name@)) {
            Some(named) => named,
            None => HotkeyCode::F8,
        },
        vstd::utf8::is_ascii_chars(name@) ==> code == match hotkey_named(
            text::ascii_upper_text(name@),
        ) {
            Some(named) => named,
            None => HotkeyCode::F8,
        },
{
    match parse_hotkey_code(name) {
        Some(code) => code,
        None => HotkeyCode::F8,
    }
}

/// The case of the letters in the name of a key does not matter.
pub proof fn law_hotkey_case_does_not_matter(name: Seq<char>)
    ensures
        hotkey_named(text::ascii_upper_text(text::ascii_lower_text(name))) == hotkey_named(
            text::ascii_upper_text(name),
        ),
        hotkey_named(text::ascii_upper_text(text::ascii_upper_text(name))) == hotkey_named(
            text::ascii_upper_text(name),
        ),
{
    assert(text::ascii_upper_text(text::ascii_lower_text(name)) =~= text::ascii_upper_text(name));
    assert(text::ascii_upper_text(text::ascii_upper_text(name)) =~= text::ascii_upper_text(name));
}

/// The age from which segments are no longer needed is one segment with no
/// clip at all, and each segment more in a clip makes it longer by one
/// segment.
pub proof fn law_cleanup_age_grows_with_the_clip(shorter: Config, longer: Config)
    requires
        shorter.capture.segment_time == longer.capture.segment_time,
        longer.buffer.segments == shorter.buffer.segments + 1,
    ensures
        longer.cleanup_age() == shorter.cleanup_age() + shorter.capture.segment_time,
        shorter.buffer.segments == 0 ==> shorter.cleanup_age() == shorter.capture.segment_time,
{
    let (t, n) = (shorter.capture.segment_time as int, shorter.buffer.segments as int);
    assert(t * (n + 2) == t * (n + 1) + t) by (nonlinear_arith);
    assert(n == 0 ==> t * (n + 1) == t) by (nonlinear_arith);
}

/// No two names stand for one key: each key has the one name that is
/// documented.
pub proof fn law_each_key_has_one_name(one: Seq<char>, other: Seq<char>)
    requires
        hotkey_named(one) is Some,
        hotkey_named(one) == hotkey_named(other),
    ensures
        one == other,
{
}

/// Each key is named by what is written on it.
pub proof fn law_keys_are_named_by_their_labels(name: Seq<char>)
    ensures
        hotkey_named(name) == Some(HotkeyCode::PrintScreen) <==> name == "PRINTSCREEN"@,
        hotkey_named(name) == Some(HotkeyCode::ScrollLock) <==> name == "SCROLLLOCK"@,
        hotkey_named(name) == Some(HotkeyCode::Pause) <==> name == "PAUSE"@,
        hotkey_named(name) == Some(HotkeyCode::Insert) <==> name == "INSERT"@,
        hotkey_named(name) == Some(HotkeyCode::Home) <==> name == "HOME"@,
        hotkey_named(name) == Some(HotkeyCode::End) <==> name == "END"@,
        hotkey_named(name) == Some(HotkeyCode::Delete) <==> name == "DELETE"@,
        hotkey_named(name) == Some(HotkeyCode::F1) <==> name == "F1"@,
        hotkey_named(name) == Some(HotkeyCode::F2) <==> name == "F2"@,
        hotkey_named(name) == Some(HotkeyCode::F3) <==> name == "F3"@,
        hotkey_named(name) == Some(HotkeyCode::F4) <==> name == "F4"@,
        hotkey_named(name) == Some(HotkeyCode::F5) <==> name == "F5"@,
        hotkey_named(name) == Some(HotkeyCode::F6) <==> name == "F6"@,
        hotkey_named(name) == Some(HotkeyCode::F7) <==> name == "F7"@,
        hotkey_named(name) == Some(HotkeyCode::F8) <==> name == "F8"@,
        hotkey_named(name) == Some(HotkeyCode::F9) <==> name == "F9"@,
        hotkey_named(name) == Some(HotkeyCode::F10) <==> name == "F10"@,
        hotkey_named(name) == Some(HotkeyCode::F11) <==> name == "F11"@,
        hotkey_named(name) == Some(HotkeyCode::F12) <==> name == "F12"@,
{
    reveal_strlit("F1");
    reveal_strlit("F2");
    reveal_strlit("F3");
    reveal_strlit("F4");
    reveal_strlit("F5");
    reveal_strlit("F6");
    reveal_strlit("F7");
    reveal_strlit("F8");
    reveal_strlit("F9");
    reveal_strlit("F10");
    reveal_strlit("F11");
    reveal_strlit("F12");
    reveal_strlit("PRINTSCREEN");
    reveal_strlit("SCROLLLOCK");
    reveal_strlit("PAUSE");
    reveal_strlit("INSERT");
    reveal_strlit("HOME");
    reveal_strlit("END");
    reveal_strlit("DELETE");
    assert("F1"@.len() == 2);
    assert("F2"@.len() == 2);
    assert("F3"@.len() == 2);
    assert("F4"@.len() == 2);
    assert("F5"@.len() == 2);
    assert("F6"@.len() == 2);
    assert("F7"@.len() == 2);
    assert("F8"@.len() == 2);
    assert("F9"@.len() == 2);
    assert("F10"@.len() == 3);
    assert("F11"@.len() == 3);
    assert("F12"@.len() == 3);
    assert("PRINTSCREEN"@.len() == 11);
    assert("SCROLLLOCK"@.len() == 10);
    assert("PAUSE"@.len() == 5);
    assert("INSERT"@.len() == 6);
    assert("HOME"@.len() == 4);
    assert("END"@.len() == 3);
    assert("DELETE"@.len() == 6);
    assert("PAUSE"@[0] == 'P' && "INSERT"@[0] == 'I' && "HOME"@[0] == 'H' && "END"@[0] == 'E'
        && "DELETE"@[0] == 'D' && "PRINTSCREEN"@[0] == 'P' && "SCROLLLOCK"@[0] == 'S');
    assert("F1"@[1] == '1');
    assert("F2"@[1] == '2');
    assert("F3"@[1] == '3');
    assert("F4"@[1] == '4');
    assert("F5"@[1] == '5');
    assert("F6"@[1] == '6');
    assert("F7"@[1] == '7');
    assert("F8"@[1] == '8');
    assert("F9"@[1] == '9');
    assert("F10"@[0] == 'F' && "F10"@[2] == '0');
    assert("F11"@[0] == 'F' && "F11"@[2] == '1');
    assert("F12"@[0] == 'F' && "F12"@[2] == '2');
}

/// The quality value goes to `-crf` for crf and to `-b:v` for vbr alone, and to
/// `-qp` for every other mode.
pub proof fn law_quality_flag_by_mode(mode: Seq<char>)
    ensures
        quality_flag_for(mode) == "-crf"@ <==> mode == "crf"@,
        quality_flag_for(mode) == "-b:v"@ <==> mode == "vbr"@,
        mode != "crf"@ && mode != "vbr"@ ==> quality_flag_for(mode) == "-qp"@,
{
    reveal_strlit("-crf");
    reveal_strlit("-b:v");
    reveal_strlit("-qp");
    reveal_strlit("crf");
    reveal_strlit("vbr");
    assert("-crf"@[1] == 'c' && "-b:v"@[1] == 'b' && "-qp"@[1] == 'q');
    assert("crf"@[0] == 'c' && "vbr"@[0] == 'v');
}

} // verus!
