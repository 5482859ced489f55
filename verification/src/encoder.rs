//! Encoders: their quality profiles, the search for one that works, and the
//! arguments that ffmpeg is run with.

use vstd::prelude::*;

use crate::buffer;
use crate::config;
use crate::config::CaptureConfig;
use crate::text;
use crate::text::{
    chars_of, decimal_text, position_from, push_all, push_decimal, replace_char, same_text,
    string_of_range, trim, trim_end,
};

verus! {

// ---------------------------------------------------------------------------
// Profiles
// ---------------------------------------------------------------------------

/// The settings that suit one encoder. `extra` is appended to the arguments
/// of ffmpeg after the preset, rate control and quality.
pub struct EncoderProfile {
    pub encoder: &'static str,
    pub preset: &'static str,
    pub rate_control: &'static str,
    pub quality: &'static str,
    pub extra: Vec<&'static str>,
}

/// A profile as texts.
#[verifier::ext_equal]
pub struct Profile {
    pub encoder: Seq<char>,
    pub preset: Seq<char>,
    pub rate_control: Seq<char>,
    pub quality: Seq<char>,
    pub extra: Seq<Seq<char>>,
}

impl View for EncoderProfile {
    type V = Profile;

    open spec fn view(&self) -> Profile {
        Profile {
            encoder: self.encoder@,
            preset: self.preset@,
            rate_control: self.rate_control@,
            quality: self.quality@,
            extra: text::str_texts(self.extra@),
        }
    }
}

/// NVIDIA: the slowest preset, two passes per frame, adaptive quantisation,
/// lookahead and B-frames.
pub open spec fn nvenc_profile() -> Profile {
    Profile {
        encoder: "h264_nvenc"@,
        preset: "p7"@,
        rate_control: "constqp"@,
        quality: "16"@,
        extra: seq![
            "-tune"@,
            "hq"@,
            "-multipass"@,
            "fullres"@,
            "-spatial_aq"@,
            "1"@,
            "-temporal_aq"@,
            "1"@,
            "-rc-lookahead"@,
            "32"@,
            "-bf"@,
            "3"@,
            "-b_ref_mode"@,
            "middle"@,
            "-profile:v"@,
            "high"@,
            "-level"@,
            "4.2"@,
        ],
    }
}

/// AMD: the balanced preset and no preanalysis, which integrated GPUs cannot
/// keep up with, and the quality flags that cost little.
pub open spec fn amf_profile() -> Profile {
    Profile {
        encoder: "h264_amf"@,
        preset: "balanced"@,
        rate_control: "cqp"@,
        quality: "16"@,
        extra: seq!["-vbaq"@, "true"@, "-profile:v"@, "high"@, "-level"@, "4.2"@],
    }
}

/// CPU: the slow preset of libx264, tuned for film.
pub open spec fn x264_profile() -> Profile {
    Profile {
        encoder: "libx264"@,
        preset: "slow"@,
        rate_control: "crf"@,
        quality: "16"@,
        extra: seq!["-tune"@, "film"@, "-profile:v"@, "high"@, "-level"@, "4.2"@],
    }
}

/// The profiles, in the order in which they are tried.
pub open spec fn profiles() -> Seq<Profile> {
    seq![nvenc_profile(), amf_profile(), x264_profile()]
}

/// The profiles that a vector holds.
pub open spec fn profile_views(v: Seq<EncoderProfile>) -> Seq<Profile> {
    v.map_values(|p: EncoderProfile| p@)
}

/// The profiles, in the order in which they are tried.
pub fn encoder_profiles() -> (table: Vec<EncoderProfile>)
    ensures
        profile_views(table@) == profiles(),
{
    let nvenc = EncoderProfile {
        encoder: "h264_nvenc",
        preset: "p7",
        rate_control: "constqp",
        quality: "16",
        extra: vec![
            "-tune",
            "hq",
            "-multipass",
            "fullres",
            "-spatial_aq",
            "1",
            "-temporal_aq",
            "1",
            "-rc-lookahead",
            "32",
            "-bf",
            "3",
            "-b_ref_mode",
            "middle",
            "-profile:v",
            "high",
            "-level",
            "4.2",
        ],
    };
    let amf = EncoderProfile {
        encoder: "h264_amf",
        preset: "balanced",
        rate_control: "cqp",
        quality: "16",
        extra: vec!["-vbaq", "true", "-profile:v", "high", "-level", "4.2"],
    };
    let x264 = EncoderProfile {
        encoder: "libx264",
        preset: "slow",
        rate_control: "crf",
        quality: "16",
        extra: vec!["-tune", "film", "-profile:v", "high", "-level", "4.2"],
    };
    assert(nvenc@ =~= nvenc_profile());
    assert(amf@ =~= amf_profile());
    assert(x264@ =~= x264_profile());
    let table = vec![nvenc, amf, x264];
    assert(profile_views(table@) =~= profiles());
    table
}

/// Whether profile `i` is the first one for `encoder`.
pub open spec fn is_profile_of(i: int, encoder: Seq<char>) -> bool {
    &&& 0 <= i < profiles().len()
    &&& profiles()[i].encoder == encoder
    &&& forall|k: int| 0 <= k < i ==> #[trigger] profiles()[k].encoder != encoder
}

/// Whether some profile is for `encoder`.
pub open spec fn has_profile(encoder: Seq<char>) -> bool {
    exists|i: int| 0 <= i < profiles().len() && #[trigger] profiles()[i].encoder == encoder
}

/// The flags that the profile of `encoder` adds: none where it has no profile.
pub open spec fn extra_flags(encoder: Seq<char>) -> Seq<Seq<char>> {
    if encoder == nvenc_profile().encoder {
        nvenc_profile().extra
    } else if encoder == amf_profile().encoder {
        amf_profile().extra
    } else if encoder == x264_profile().encoder {
        x264_profile().extra
    } else {
        Seq::empty()
    }
}

/// The profile of an encoder, if it has one.
pub fn lookup_profile(encoder: &str) -> (found: Option<EncoderProfile>)
    ensures
        match found {
            Some(p) => exists|i: int| #[trigger] is_profile_of(i, encoder@) && p@ == profiles()[i],
            None => !has_profile(encoder@),
        },
        extra_flags(encoder@) == match found {
            Some(p) => text::str_texts(p.extra@),
            None => Seq::empty(),
        },
{
    let mut table = encoder_profiles();
    let ghost all = table@;
    let mut i: usize = 0;
    while i < table.len()
        invariant
            i <= table@.len(),
            table@ == all,
            profile_views(table@) == profiles(),
            forall|k: int| 0 <= k < i ==> #[trigger] profiles()[k].encoder != encoder@,
        decreases table@.len() - i,
    {
        assert(profile_views(table@)[i as int] == table@[i as int]@);
        if same_text(table[i].encoder, encoder) {
            let p = table.swap_remove(i);
            assert(is_profile_of(i as int, encoder@));
            assert(i == 0 || i == 1 || i == 2);
            assert(profiles()[0].encoder == nvenc_profile().encoder);
            assert(profiles()[1].encoder == amf_profile().encoder);
            return Some(p);
        }
        i += 1;
    }
    assert(profiles()[0].encoder != encoder@);
    assert(profiles()[1].encoder != encoder@);
    assert(profiles()[2].encoder != encoder@);
    None
}

// ---------------------------------------------------------------------------
// The search for an encoder that works
// ---------------------------------------------------------------------------

/// How far the search for a working encoder has come.
#[derive(Debug, Clone, Copy, PartialEq, Eq, Structural)]
pub enum Candidate {
    /// The encoder that is set.
    Configured,
    /// The encoder of a profile, by its place in the order of trial.
    Profile(usize),
    /// No encoder is left to try.
    NoneLeft,
}

impl Candidate {
    /// The place of a profile in the order of trial is one that exists.
    pub open spec fn well_formed(self) -> bool {
        self matches Candidate::Profile(i) ==> i < profiles().len()
    }
}

/// The encoder to try, if one is left.
pub open spec fn candidate_name(cfg: &CaptureConfig, candidate: Candidate) -> Option<Seq<char>> {
    match candidate {
        Candidate::Configured => Some(cfg.encoder@),
        Candidate::Profile(i) => Some(profiles()[i as int].encoder),
        Candidate::NoneLeft => None,
    }
}

/// The first profile from place `from` on whose encoder is not the one that is
/// set.
pub open spec fn other_profile(cfg: &CaptureConfig, from: int) -> Candidate
    decreases profiles().len() - from,
{
    if from < 0 || from >= profiles().len() {
        Candidate::NoneLeft
    } else if profiles()[from].encoder != cfg.encoder@ {
        Candidate::Profile(from as usize)
    } else {
        other_profile(cfg, from + 1)
    }
}

/// What is tried after a candidate that does not work.
pub open spec fn candidate_after(cfg: &CaptureConfig, candidate: Candidate) -> Candidate {
    match candidate {
        Candidate::Configured => other_profile(cfg, 0),
        Candidate::Profile(i) => other_profile(cfg, i + 1),
        Candidate::NoneLeft => Candidate::NoneLeft,
    }
}

/// The encoder to try, if one is left.
pub fn candidate_encoder(cfg: &CaptureConfig, candidate: Candidate) -> (name: Option<String>)
    requires
        candidate.well_formed(),
    ensures
        match name {
            Some(n) => candidate_name(cfg, candidate) == Some(n@),
            None => candidate_name(cfg, candidate) is None,
        },
{
    match candidate {
        Candidate::Configured => Some(cfg.encoder.clone()),
        Candidate::Profile(i) => {
            let table = encoder_profiles();
            assert(profile_views(table@)[i as int] == table@[i as int]@);
            Some(table[i].encoder.to_owned())
        },
        Candidate::NoneLeft => None,
    }
}

/// What to try after a candidate that does not work.
pub fn next_candidate(cfg: &CaptureConfig, candidate: Candidate) -> (next: Candidate)
    requires
        candidate.well_formed(),
    ensures
        next == candidate_after(cfg, candidate),
        next.well_formed(),
{
    let from: usize = match candidate {
        Candidate::Configured => 0,
        Candidate::Profile(i) => i + 1,
        Candidate::NoneLeft => {
            return Candidate::NoneLeft;
        },
    };
    let table = encoder_profiles();
    let mut i: usize = from;
    while i < table.len()
        invariant
            from <= i,
            profile_views(table@) == profiles(),
            candidate_after(cfg, candidate) == other_profile(cfg, i as int),
        decreases table@.len() - i,
    {
        assert(profile_views(table@)[i as int] == table@[i as int]@);
        if !same_text(table[i].encoder, cfg.encoder.as_str()) {
            return Candidate::Profile(i);
        }
        i += 1;
    }
    assert(profile_views(table@).len() == table@.len());
    Candidate::NoneLeft
}

/// The settings to record with once the search has ended: as they are where
/// the encoder that is set works or none does, else with the encoder, preset,
/// rate control and quality of the profile that works.
pub fn resolve_encoder(cfg: &CaptureConfig, found: Candidate) -> (resolved: CaptureConfig)
    requires
        found.well_formed(),
    ensures
        match found {
            Candidate::Profile(i) => {
                &&& resolved.encoder@ == profiles()[i as int].encoder
                &&& resolved.preset@ == profiles()[i as int].preset
                &&& resolved.rate_control@ == profiles()[i as int].rate_control
                &&& resolved.quality@ == profiles()[i as int].quality
                &&& resolved == (CaptureConfig {
                    encoder: resolved.encoder,
                    preset: resolved.preset,
                    rate_control: resolved.rate_control,
                    quality: resolved.quality,
                    ..*cfg
                })
            },
            _ => resolved == *cfg,
        },
{
    let mut resolved = cfg.clone();
    if let Candidate::Profile(i) = found {
        let table = encoder_profiles();
        assert(profile_views(table@)[i as int] == table@[i as int]@);
        resolved.encoder = table[i].encoder.to_owned();
        resolved.preset = table[i].preset.to_owned();
        resolved.rate_control = table[i].rate_control.to_owned();
        resolved.quality = table[i].quality.to_owned();
    }
    resolved
}

/// How many candidates are left at most, `candidate` included.
pub open spec fn candidates_left(candidate: Candidate) -> int {
    match candidate {
        Candidate::Configured => profiles().len() as int + 1,
        Candidate::Profile(i) => if i < profiles().len() {
            profiles().len() - i
        } else {
            1
        },
        Candidate::NoneLeft => 0,
    }
}

/// Where the search ends when it goes on from `candidate` and `works` says
/// which encoders work.
pub open spec fn search_end(
    cfg: &CaptureConfig,
    candidate: Candidate,
    works: spec_fn(Seq<char>) -> bool,
) -> Candidate
    decreases candidates_left(candidate),
{
    match candidate_name(cfg, candidate) {
        None => candidate,
        Some(name) => if works(name) {
            candidate
        } else {
            proof {
                lemma_search_moves_on(cfg, candidate);
            }
            search_end(cfg, candidate_after(cfg, candidate), works)
        },
    }
}

/// `other_profile` finds a profile from `from` on, or none.
proof fn lemma_other_profile(cfg: &CaptureConfig, from: int)
    requires
        0 <= from,
    ensures
        match other_profile(cfg, from) {
            Candidate::Profile(i) => {
                &&& from <= i < profiles().len()
                &&& profiles()[i as int].encoder != cfg.encoder@
                &&& forall|k: int|
                    from <= k < i ==> #[trigger] profiles()[k].encoder == cfg.encoder@
            },
            Candidate::NoneLeft => forall|k: int|
                from <= k < profiles().len() ==> #[trigger] profiles()[k].encoder == cfg.encoder@,
            Candidate::Configured => false,
        },
    decreases profiles().len() - from,
{
    if from < profiles().len() && profiles()[from].encoder == cfg.encoder@ {
        lemma_other_profile(cfg, from + 1);
    }
}

/// With each candidate that fails fewer are left.
pub proof fn lemma_search_moves_on(cfg: &CaptureConfig, candidate: Candidate)
    requires
        candidate_name(cfg, candidate) is Some,
    ensures
        candidates_left(candidate_after(cfg, candidate)) < candidates_left(candidate),
{
    match candidate {
        Candidate::Configured => lemma_other_profile(cfg, 0),
        Candidate::Profile(i) => lemma_other_profile(cfg, i + 1),
        Candidate::NoneLeft => {},
    }
}

/// The search keeps the encoder that is set where it works; else it takes the
/// first profile in order whose encoder works; and it comes to nothing only
/// where no encoder works.
pub proof fn law_search_finds_first_working(
    cfg: &CaptureConfig,
    works: spec_fn(Seq<char>) -> bool,
)
    ensures
        match search_end(cfg, Candidate::Configured, works) {
            Candidate::Configured => works(cfg.encoder@),
            Candidate::Profile(i) => {
                &&& i < profiles().len()
                &&& !works(cfg.encoder@)
                &&& works(profiles()[i as int].encoder)
                &&& forall|k: int| 0 <= k < i ==> !works(#[trigger] profiles()[k].encoder)
            },
            Candidate::NoneLeft => {
                &&& !works(cfg.encoder@)
                &&& forall|k: int|
                    0 <= k < profiles().len() ==> !works(#[trigger] profiles()[k].encoder)
            },
        },
{
    if !works(cfg.encoder@) {
        lemma_other_profile(cfg, 0);
        lemma_search_from(cfg, candidate_after(cfg, Candidate::Configured), works);
    }
}

proof fn lemma_search_from(
    cfg: &CaptureConfig,
    candidate: Candidate,
    works: spec_fn(Seq<char>) -> bool,
)
    requires
        candidate.well_formed(),
        candidate != Candidate::Configured,
        !works(cfg.encoder@),
        candidate matches Candidate::Profile(i) ==> forall|k: int|
            0 <= k < i ==> !works(#[trigger] profiles()[k].encoder),
        candidate is NoneLeft ==> forall|k: int|
            0 <= k < profiles().len() ==> !works(#[trigger] profiles()[k].encoder),
    ensures
        match search_end(cfg, candidate, works) {
            Candidate::Configured => false,
            Candidate::Profile(i) => {
                &&& i < profiles().len()
                &&& works(profiles()[i as int].encoder)
                &&& forall|k: int| 0 <= k < i ==> !works(#[trigger] profiles()[k].encoder)
            },
            Candidate::NoneLeft => forall|k: int|
                0 <= k < profiles().len() ==> !works(#[trigger] profiles()[k].encoder),
        },
    decreases candidates_left(candidate),
{
    if let Candidate::Profile(i) = candidate {
        if !works(profiles()[i as int].encoder) {
            lemma_other_profile(cfg, i + 1);
            lemma_search_moves_on(cfg, candidate);
            let next = candidate_after(cfg, candidate);
            assert forall|k: int|
                0 <= k < profiles().len() && (next matches Candidate::Profile(j) ==> k
                    < j) implies !works(#[trigger] profiles()[k].encoder) by {
                if k > i {
                    assert(profiles()[k].encoder == cfg.encoder@);
                }
            }
            lemma_search_from(cfg, next, works);
        }
    }
}

// ---------------------------------------------------------------------------
// Where ffmpeg is
// ---------------------------------------------------------------------------

/// The first line of a listing, without the whitespace around it; none where
/// the listing is empty.
pub open spec fn first_line(listing: Seq<char>) -> Option<Seq<char>> {
    if listing.len() == 0 {
        None
    } else {
        Some(text::trimmed(listing.take(text::next_position(listing, '\n', 0))))
    }
}

/// The path that a listing of programs gives first.
pub fn first_listed_path(listing: &str) -> (path: Option<String>)
    ensures
        match path {
            Some(p) => first_line(listing@) == Some(p@),
            None => first_line(listing@) is None,
        },
{
    let chars = chars_of(listing);
    if chars.len() == 0 {
        return None;
    }
    let end: usize = position_from(&chars, '\n', 0);
    let line = chars_of(string_of_range(&chars, 0, end).as_str());
    assert(line@ =~= listing@.take(end as int));
    Some(trim(&line))
}

// ---------------------------------------------------------------------------
// What ffmpeg says
// ---------------------------------------------------------------------------

/// What to log of a line that ffmpeg writes to its error output: the line
/// without the whitespace at its end, or nothing where nothing is left of it.
pub fn stderr_line(line: &str) -> (out: Option<String>)
    ensures
        match out {
            Some(l) => l@ == text::trimmed_end(line@) && l@.len() > 0,
            None => text::trimmed_end(line@).len() == 0,
        },
{
    let rest = trim_end(&chars_of(line));
    if rest.as_str().is_empty() {
        None
    } else {
        Some(rest)
    }
}

// ---------------------------------------------------------------------------
// Arguments of ffmpeg
// ---------------------------------------------------------------------------

/// The sound that ffmpeg reads from a pipe.
pub struct AudioInput<'a> {
    pub pipe_path: &'a str,
    pub sample_rate: u32,
}

/// A size as ffmpeg takes it: width, `x`, height.
pub open spec fn size_text(width: u32, height: u32) -> Seq<char> {
    text::decimal(width as nat) + "x"@ + text::decimal(height as nat)
}

/// The raw frames that are read from standard input.
pub open spec fn video_input_args(width: u32, height: u32, fps: u64) -> Seq<Seq<char>> {
    seq![
        "-y"@,
        "-f"@,
        "rawvideo"@,
        "-pix_fmt"@,
        "bgra"@,
        "-s"@,
        size_text(width, height),
        "-r"@,
        text::decimal(fps as nat),
        "-i"@,
        "pipe:0"@,
    ]
}

/// The stereo sound that is read from a pipe, if any.
pub open spec fn audio_input_args(audio: Option<AudioInput>) -> Seq<Seq<char>> {
    match audio {
        Some(ai) => seq![
            "-f"@,
            "f32le"@,
            "-ar"@,
            text::decimal(ai.sample_rate as nat),
            "-ac"@,
            "2"@,
            "-i"@,
            ai.pipe_path@,
        ],
        None => Seq::empty(),
    }
}

/// How the video is encoded.
pub open spec fn video_codec_args(cfg: &CaptureConfig) -> Seq<Seq<char>> {
    seq![
        "-pix_fmt"@,
        "yuv420p"@,
        "-c:v"@,
        cfg.encoder@,
        "-preset"@,
        cfg.preset@,
        "-rc"@,
        cfg.rate_control@,
        config::quality_flag_for(cfg.rate_control@),
        cfg.quality@,
    ]
}

/// How the sound is encoded, if there is any.
pub open spec fn audio_codec_args(audio: Option<AudioInput>) -> Seq<Seq<char>> {
    match audio {
        Some(_) => seq!["-c:a"@, "aac"@, "-b:a"@, "320k"@, "-aac_coder"@, "twoloop"@],
        None => Seq::empty(),
    }
}

/// How the recording is cut into segments.
pub open spec fn segment_args(segment_time: u64, pattern: Seq<char>) -> Seq<Seq<char>> {
    seq![
        "-f"@,
        "segment"@,
        "-segment_time"@,
        text::decimal(segment_time as nat),
        "-reset_timestamps"@,
        "1"@,
        "-segment_format"@,
        "mp4"@,
        text::replaced(pattern, '\\', '/'),
    ]
}

/// All arguments that ffmpeg records with.
pub open spec fn ffmpeg_args(
    width: u32,
    height: u32,
    pattern: Seq<char>,
    cfg: &CaptureConfig,
    audio: Option<AudioInput>,
) -> Seq<Seq<char>> {
    video_input_args(width, height, cfg.fps) + audio_input_args(audio) + video_codec_args(cfg)
        + extra_flags(cfg.encoder@) + audio_codec_args(audio) + segment_args(
        cfg.segment_time,
        pattern,
    )
}

/// The arguments that ffmpeg records with: frames of `width` by `height` on
/// standard input, the sound if any, the encoder with the flags of its
/// profile, and segments written to files named after `seg_pattern`.
pub fn build_ffmpeg_args(
    width: u32,
    height: u32,
    seg_pattern: &str,
    cfg: &CaptureConfig,
    audio: Option<AudioInput<'_>>,
) -> (args: Vec<String>)
    ensures
        text::texts(args@) == ffmpeg_args(width, height, seg_pattern@, cfg, audio),
{
    let mut args: Vec<String> = Vec::new();
    let mut size = decimal_text(width as u64);
    size.append("x");
    push_decimal(&mut size, height as u64);
    let fps = decimal_text(cfg.fps);
    let video = [
        "-y",
        "-f",
        "rawvideo",
        "-pix_fmt",
        "bgra",
        "-s",
        size.as_str(),
        "-r",
        fps.as_str(),
        "-i",
        "pipe:0",
    ];
    push_all(&mut args, &video);
    assert(text::str_texts(video@) =~= video_input_args(width, height, cfg.fps));
    assert(text::texts(args@) =~= video_input_args(width, height, cfg.fps));

    if let Some(ai) = &audio {
        let rate = decimal_text(ai.sample_rate as u64);
        let sound = ["-f", "f32le", "-ar", rate.as_str(), "-ac", "2", "-i", ai.pipe_path];
        push_all(&mut args, &sound);
        assert(text::str_texts(sound@) =~= audio_input_args(audio));
    }
    assert(text::texts(args@) =~= video_input_args(width, height, cfg.fps) + audio_input_args(
        audio,
    ));

    let codec = [
        "-pix_fmt",
        "yuv420p",
        "-c:v",
        cfg.encoder.as_str(),
        "-preset",
        cfg.preset.as_str(),
        "-rc",
        cfg.rate_control.as_str(),
        cfg.quality_flag(),
        cfg.quality.as_str(),
    ];
    push_all(&mut args, &codec);
    assert(text::str_texts(codec@) =~= video_codec_args(cfg));

    if let Some(profile) = lookup_profile(cfg.encoder.as_str()) {
        push_all(&mut args, profile.extra.as_slice());
    }
    assert(text::texts(args@) =~= video_input_args(width, height, cfg.fps) + audio_input_args(audio)
        + video_codec_args(cfg) + extra_flags(cfg.encoder@));

    if audio.is_some() {
        let sound = ["-c:a", "aac", "-b:a", "320k", "-aac_coder", "twoloop"];
        push_all(&mut args, &sound);
        assert(text::str_texts(sound@) =~= audio_codec_args(audio));
    }
    assert(text::texts(args@) =~= video_input_args(width, height, cfg.fps) + audio_input_args(audio)
        + video_codec_args(cfg) + extra_flags(cfg.encoder@) + audio_codec_args(audio));

    let segment_time = decimal_text(cfg.segment_time);
    let pattern = replace_char(seg_pattern, '\\', '/');
    let segments = [
        "-f",
        "segment",
        "-segment_time",
        segment_time.as_str(),
        "-reset_timestamps",
        "1",
        "-segment_format",
        "mp4",
        pattern.as_str(),
    ];
    push_all(&mut args, &segments);
    assert(text::str_texts(segments@) =~= segment_args(cfg.segment_time, seg_pattern@));
    args
}

/// Whether two arguments stand one after the other.
pub open spec fn has_option(args: Seq<Seq<char>>, flag: Seq<char>, value: Seq<char>) -> bool {
    exists|i: int| 0 <= i && i + 1 < args.len() && #[trigger] args[i] == flag && args[i + 1] == value
}

/// Whatever the settings, the arguments declare the size of the frames that
/// are written and the rate at which they are.
pub proof fn law_size_and_rate_are_declared(
    width: u32,
    height: u32,
    pattern: Seq<char>,
    cfg: &CaptureConfig,
    audio: Option<AudioInput>,
)
    ensures
        has_option(ffmpeg_args(width, height, pattern, cfg, audio), "-s"@, size_text(width, height)),
        has_option(
            ffmpeg_args(width, height, pattern, cfg, audio),
            "-r"@,
            text::decimal(cfg.fps as nat),
        ),
        has_option(ffmpeg_args(width, height, pattern, cfg, audio), "-pix_fmt"@, "bgra"@),
        has_option(ffmpeg_args(width, height, pattern, cfg, audio), "-i"@, "pipe:0"@),
{
    let args = ffmpeg_args(width, height, pattern, cfg, audio);
    let first = video_input_args(width, height, cfg.fps);
    assert(forall|i: int| 0 <= i < first.len() ==> args[i] == #[trigger] first[i]);
    assert(args[3] == first[3] && args[4] == first[4]);
    assert(args[5] == first[5] && args[6] == first[6]);
    assert(args[7] == first[7] && args[8] == first[8]);
    assert(args[9] == first[9] && args[10] == first[10]);
}

/// With sound, the arguments name the pipe, its rate and its two channels;
/// without, they name no sound at all.
pub proof fn law_sound_is_declared(
    width: u32,
    height: u32,
    pattern: Seq<char>,
    cfg: &CaptureConfig,
    audio: Option<AudioInput>,
)
    ensures
        audio matches Some(ai) ==> {
            let args = ffmpeg_args(width, height, pattern, cfg, audio);
            &&& has_option(args, "-ar"@, text::decimal(ai.sample_rate as nat))
            &&& has_option(args, "-ac"@, "2"@)
            &&& has_option(args, "-i"@, ai.pipe_path@)
            &&& has_option(args, "-c:a"@, "aac"@)
            &&& has_option(args, "-b:a"@, "320k"@)
        },
        audio is None ==> ffmpeg_args(width, height, pattern, cfg, audio) == video_input_args(
            width,
            height,
            cfg.fps,
        ) + video_codec_args(cfg) + extra_flags(cfg.encoder@) + segment_args(
            cfg.segment_time,
            pattern,
        ),
{
    let args = ffmpeg_args(width, height, pattern, cfg, audio);
    let video = video_input_args(width, height, cfg.fps);
    if let Some(ai) = audio {
        let input = audio_input_args(audio);
        let n = video.len() as int;
        assert(forall|i: int| 0 <= i < input.len() ==> args[n + i] == #[trigger] input[i]);
        assert(args[n + 2] == input[2] && args[n + 3] == input[3]);
        assert(args[n + 4] == input[4] && args[n + 5] == input[5]);
        assert(args[n + 6] == input[6] && args[n + 7] == input[7]);
        let codec = audio_codec_args(audio);
        let m = n + input.len() + video_codec_args(cfg).len() + extra_flags(cfg.encoder@).len();
        assert(forall|i: int| 0 <= i < codec.len() ==> args[m + i] == #[trigger] codec[i]);
        assert(args[m] == codec[0] && args[m + 1] == codec[1]);
        assert(args[m + 2] == codec[2] && args[m + 3] == codec[3]);
    } else {
        assert(args =~= video + video_codec_args(cfg) + extra_flags(cfg.encoder@) + segment_args(
            cfg.segment_time,
            pattern,
        ));
    }
}

/// The last argument names the files that segments are written to: where its
/// caller names them after the segment pattern, so does ffmpeg, and they are
/// listed as segments.
pub proof fn law_segments_go_to_the_pattern(
    width: u32,
    height: u32,
    pattern: Seq<char>,
    cfg: &CaptureConfig,
    audio: Option<AudioInput>,
)
    requires
        "seg_%04d.mp4"@.is_suffix_of(pattern),
    ensures
        ({
            let last = ffmpeg_args(width, height, pattern, cfg, audio).last();
            last == text::replaced(pattern, '\\', '/') && "seg_%04d.mp4"@.is_suffix_of(last)
                && buffer::is_mp4(last)
        }),
{
    reveal_strlit("seg_%04d.mp4");
    reveal_strlit(".mp4");
    let name = "seg_%04d.mp4"@;
    let args = ffmpeg_args(width, height, pattern, cfg, audio);
    let segments = segment_args(cfg.segment_time, pattern);
    assert(args.last() == segments.last());
    let last = args.last();
    let from = pattern.len() - name.len();
    assert(pattern.skip(from) == name);
    assert forall|i: int| 0 <= i < name.len() implies last[from + i] == name[i] by {
        assert(pattern[from + i] == pattern.skip(from)[i]);
    }
    assert(last.skip(from) =~= name);
    assert(last.skip(last.len() - 4) =~= ".mp4"@) by {
        assert(last.skip(last.len() - 4) =~= name.skip(8));
        assert(name.skip(8) =~= ".mp4"@);
    }
}

/// The arguments of a trial run that encodes one small black frame to nothing.
pub fn probe_args(encoder: &str) -> (args: Vec<String>)
    ensures
        text::texts(args@) == seq![
            "-hide_banner"@,
            "-loglevel"@,
            "error"@,
            "-f"@,
            "lavfi"@,
            "-i"@,
            "color=black:s=256x256:d=0.01"@,
            "-frames:v"@,
            "1"@,
            "-c:v"@,
            encoder@,
            "-f"@,
            "null"@,
            "-"@,
        ],
{
    let mut args: Vec<String> = Vec::new();
    let list = [
        "-hide_banner",
        "-loglevel",
        "error",
        "-f",
        "lavfi",
        "-i",
        "color=black:s=256x256:d=0.01",
        "-frames:v",
        "1",
        "-c:v",
        encoder,
        "-f",
        "null",
        "-",
    ];
    push_all(&mut args, &list);
    args
}

/// Each encoder has one profile, which asks for the same quality and the same
/// H.264 profile and level; the flags of a profile are added for its encoder,
/// and none for an encoder without a profile.
pub proof fn law_profiles_suit_their_encoders(i: int, j: int, encoder: Seq<char>)
    ensures
        profiles().len() == 3,
        0 <= i < 3 && 0 <= j < 3 && profiles()[i].encoder == profiles()[j].encoder ==> i == j,
        0 <= i < 3 ==> {
            &&& profiles()[i].quality == "16"@
            &&& has_option(profiles()[i].extra, "-profile:v"@, "high"@)
            &&& has_option(profiles()[i].extra, "-level"@, "4.2"@)
            &&& extra_flags(profiles()[i].encoder) == profiles()[i].extra
        },
        !has_profile(encoder) ==> extra_flags(encoder).len() == 0,
        profiles()[0].encoder == "h264_nvenc"@ && profiles()[0].preset == "p7"@
            && profiles()[0].rate_control == "constqp"@,
        profiles()[1].encoder == "h264_amf"@ && profiles()[1].preset == "balanced"@
            && profiles()[1].rate_control == "cqp"@,
        profiles()[2].encoder == "libx264"@ && profiles()[2].preset == "slow"@
            && profiles()[2].rate_control == "crf"@,
{
    reveal_strlit("h264_nvenc");
    reveal_strlit("h264_amf");
    reveal_strlit("libx264");
    assert("h264_nvenc"@.len() == 10 && "h264_amf"@.len() == 8 && "libx264"@.len() == 7);
    let a = nvenc_profile().extra;
    assert(a[14] == "-profile:v"@ && a[15] == "high"@ && a[16] == "-level"@ && a[17] == "4.2"@);
    let b = amf_profile().extra;
    assert(b[2] == "-profile:v"@ && b[3] == "high"@ && b[4] == "-level"@ && b[5] == "4.2"@);
    let c = x264_profile().extra;
    assert(c[2] == "-profile:v"@ && c[3] == "high"@ && c[4] == "-level"@ && c[5] == "4.2"@);
    assert(profiles()[0] == nvenc_profile() && profiles()[1] == amf_profile() && profiles()[2]
        == x264_profile());
}

/// The flags that each profile adds beside the H.264 profile and level: the
/// quality flags of its encoder, and no preanalysis for AMD.
pub proof fn law_profiles_add_quality_flags(k: int)
    ensures
        has_option(nvenc_profile().extra, "-tune"@, "hq"@),
        has_option(nvenc_profile().extra, "-multipass"@, "fullres"@),
        has_option(nvenc_profile().extra, "-spatial_aq"@, "1"@),
        has_option(nvenc_profile().extra, "-temporal_aq"@, "1"@),
        has_option(nvenc_profile().extra, "-rc-lookahead"@, "32"@),
        has_option(nvenc_profile().extra, "-bf"@, "3"@),
        has_option(nvenc_profile().extra, "-b_ref_mode"@, "middle"@),
        nvenc_profile().extra.len() == 18,
        has_option(amf_profile().extra, "-vbaq"@, "true"@),
        amf_profile().extra.len() == 6,
        0 <= k < amf_profile().extra.len() ==> amf_profile().extra[k] != "-preanalysis"@,
        has_option(x264_profile().extra, "-tune"@, "film"@),
        x264_profile().extra.len() == 6,
{
    let a = nvenc_profile().extra;
    assert(a[0] == "-tune"@ && a[1] == "hq"@);
    assert(a[2] == "-multipass"@ && a[3] == "fullres"@);
    assert(a[4] == "-spatial_aq"@ && a[5] == "1"@);
    assert(a[6] == "-temporal_aq"@ && a[7] == "1"@);
    assert(a[8] == "-rc-lookahead"@ && a[9] == "32"@);
    assert(a[10] == "-bf"@ && a[11] == "3"@);
    assert(a[12] == "-b_ref_mode"@ && a[13] == "middle"@);
    let b = amf_profile().extra;
    assert(b[0] == "-vbaq"@ && b[1] == "true"@);
    let c = x264_profile().extra;
    assert(c[0] == "-tune"@ && c[1] == "film"@);
    reveal_strlit("-preanalysis");
    reveal_strlit("-vbaq");
    reveal_strlit("true");
    reveal_strlit("-profile:v");
    reveal_strlit("high");
    reveal_strlit("-level");
    reveal_strlit("4.2");
    assert("-preanalysis"@.len() == 12);
    if 0 <= k < b.len() {
        assert(b[k].len() <= 10);
    }
}

/// The listing is cut at its first line break, and the whitespace around its
/// first line is cut off.
pub proof fn law_first_line_is_taken(line: Seq<char>, rest: Seq<char>)
    requires
        !line.contains('\n'),
    ensures
        first_line(line + seq!['\n'] + rest) == Some(text::trimmed(line)),
        line.len() > 0 ==> first_line(line) == Some(text::trimmed(line)),
        first_line(Seq::<char>::empty()) is None,
{
    let s = line + seq!['\n'] + rest;
    assert forall|k: int| 0 <= k < line.len() implies s[k] != '\n' && line[k] != '\n' by {
        assert(line.contains(line[k]));
        assert(s[k] == line[k]);
    }
    assert(s[line.len() as int] == '\n');
    text::lemma_next_position(s, '\n', 0, line.len() as int);
    assert(s.take(line.len() as int) =~= line);
    text::lemma_next_position(line, '\n', 0, line.len() as int);
    assert(line.take(line.len() as int) =~= line);
}

/// Whatever the settings, the arguments hold the encoder, preset, rate control
/// and quality that are set, the length of a segment, and the form that
/// segments are written in; and there are no arguments beside those of the
/// video, the sound, the encoder with the flags of its profile, and the
/// segments.
pub proof fn law_settings_are_declared(
    width: u32,
    height: u32,
    pattern: Seq<char>,
    cfg: &CaptureConfig,
    audio: Option<AudioInput>,
)
    ensures
        ({
            let args = ffmpeg_args(width, height, pattern, cfg, audio);
            &&& args.len() == 30 + extra_flags(cfg.encoder@).len() + if audio is Some {
                14int
            } else {
                0
            }
            &&& args[0] == "-y"@
            &&& has_option(
                args,
                "-s"@,
                text::decimal(width as nat) + "x"@ + text::decimal(height as nat),
            )
            &&& has_option(args, "-f"@, "rawvideo"@)
            &&& has_option(args, "-pix_fmt"@, "yuv420p"@)
            &&& has_option(args, "-c:v"@, cfg.encoder@)
            &&& has_option(args, "-preset"@, cfg.preset@)
            &&& has_option(args, "-rc"@, cfg.rate_control@)
            &&& has_option(args, config::quality_flag_for(cfg.rate_control@), cfg.quality@)
            &&& has_option(args, "-f"@, "segment"@)
            &&& has_option(args, "-segment_time"@, text::decimal(cfg.segment_time as nat))
            &&& has_option(args, "-reset_timestamps"@, "1"@)
            &&& has_option(args, "-segment_format"@, "mp4"@)
            &&& args.last() == text::replaced(pattern, '\\', '/')
            &&& exists|at: int|
                0 <= at && at + extra_flags(cfg.encoder@).len() <= args.len()
                    && #[trigger] args.subrange(at, at + extra_flags(cfg.encoder@).len())
                    == extra_flags(cfg.encoder@)
        }),
{
    let args = ffmpeg_args(width, height, pattern, cfg, audio);
    let video = video_input_args(width, height, cfg.fps);
    let input = audio_input_args(audio);
    let codec = video_codec_args(cfg);
    let extra = extra_flags(cfg.encoder@);
    let sound = audio_codec_args(audio);
    let segments = segment_args(cfg.segment_time, pattern);
    assert(forall|i: int| 0 <= i < video.len() ==> args[i] == #[trigger] video[i]);
    assert(args[0] == video[0]);
    assert(args[1] == video[1] && args[2] == video[2]);
    assert(args[5] == video[5] && args[6] == video[6]);
    let n = (video.len() + input.len()) as int;
    assert(forall|i: int| 0 <= i < codec.len() ==> args[n + i] == #[trigger] codec[i]);
    assert(args[n] == codec[0] && args[n + 1] == codec[1]);
    assert(args[n + 2] == codec[2] && args[n + 3] == codec[3]);
    assert(args[n + 4] == codec[4] && args[n + 5] == codec[5]);
    assert(args[n + 6] == codec[6] && args[n + 7] == codec[7]);
    assert(args[n + 8] == codec[8] && args[n + 9] == codec[9]);
    let e = n + codec.len();
    assert(args.subrange(e, e + extra.len()) =~= extra);
    let m = e + extra.len() + sound.len();
    assert(forall|i: int| 0 <= i < segments.len() ==> args[m + i] == #[trigger] segments[i]);
    assert(args[m] == segments[0] && args[m + 1] == segments[1]);
    assert(args[m + 2] == segments[2] && args[m + 3] == segments[3]);
    assert(args[m + 4] == segments[4] && args[m + 5] == segments[5]);
    assert(args[m + 6] == segments[6] && args[m + 7] == segments[7]);
    assert(args.last() == segments.last());
}

/// The search goes on with each encoder once: first the one that is set, then
/// the profiles in order, and none of them is the one that is set.
pub proof fn law_search_tries_each_encoder_once(cfg: &CaptureConfig, i: usize)
    ensures
        candidate_name(cfg, Candidate::Configured) == Some(cfg.encoder@),
        candidate_name(cfg, Candidate::NoneLeft) is None,
        i < profiles().len() ==> candidate_name(cfg, Candidate::Profile(i)) == Some(
            profiles()[i as int].encoder,
        ),
        candidate_after(cfg, Candidate::Profile(i)) matches Candidate::Profile(j) ==> i < j
            < profiles().len() && profiles()[j as int].encoder != cfg.encoder@,
        candidate_after(cfg, Candidate::Configured) matches Candidate::Profile(j) ==> j
            < profiles().len() && profiles()[j as int].encoder != cfg.encoder@,
        candidate_after(cfg, Candidate::NoneLeft) == Candidate::NoneLeft,
{
    lemma_other_profile(cfg, 0);
    lemma_other_profile(cfg, i + 1);
}

/// Profiles as texts are those that the vector holds, one for one.
pub proof fn law_views_are_those_of_the_profiles(v: Seq<EncoderProfile>)
    ensures
        profile_views(v).len() == v.len(),
        forall|i: int|
            0 <= i < v.len() ==> {
                let p = #[trigger] profile_views(v)[i];
                &&& p.encoder == v[i].encoder@ && p.preset == v[i].preset@
                &&& p.rate_control == v[i].rate_control@ && p.quality == v[i].quality@
                &&& p.extra.len() == v[i].extra@.len()
            },
{
}

} // verus!
