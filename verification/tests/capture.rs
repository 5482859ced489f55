use snapple::buffer::segment_file_pattern;
use snapple::capture::{
    choose_monitor, choose_monitor_target, cleanup_due, find_window_for_pid, frame_action,
    frame_bytes, frame_interval, hold_side, keeps_probing, monitor_by_index, waits_for_sound,
    CaptureLoop, CaptureSession, ClientRect, ContentProbe, FrameAction, FramePacer, MonitorChoice,
    Phase, SearchStep, WindowInfo, WindowSearch, WS_EX_TOOLWINDOW, WS_VISIBLE,
};
use snapple::config::CaptureConfig;
use snapple::downsample::{downsample_bgra, DownsampleLut};
use snapple::encoder::{
    build_ffmpeg_args, candidate_encoder, encoder_profiles, first_listed_path, lookup_profile,
    next_candidate, probe_args, resolve_encoder, stderr_line, AudioInput, Candidate,
};
use snapple::scale::{compute_output_dims, output_dims_exist, parse_scale, ScaleRule};
use std::path::Path;
use std::time::{Duration, Instant};

/// The pattern of the segment files in a directory.
fn segments_in(dir: &Path) -> String {
    dir.join("seg_%04d.mp4").to_string_lossy().to_string()
}

/// A session that records, with no frame so far.
fn dummy() -> CaptureSession {
    CaptureSession { running: true, warmup_done: true, frame_counter: 0 }
}

fn ns(since: Instant) -> u128 {
    since.elapsed().as_nanos()
}

#[test]
fn uses_declared_fps_for_real_time_pacing() {
    assert_eq!(Duration::from_micros(frame_interval(60)), Duration::from_micros(16_666));
    assert_eq!(Duration::from_micros(frame_interval(30)), Duration::from_micros(33_333));
}

#[test]
fn ffmpeg_args_preserve_aspect_ratio_and_declared_speed() {
    let cfg = CaptureConfig {
        fps: 60,
        scale: "scale=-2:720".into(),
        encoder: "h264_nvenc".into(),
        preset: "p4".into(),
        rate_control: "constqp".into(),
        quality: "16".into(),
        segment_time: 5,
        monitor: "auto".into(),
        microphone: "default".into(),
        mic_volume_bits: 0.15f32.to_bits(),
    };

    let args = build_ffmpeg_args(2560, 1440, &segments_in(Path::new("C:/temp")), &cfg, None);

    // No -vf scale: input is pre-scaled by downsample_bgra.
    assert!(!args.contains(&"-vf".to_string()));
    assert!(args.windows(2).any(|w| w == ["-r", "60"]));
    assert!(args.windows(2).any(|w| w == ["-s", "2560x1440"]));
}

#[test]
fn ffmpeg_args_include_audio_pipe_when_audio_is_enabled() {
    let cfg = CaptureConfig::default();
    let args = build_ffmpeg_args(
        1920,
        1080,
        &segments_in(Path::new("C:/temp")),
        &cfg,
        Some(AudioInput { pipe_path: r"\\.\pipe\snapple_audio_42", sample_rate: 48_000 }),
    );

    assert!(args.windows(2).any(|w| w == ["-ar", "48000"]));
    assert!(args.windows(2).any(|w| w == ["-ac", "2"]));
    assert!(args.windows(2).any(|w| w == ["-i", r"\\.\pipe\snapple_audio_42"]));
    assert!(args.windows(2).any(|w| w == ["-c:a", "aac"]));
    assert!(args.windows(2).any(|w| w == ["-b:a", "320k"]));
}

#[test]
fn ffmpeg_args_no_aresample_filter() {
    let cfg = CaptureConfig::default();
    let args = build_ffmpeg_args(
        1920,
        1080,
        &segments_in(Path::new("C:/temp")),
        &cfg,
        Some(AudioInput { pipe_path: r"\\.\pipe\snapple_audio_42", sample_rate: 48_000 }),
    );

    // Raw pipe input doesn't need a resampling filter, and it causes
    // artifacts under backpressure.
    assert!(
        !args.iter().any(|a| a.contains("aresample")),
        "aresample filter must not be present, it causes audio artifacts"
    );
    assert!(!args.iter().any(|a| a == "-af"), "no audio filters should be applied");
}

#[test]
fn ffmpeg_args_include_nvenc_quality_flags() {
    let cfg = CaptureConfig::default();
    assert_eq!(cfg.encoder, "h264_nvenc");

    let args = build_ffmpeg_args(1280, 720, &segments_in(Path::new("C:/temp")), &cfg, None);

    assert!(args.windows(2).any(|w| w == ["-profile:v", "high"]));
    assert!(args.windows(2).any(|w| w == ["-tune", "hq"]));
    assert!(args.windows(2).any(|w| w == ["-multipass", "fullres"]));
    assert!(args.windows(2).any(|w| w == ["-spatial_aq", "1"]));
    assert!(args.windows(2).any(|w| w == ["-temporal_aq", "1"]));
    assert!(args.windows(2).any(|w| w == ["-rc-lookahead", "32"]));
    assert!(args.windows(2).any(|w| w == ["-bf", "3"]));
    assert!(args.windows(2).any(|w| w == ["-b_ref_mode", "middle"]));
}

#[test]
fn ffmpeg_args_amf_profile_stays_realtime() {
    // The AMF profile must not enable preanalysis or the slow `quality`
    // preset: they push integrated AMD GPUs below real-time and produce
    // sped-up clips. Keep the cheap quality wins (vbaq, high profile, level
    // 4.2).
    let mut cfg = CaptureConfig::default();
    cfg.encoder = "h264_amf".into();
    let profiles = encoder_profiles();
    let amf = profiles
        .iter()
        .find(|p| p.encoder == "h264_amf")
        .expect("h264_amf profile must exist");
    cfg.preset = amf.preset.into();
    cfg.rate_control = amf.rate_control.into();
    cfg.quality = amf.quality.into();

    let args = build_ffmpeg_args(1280, 720, &segments_in(Path::new("C:/temp")), &cfg, None);

    // Cheap quality wins must be present.
    assert!(args.windows(2).any(|w| w == ["-vbaq", "true"]));
    assert!(args.windows(2).any(|w| w == ["-profile:v", "high"]));
    assert!(args.windows(2).any(|w| w == ["-level", "4.2"]));

    // Expensive flags that break real-time on integrated AMD must not be.
    assert!(
        !args.iter().any(|a| a == "-preanalysis"),
        "preanalysis must stay disabled, it pushes AMF below 60fps real-time"
    );
    assert!(
        !args.windows(2).any(|w| w == ["-preset", "quality"]),
        "AMF preset must not be `quality`, too slow on integrated AMD"
    );
}

#[test]
fn ffmpeg_args_unknown_encoder_emits_no_extras() {
    // An encoder without a profile gets no extras: basic args only.
    let mut cfg = CaptureConfig::default();
    cfg.encoder = "h264_qsv".into();
    cfg.preset = "veryslow".into();
    cfg.rate_control = "icq".into();

    let args = build_ffmpeg_args(1280, 720, &segments_in(Path::new("C:/temp")), &cfg, None);

    // Encoder name comes through unchanged.
    assert!(args.windows(2).any(|w| w == ["-c:v", "h264_qsv"]));
    // None of the nvenc-specific extras should leak in.
    assert!(!args.iter().any(|a| a == "-tune"));
    assert!(!args.iter().any(|a| a == "-rc-lookahead"));
}

#[test]
fn audio_bitrate_is_320k() {
    let cfg = CaptureConfig::default();
    let args = build_ffmpeg_args(
        1920,
        1080,
        &segments_in(Path::new("C:/temp")),
        &cfg,
        Some(AudioInput { pipe_path: r"\\.\pipe\snapple_audio_42", sample_rate: 48_000 }),
    );

    assert!(
        args.windows(2).any(|w| w == ["-b:a", "320k"]),
        "audio bitrate must be 320k, got args: {args:?}"
    );
    assert!(!args.windows(2).any(|w| w == ["-b:a", "128k"]), "128k bitrate must not be used");
}

#[test]
fn auto_monitor_prefers_game_window_monitor() {
    assert_eq!(choose_monitor_target("auto", Some(2), 3), 2);
}

#[test]
fn invalid_or_out_of_range_monitor_falls_back_to_primary() {
    assert_eq!(choose_monitor_target("99", Some(2), 3), 1);
    assert_eq!(choose_monitor_target("bogus", Some(2), 3), 1);
}

#[test]
fn output_dims_scale_height_preserves_aspect_ratio() {
    // 16:9 monitor
    assert_eq!(compute_output_dims("scale=-2:720", 2560, 1440), (1280, 720));
    assert_eq!(compute_output_dims("scale=-2:720", 1920, 1080), (1280, 720));
    assert_eq!(compute_output_dims("scale=-2:720", 3840, 2160), (1280, 720));
}

#[test]
fn output_dims_non_16_9_monitors_produce_even_width() {
    // 16:10 laptop display
    let (w, h) = compute_output_dims("scale=-2:720", 2880, 1800);
    assert_eq!(h, 720);
    assert_eq!(w % 2, 0, "width must be even for H.264, got {w}");
    assert_eq!(w, 1152);
}

#[test]
fn output_dims_ultrawide_monitors() {
    // 21:9 ultrawide
    let (w, h) = compute_output_dims("scale=-2:720", 3440, 1440);
    assert_eq!(h, 720);
    assert_eq!(w % 2, 0, "width must be even, got {w}");
    // 3440 * 720 / 1440 = 1720
    assert_eq!(w, 1720);
}

#[test]
fn output_dims_scale_width_mode() {
    let (w, h) = compute_output_dims("scale=1280:-2", 2560, 1440);
    assert_eq!(w, 1280);
    assert_eq!(h % 2, 0, "height must be even, got {h}");
    assert_eq!(h, 720);
}

#[test]
fn output_dims_identity_when_scale_unparseable() {
    // Unrecognised filter: pass through unchanged (no accidental crop)
    assert_eq!(compute_output_dims("lanczos=720", 2560, 1440), (2560, 1440));
    assert_eq!(compute_output_dims("", 2560, 1440), (2560, 1440));
}

#[test]
fn downsample_fills_entire_output_no_black_bars() {
    let src_w: usize = 200;
    let src_h: usize = 100;
    let src_pitch = src_w * 4;
    let src: Vec<u8> = vec![0xAB; src_pitch * src_h];

    let dst_w: usize = 80;
    let dst_h: usize = 40;
    let mut dst = vec![0u8; dst_w * dst_h * 4];

    let lut = DownsampleLut::new(src_w, src_h, dst_w, dst_h);
    assert!(lut.can_average());
    downsample_bgra(&src, src_pitch, &mut dst, &lut);

    // Every pixel in the output must be non-zero: any zeros would
    // indicate black-bar padding that was never written.
    for (i, chunk) in dst.chunks(4).enumerate() {
        let x = i % dst_w;
        let y = i / dst_w;
        assert!(
            chunk.iter().all(|&b| b == 0xAB),
            "black pixel at output ({x}, {y}), downsample left a gap"
        );
    }
}

#[test]
fn downsample_with_pitch_larger_than_width() {
    // GPU staging textures often have a pitch > width*4 due to alignment.
    let src_w: usize = 100;
    let src_h: usize = 50;
    let src_pitch: usize = 512; // much wider than 100*4=400
    let mut src = vec![0u8; src_pitch * src_h];
    // Fill only the valid pixel region with a marker colour.
    for y in 0..src_h {
        for x in 0..src_w {
            let off = y * src_pitch + x * 4;
            src[off..off + 4].copy_from_slice(&[0xCC, 0xDD, 0xEE, 0xFF]);
        }
    }

    let dst_w: usize = 50;
    let dst_h: usize = 25;
    let mut dst = vec![0u8; dst_w * dst_h * 4];

    let lut = DownsampleLut::new(src_w, src_h, dst_w, dst_h);
    downsample_bgra(&src, src_pitch, &mut dst, &lut);

    for (i, chunk) in dst.chunks(4).enumerate() {
        let x = i % dst_w;
        let y = i / dst_w;
        assert_eq!(
            chunk,
            &[0xCC, 0xDD, 0xEE, 0xFF],
            "wrong pixel at output ({x}, {y}), pitch handling is broken"
        );
    }
}

fn naive_downsample(
    src: &[u8],
    src_w: usize,
    src_h: usize,
    src_pitch: usize,
    dst_w: usize,
    dst_h: usize,
) -> Vec<u8> {
    let mut dst = vec![0u8; dst_w * dst_h * 4];
    for dy in 0..dst_h {
        let sy_start = dy * src_h / dst_h;
        let sy_end = (dy + 1) * src_h / dst_h;
        for dx in 0..dst_w {
            let sx_start = dx * src_w / dst_w;
            let sx_end = (dx + 1) * src_w / dst_w;
            let count = ((sy_end - sy_start) * (sx_end - sx_start)) as u32;

            let (mut b, mut g, mut r, mut a) = (0u32, 0u32, 0u32, 0u32);
            for sy in sy_start..sy_end {
                for sx in sx_start..sx_end {
                    let off = sy * src_pitch + sx * 4;
                    b += src[off] as u32;
                    g += src[off + 1] as u32;
                    r += src[off + 2] as u32;
                    a += src[off + 3] as u32;
                }
            }

            let di = (dy * dst_w + dx) * 4;
            dst[di] = (b / count) as u8;
            dst[di + 1] = (g / count) as u8;
            dst[di + 2] = (r / count) as u8;
            dst[di + 3] = (a / count) as u8;
        }
    }
    dst
}

#[test]
fn lut_downsample_matches_naive_formula() {
    // Use a non-trivial source so any off-by-one in the tables visibly
    // mismatches: each pixel's BGRA encodes (x, y, x^y, 0xFF).
    let cases = [
        (200usize, 100usize, 80usize, 40usize),
        (3840, 2160, 1280, 720),
        (2560, 1440, 1280, 720),
        (1920, 1080, 854, 480),
        (100, 50, 50, 25),
    ];

    for (src_w, src_h, dst_w, dst_h) in cases {
        // Use a pitch deliberately larger than src_w*4 to mimic GPU staging.
        let src_pitch = (src_w * 4 + 255) & !255;
        let mut src = vec![0u8; src_pitch * src_h];
        for y in 0..src_h {
            for x in 0..src_w {
                let off = y * src_pitch + x * 4;
                src[off] = x as u8;
                src[off + 1] = y as u8;
                src[off + 2] = (x ^ y) as u8;
                src[off + 3] = 0xFF;
            }
        }

        let expected = naive_downsample(&src, src_w, src_h, src_pitch, dst_w, dst_h);

        let lut = DownsampleLut::new(src_w, src_h, dst_w, dst_h);
        let mut actual = vec![0u8; dst_w * dst_h * 4];
        downsample_bgra(&src, src_pitch, &mut actual, &lut);

        assert_eq!(
            actual, expected,
            "LUT downsample diverges from naive at {src_w}x{src_h} -> {dst_w}x{dst_h}"
        );
    }
}

#[test]
fn default_mic_volume_is_audible() {
    let cfg = CaptureConfig::default();
    let mic_volume = f32::from_bits(cfg.mic_volume_bits);
    assert!(
        mic_volume >= 0.5,
        "mic_volume default ({}) is too low, voice will be drowned out by game audio",
        mic_volume
    );
    assert_eq!(mic_volume, 1.0);
}

#[test]
fn ffmpeg_input_size_matches_prescaled_output() {
    let cfg = CaptureConfig::default(); // scale=-2:720

    // Various capture surface sizes that have caused issues.
    let test_cases = [
        (2880, 1800), // 16:10 laptop
        (3840, 2160), // 4K
        (2560, 1440), // 1440p
        (1920, 1080), // 1080p
        (1200, 675),  // loading screen
    ];

    for (cap_w, cap_h) in test_cases {
        let (out_w, out_h) = compute_output_dims(&cfg.scale, cap_w, cap_h);
        let args =
            build_ffmpeg_args(out_w, out_h, &segments_in(Path::new("C:/temp")), &cfg, None);

        let expected_s = format!("{out_w}x{out_h}");
        assert!(
            args.windows(2).any(|w| w[0] == "-s" && w[1] == expected_s),
            "for capture {cap_w}x{cap_h}: ffmpeg -s should be {expected_s}, args: {args:?}"
        );

        // The raw frame byte count the capture loop writes must equal
        // what ffmpeg expects: width * height * 4 (BGRA).
        let bytes = out_w as usize * out_h as usize * 4;
        assert!(bytes > 0, "zero-size frame for capture {cap_w}x{cap_h}");
        assert_eq!(frame_bytes(out_w, out_h), bytes);

        // Verify declared fps is present (speed regression guard).
        assert!(
            args.windows(2).any(|w| w == ["-r", &cfg.fps.to_string()]),
            "fps not declared for capture {cap_w}x{cap_h}"
        );
    }
}

#[test]
fn output_dims_always_even_for_h264_compatibility() {
    // Odd dimensions cause H.264 encoder failures.  Test a range of
    // awkward source sizes that could produce odd results.
    let odd_sources = [(1001, 563), (2879, 1799), (1921, 1081), (3441, 1441)];
    for (sw, sh) in odd_sources {
        let (w, h) = compute_output_dims("scale=-2:720", sw, sh);
        assert_eq!(w % 2, 0, "odd width {w} from source {sw}x{sh}");
        assert_eq!(h % 2, 0, "odd height {h} from source {sw}x{sh}");
    }
}

#[test]
fn needs_restart_when_thread_exited() {
    let mut session = dummy();
    session.running = false;

    assert!(
        session.needs_restart(0, ns(Instant::now())),
        "should restart when the capture thread is no longer running"
    );
}

#[test]
fn no_restart_during_warmup() {
    let mut session = dummy();
    session.warmup_done = false;
    // Frame count stuck at zero, but warmup hasn't finished.
    let old_check = Instant::now() - Duration::from_secs(30);

    assert!(
        !session.needs_restart(0, ns(old_check)),
        "should not restart while warmup is still in progress"
    );
}

#[test]
fn restart_on_frame_stall_after_warmup() {
    let mut session = dummy();
    // Recording, last check was 6s ago, counter stuck at 100.
    let old_check = Instant::now() - Duration::from_secs(6);
    session.frame_counter = 100;

    assert!(
        session.needs_restart(100, ns(old_check)),
        "should restart when frame count is stuck after warmup"
    );
}

#[test]
fn no_restart_when_frames_advancing() {
    let mut session = dummy();
    let old_check = Instant::now() - Duration::from_secs(6);
    session.frame_counter = 200;

    assert!(
        !session.needs_restart(100, ns(old_check)),
        "should not restart when frame count is advancing"
    );
}

#[test]
fn no_restart_when_check_interval_not_elapsed() {
    let session = dummy();
    // Even if counter is stuck, don't check until 5s have passed.
    let recent_check = Instant::now(); // just checked

    assert!(
        !session.needs_restart(0, ns(recent_check)),
        "should not restart before the 5-second check interval"
    );
}

#[test]
fn frame_count_reflects_shared_counter() {
    let mut session = dummy();
    assert_eq!(session.frame_count(), 0);

    session.frame_counter += 42;
    assert_eq!(session.frame_count(), 42);
}

#[test]
fn is_running_reflects_shared_flag() {
    let mut session = dummy();
    assert!(session.is_running());

    session.running = false;
    assert!(!session.is_running());
}

#[test]
fn stall_interval_is_exactly_five_seconds() {
    let session = dummy();
    assert!(!session.needs_restart(0, 4_999_999_999));
    assert!(session.needs_restart(0, 5_000_000_000));
}

#[test]
fn a_new_session_runs_and_warms_up_until_it_is_stopped() {
    let mut session = CaptureSession::start();
    assert!(session.is_running());
    assert!(!session.needs_restart(0, 60_000_000_000));
    session.stop();
    assert!(!session.is_running());
    assert!(session.needs_restart(0, 0));
}

#[test]
fn scale_settings_are_read_as_written() {
    assert_eq!(parse_scale("scale=-1:720"), ScaleRule::Height(720));
    assert_eq!(parse_scale("scale=+1280:-1"), ScaleRule::Width(1280));
    assert_eq!(parse_scale("scale=-2:-2"), ScaleRule::Keep);
    assert_eq!(parse_scale("scale=1280:720"), ScaleRule::Keep);
    assert_eq!(parse_scale("scale=-2:0"), ScaleRule::Keep);
    assert_eq!(parse_scale("scale=-2:720:flags=lanczos"), ScaleRule::Keep);
    assert_eq!(parse_scale("scale=-2"), ScaleRule::Keep);
    assert_eq!(parse_scale("scale=-2: 720"), ScaleRule::Keep);
    assert_eq!(parse_scale("scale=-2:2147483647"), ScaleRule::Height(2_147_483_647));
    assert_eq!(parse_scale("scale=-2:2147483648"), ScaleRule::Keep);
    assert_eq!(parse_scale("scale=:720"), ScaleRule::Keep);
    assert_eq!(parse_scale("SCALE=-2:720"), ScaleRule::Keep);
}

#[test]
fn a_size_exists_where_there_is_a_ratio() {
    assert!(output_dims_exist("scale=-2:720", 1920, 1080));
    assert!(!output_dims_exist("scale=-2:720", 1920, 0));
    assert!(!output_dims_exist("scale=1280:-2", 0, 1080));
    assert!(output_dims_exist("", 0, 0));
    // The side has to fit in 32 bits, rounded up.
    assert!(!output_dims_exist("scale=-2:1", 4_294_967_295, 1));
    assert!(!output_dims_exist("scale=-2:2", 2_147_483_650, 1));
    assert_eq!(compute_output_dims("scale=-2:1", 4_294_967_294, 1), (4_294_967_294, 1));
}

#[test]
fn scaling_keeps_the_ratio_to_a_pixel() {
    assert_eq!(compute_output_dims("scale=-2:720", 1366, 768), (1280, 720));
    assert_eq!(compute_output_dims("scale=-2:719", 1367, 768), (1280, 719));
    assert_eq!(compute_output_dims("scale=1000:-1", 3, 1), (1000, 334));
}

#[test]
fn tables_are_known_by_their_sizes() {
    let lut = DownsampleLut::new(5, 3, 2, 3);
    assert_eq!(lut.sx_starts, vec![0, 2, 5]);
    assert_eq!(lut.sy_starts, vec![0, 1, 2, 3]);
    assert!(lut.matches(5, 3, 2, 3));
    assert!(!lut.matches(5, 3, 3, 3));
    assert!(lut.can_average());
    // Enlarging leaves rectangles empty; a huge rectangle overflows its sum.
    assert!(!DownsampleLut::new(2, 3, 3, 3).can_average());
    assert!(!DownsampleLut::new(5000, 5000, 1, 1).can_average());
    assert!(DownsampleLut::new(4096, 4096, 1, 1).can_average());
}

#[test]
fn means_are_rounded_down_channel_by_channel() {
    // Two pixels become one.
    let src = [1u8, 10, 200, 255, 4, 11, 255, 0];
    let mut dst = vec![9u8; 4];
    let lut = DownsampleLut::new(2, 1, 1, 1);
    downsample_bgra(&src, 8, &mut dst, &lut);
    assert_eq!(dst, vec![2, 10, 227, 127]);
}

#[test]
fn every_source_pixel_counts_once() {
    // One bright pixel at a time shows up in exactly one output pixel.
    let lut = DownsampleLut::new(5, 3, 2, 2);
    for at in 0..15 {
        let mut src = vec![0u8; 5 * 3 * 4];
        src[at * 4] = 255;
        let mut dst = vec![0u8; 16];
        downsample_bgra(&src, 20, &mut dst, &lut);
        assert_eq!(dst.iter().filter(|&&b| b > 0).count(), 1);
    }
}

#[test]
fn all_arguments_stand_in_order() {
    let mut cfg = CaptureConfig::default();
    cfg.encoder = "libx264".into();
    cfg.rate_control = "crf".into();
    let audio = AudioInput { pipe_path: "pipe", sample_rate: 44_100 };
    let args = build_ffmpeg_args(1280, 720, "C:\\t\\seg_%04d.mp4", &cfg, Some(audio));
    assert!(args.last().unwrap().ends_with(segment_file_pattern()));
    assert_eq!(
        args.join(" "),
        "-y -f rawvideo -pix_fmt bgra -s 1280x720 -r 60 -i pipe:0 \
         -f f32le -ar 44100 -ac 2 -i pipe \
         -pix_fmt yuv420p -c:v libx264 -preset p4 -rc crf -crf 28 \
         -tune film -profile:v high -level 4.2 \
         -c:a aac -b:a 320k -aac_coder twoloop \
         -f segment -segment_time 5 -reset_timestamps 1 -segment_format mp4 C:/t/seg_%04d.mp4"
    );
}

#[test]
fn profiles_are_looked_up_by_encoder() {
    assert_eq!(lookup_profile("libx264").unwrap().preset, "slow");
    assert_eq!(lookup_profile("h264_nvenc").unwrap().extra.len(), 18);
    assert!(lookup_profile("h264_qsv").is_none());
}

/// Runs the search for an encoder with `works` in place of ffmpeg.
fn search(cfg: &CaptureConfig, works: &[&str]) -> (Candidate, Vec<String>) {
    let mut tried = Vec::new();
    let mut candidate = Candidate::Configured;
    while let Some(name) = candidate_encoder(cfg, candidate) {
        tried.push(name.clone());
        if works.contains(&name.as_str()) {
            break;
        }
        candidate = next_candidate(cfg, candidate);
    }
    (candidate, tried)
}

#[test]
fn a_working_encoder_is_kept_with_its_settings() {
    let cfg = CaptureConfig::default();
    let (found, tried) = search(&cfg, &["h264_nvenc", "libx264"]);
    assert_eq!(tried, vec!["h264_nvenc"]);
    let resolved = resolve_encoder(&cfg, found);
    assert_eq!(resolved.preset, "p4");
    assert_eq!(resolved.quality, "28");
}

#[test]
fn the_first_profile_that_works_replaces_a_broken_encoder() {
    let mut cfg = CaptureConfig::default();
    cfg.encoder = "h264_amf".into();
    let (found, tried) = search(&cfg, &["libx264"]);
    assert_eq!(tried, vec!["h264_amf", "h264_nvenc", "libx264"]);
    let resolved = resolve_encoder(&cfg, found);
    assert_eq!(resolved.encoder, "libx264");
    assert_eq!(resolved.preset, "slow");
    assert_eq!(resolved.rate_control, "crf");
    assert_eq!(resolved.quality, "16");
    assert_eq!(resolved.scale, cfg.scale);
}

#[test]
fn without_a_working_encoder_nothing_changes() {
    let cfg = CaptureConfig::default();
    let (found, tried) = search(&cfg, &[]);
    assert_eq!(found, Candidate::NoneLeft);
    assert_eq!(tried, vec!["h264_nvenc", "h264_amf", "libx264"]);
    assert_eq!(resolve_encoder(&cfg, found).encoder, "h264_nvenc");
    assert_eq!(next_candidate(&cfg, found), Candidate::NoneLeft);
}

#[test]
fn trial_runs_encode_one_frame() {
    assert_eq!(
        probe_args("libx264").join(" "),
        "-hide_banner -loglevel error -f lavfi -i color=black:s=256x256:d=0.01 -frames:v 1 \
         -c:v libx264 -f null -"
    );
}

#[test]
fn the_first_listed_program_is_taken() {
    assert_eq!(
        first_listed_path("C:\\ff\\ffmpeg.exe \r\nD:\\ffmpeg.exe\r\n").as_deref(),
        Some("C:\\ff\\ffmpeg.exe")
    );
    assert_eq!(first_listed_path("a").as_deref(), Some("a"));
    assert_eq!(first_listed_path("\n").as_deref(), Some(""));
    assert!(first_listed_path("").is_none());
}

#[test]
fn reported_sides_are_held_to_the_surface() {
    assert_eq!(hold_side(100, 200), 100);
    assert_eq!(hold_side(300, 200), 200);
    assert_eq!(hold_side(-1, 200), 200);
    assert_eq!(hold_side(0, 200), 0);
}

#[test]
fn the_largest_content_is_recorded() {
    let mut probe = ContentProbe::new(1920, 1080);
    assert_eq!(probe.content(7, 8), (7, 8));
    probe.observe(0, 1080);
    assert_eq!(probe.content(7, 8), (7, 8));
    probe.observe(800, 600);
    probe.observe(600, 800);
    assert_eq!(probe.content(7, 8), (800, 600));
    probe.observe(4000, 1080);
    probe.observe(100, 100);
    assert_eq!(probe.content(7, 8), (1920, 1080));
}

#[test]
fn growing_content_restarts_the_recording() {
    assert_eq!(frame_action(801, 600, 1920, 1080, 800, 600), FrameAction::Restart);
    assert_eq!(frame_action(100, 601, 1920, 1080, 800, 600), FrameAction::Restart);
    assert_eq!(
        frame_action(700, 600, 1920, 1080, 800, 600),
        FrameAction::Convert { src_w: 700, src_h: 600 }
    );
    assert_eq!(
        frame_action(5000, 5000, 1920, 1080, 1920, 1080),
        FrameAction::Convert { src_w: 1920, src_h: 1080 }
    );
}

#[test]
fn a_capture_probes_records_and_begins_anew() {
    let mut session = CaptureSession::start();
    let mut capture = CaptureLoop::begin(Some((1920, 1080)), &mut session).unwrap();
    assert_eq!(capture, CaptureLoop::new(1920, 1080));
    assert!(capture.goes_on(&session));

    let mut probe = ContentProbe::new(1920, 1080);
    probe.observe(800, 600);
    capture.probed(&probe);
    assert_eq!((capture.content_w, capture.content_h), (800, 600));
    assert_eq!(capture.phase, Phase::Starting);
    assert!(!session.warmup_done);
    capture.encoder_started(true, &mut session);
    assert_eq!(capture.phase, Phase::Recording);
    assert!(session.warmup_done);

    assert_eq!(capture.on_frame(800, 600), FrameAction::Convert { src_w: 800, src_h: 600 });
    assert!(!capture.has_frame);
    capture.converted();
    assert!(capture.has_frame);
    session.recorded();
    session.recorded();
    assert_eq!(capture.on_frame(1920, 1080), FrameAction::Restart);
    assert_eq!(capture.phase, Phase::Probing);
    assert!(!capture.has_frame);

    // No frame is seen: the content stays as it was, and so does the count.
    capture.probed(&ContentProbe::new(1920, 1080));
    assert_eq!((capture.content_w, capture.content_h), (800, 600));
    capture.encoder_started(true, &mut session);
    session.recorded();
    assert_eq!(session.frame_count(), 3);
    capture.device_lost(&mut session);
    assert!(!session.is_running());
    assert!(!capture.goes_on(&session));
    assert!(session.needs_restart(0, 0));
    assert_eq!(session.frame_count(), 3);
}

#[test]
fn a_broken_pipe_stops_the_capture() {
    let mut session = dummy();
    let mut capture = CaptureLoop::new(10, 10);
    capture.probed(&ContentProbe::new(10, 10));
    capture.encoder_started(true, &mut session);
    capture.converted();
    capture.pipe_broken(&mut session);
    assert_eq!(capture.phase, Phase::Ended);
    assert!(!capture.has_frame);
    assert!(!capture.goes_on(&session));
    assert!(session.needs_restart(7, 0));
}

#[test]
fn a_capture_ends_with_its_encoder_or_its_session() {
    let mut session = CaptureSession::start();
    let mut capture = CaptureLoop::new(10, 10);
    capture.over(&mut session);
    assert!(session.is_running());
    capture.probed(&ContentProbe::new(10, 10));
    capture.encoder_started(false, &mut session);
    assert_eq!(capture.phase, Phase::Ended);
    assert!(!session.warmup_done);
    assert!(!capture.goes_on(&session));
    capture.over(&mut session);
    assert!(!session.is_running());
    assert!(session.needs_restart(0, 0));

    let mut session = CaptureSession::start();
    let mut capture = CaptureLoop::new(10, 10);
    session.stop();
    assert!(!capture.goes_on(&session));
    assert_eq!(capture.phase, Phase::Ended);
}

#[test]
fn a_capture_that_cannot_be_set_up_ends_its_session() {
    let mut session = CaptureSession::start();
    assert!(CaptureLoop::begin(None, &mut session).is_none());
    assert!(!session.is_running());
    assert!(session.needs_restart(0, 0));
}

#[test]
fn probing_takes_a_second_and_sound_is_waited_for_ten() {
    let mut session = CaptureSession::start();
    assert!(keeps_probing(&session, 999_999_999));
    assert!(!keeps_probing(&session, 1_000_000_000));
    assert!(waits_for_sound(&session, false, 9_999_999_999));
    assert!(!waits_for_sound(&session, true, 0));
    assert!(!waits_for_sound(&session, false, 10_000_000_000));
    session.stop();
    assert!(!keeps_probing(&session, 0));
    assert!(!waits_for_sound(&session, false, 0));
}

#[test]
fn missing_frames_are_made_up_for() {
    let mut pacer = FramePacer::new(60);
    assert_eq!(pacer.writes(0), 1);
    assert_eq!(pacer.writes(33_333), 2);
    assert_eq!(pacer.writes(33_334), 3);
    assert_eq!(pacer.writes(50_000), 4);
    assert_eq!(pacer.writes(66_667), 5);
    assert_eq!(pacer.writes(10_000_000), 5);
    for _ in 0..60 {
        pacer.wrote();
    }
    assert_eq!(pacer.frame_count, 60);
    assert_eq!(pacer.next_due_us(), 1_000_000);
    assert_eq!(pacer.writes(500_000), 1);
}

#[test]
fn cleanup_is_due_after_ten_seconds() {
    assert!(!cleanup_due(10_000_000_000));
    assert!(cleanup_due(10_000_000_001));
}

#[test]
fn a_window_is_looked_for_five_times() {
    let mut search = WindowSearch::new();
    for _ in 0..4 {
        assert_eq!(search.looked(false), SearchStep::Wait);
    }
    assert_eq!(search.looked(false), SearchStep::GiveUp);
    assert_eq!(WindowSearch::new().looked(true), SearchStep::Found);
}

fn window(handle: isize, pid: u32, style: u32, ex_style: u32, w: i32, h: i32) -> WindowInfo {
    let client = Some(ClientRect { left: 10, top: 20, right: 10 + w, bottom: 20 + h });
    WindowInfo { handle, pid, style, ex_style, client }
}

#[test]
fn the_largest_visible_window_is_found() {
    let mut windows = vec![
        window(1, 7, WS_VISIBLE, 0, 100, 100),
        window(2, 7, WS_VISIBLE | 5, 8, 800, 600),
        window(3, 7, WS_VISIBLE, 0, 600, 800),
        window(4, 7, WS_VISIBLE, WS_EX_TOOLWINDOW, 5000, 5000),
        window(5, 7, 0, 0, 5000, 5000),
        window(6, 8, WS_VISIBLE, 0, 5000, 5000),
        window(9, 9, WS_VISIBLE, 0, 0, 5000),
    ];
    assert_eq!(find_window_for_pid(&windows, 7), Some(2));
    assert_eq!(find_window_for_pid(&windows, 9), None);
    assert_eq!(find_window_for_pid(&windows, 10), None);
    windows[1].client = None;
    assert_eq!(find_window_for_pid(&windows, 7), Some(3));
}

#[test]
fn monitors_are_counted_from_one() {
    let monitors = vec![11, 0, -1, 14];
    assert_eq!(monitor_by_index(&monitors, 0), None);
    assert_eq!(monitor_by_index(&monitors, 1), Some(11));
    assert_eq!(monitor_by_index(&monitors, 2), None);
    assert_eq!(monitor_by_index(&monitors, 3), None);
    assert_eq!(monitor_by_index(&monitors, 4), Some(14));
    assert_eq!(monitor_by_index(&monitors, 5), None);
}

#[test]
fn monitor_settings_choose_a_monitor() {
    let monitors = vec![11, 12];
    assert_eq!(choose_monitor("auto", true, &monitors), MonitorChoice::OfWindow);
    assert_eq!(choose_monitor("auto", false, &monitors), MonitorChoice::Primary);
    assert_eq!(choose_monitor("2", true, &monitors), MonitorChoice::Handle(12));
    assert_eq!(choose_monitor("+2", true, &monitors), MonitorChoice::Handle(12));
    assert_eq!(choose_monitor("3", true, &monitors), MonitorChoice::Primary);
    assert_eq!(choose_monitor("bogus", true, &monitors), MonitorChoice::Primary);
    assert_eq!(choose_monitor("4294967297", true, &monitors), MonitorChoice::Primary);
    assert_eq!(choose_monitor_target("auto", None, 3), 1);
    assert_eq!(choose_monitor_target("3", None, 3), 3);
    assert_eq!(choose_monitor_target("0", None, 3), 1);
}

#[test]
fn empty_lines_of_ffmpeg_are_not_logged() {
    assert_eq!(stderr_line("  Stream #0:0 \r").as_deref(), Some("  Stream #0:0"));
    assert_eq!(stderr_line("a b").as_deref(), Some("a b"));
    assert!(stderr_line("").is_none());
    assert!(stderr_line(" \t\r").is_none());
}
