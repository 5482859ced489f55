use snapple::audio::{
    allowed_values, audio_pipe_path, encode_values, is_float_format, max_pending_values,
    microphone_wanted, mix_into, packet_kind, packet_samples, pipe_step, prepare_samples,
    resample_stereo_into, to_stereo_into, trim_pending, PacedAudio, PacketKind, PipeStep,
    MAX_PENDING_AUDIO_MS, PIPE_CONNECTED, WAVE_FORMAT_EXTENSIBLE, WAVE_FORMAT_FLOAT,
};

/// One round of the pending buffer: drop what is beyond the cap, then take off
/// what the video allows.
fn simulate_drain(paced: &mut PacedAudio<f32>, video_frames: u64) -> usize {
    paced.trim();
    let n = paced.due(video_frames);
    paced.wrote(n);
    n
}

/// Linear interpolation between two samples.
fn lerp(from: u32, to: u32) -> impl Fn(usize, usize, f32, f32) -> f32 {
    move |i, frame, a, b| {
        let pos = i as f64 * from as f64 / to as f64;
        let frac = (pos - frame as f64) as f32;
        a + (b - a) * frac
    }
}

#[test]
fn pacing_tracks_interleaved_values_consistently() {
    assert_eq!(allowed_values(1, 48_000, 60, 0), 1_600);
    assert_eq!(allowed_values(1, 48_000, 60, 1_600), 0);
    assert_eq!(allowed_values(2, 48_000, 60, 1_600), 1_600);
}

#[test]
fn pacing_exact_ratio_at_common_rates() {
    // 48 kHz / 60 fps = exactly 800 samples per frame, no rounding error.
    for vf in 0..120 {
        let expected = vf * 800 * 2;
        assert_eq!(allowed_values(vf, 48_000, 60, 0), expected);
    }
    // 44.1 kHz / 30 fps = 1470 samples per frame (exact).
    assert_eq!(allowed_values(1, 44_100, 30, 0), 2_940);
}

#[test]
fn pending_cap_prevents_audible_delay() {
    // The cap MUST stay within 200 ms to keep audio delay imperceptible.
    assert!(
        MAX_PENDING_AUDIO_MS <= 200,
        "MAX_PENDING_AUDIO_MS is {MAX_PENDING_AUDIO_MS}, must be at most 200 to prevent audible delay"
    );
}

#[test]
fn pending_cap_value_at_48khz_stereo() {
    let max_pending_values = 48_000usize * 2 * MAX_PENDING_AUDIO_MS / 1000;
    // 150 ms at 48 kHz stereo = 14,400 interleaved f32 values.
    assert_eq!(max_pending_values, 14_400);
    assert_eq!(snapple::audio::max_pending_values(48_000), 14_400);
}

#[test]
fn pending_drain_discards_oldest_when_over_cap() {
    // Simulate 500 ms of audio sitting in pending (well over the 150 ms cap).
    let sample_rate: u32 = 48_000;
    let half_sec_values = sample_rate as usize * 2 * 500 / 1000; // 48,000 values
    let mut paced: PacedAudio<f32> = PacedAudio::new(sample_rate, 60);
    paced.pending = (0..half_sec_values).map(|i| i as f32).collect();

    // Allow 1 frame of video (800 samples = 1,600 values).
    let written = simulate_drain(&mut paced, 1);
    assert_eq!(written, 1_600);

    let cap_values = sample_rate as usize * 2 * MAX_PENDING_AUDIO_MS / 1000;
    // Pending should be at most the cap minus what was just written.
    assert!(
        paced.pending.len() <= cap_values,
        "pending {} exceeds cap {cap_values}",
        paced.pending.len()
    );
    // The OLDEST samples (low values) should have been discarded.
    if !paced.pending.is_empty() {
        assert!(
            paced.pending[0] > 0.0,
            "oldest sample should have been drained, got {}",
            paced.pending[0]
        );
    }
    assert_eq!(paced.pending[0], (48_000 - 14_400 + 1_600) as f32);
}

#[test]
fn steady_state_60fps_no_drift() {
    // Simulate 10 seconds of perfectly steady 60 fps capture.
    // Pending should never grow beyond a few ms of audio.
    let sample_rate: u32 = 48_000;
    let fps: u64 = 60;
    let values_per_tick = (sample_rate as usize * 2 * 5) / 1000; // 5 ms of audio per tick
    let mut paced: PacedAudio<f32> = PacedAudio::new(sample_rate, fps);
    let mut vf: u64 = 0;
    let mut max_pending = 0usize;

    // 2000 ticks of 5 ms = 10 seconds
    for tick in 0..2_000u64 {
        // Audio arrives every tick.
        paced.pending.extend(std::iter::repeat_n(0.0f32, values_per_tick));

        // Advance video_frames to match wall-clock time.
        let expected_vf = (tick + 1) * fps / 200;
        vf = vf.max(expected_vf);

        simulate_drain(&mut paced, vf);
        max_pending = max_pending.max(paced.pending.len());
    }

    // In steady state, pending should be tiny (well under 50 ms).
    let max_pending_ms = max_pending * 1000 / (sample_rate as usize * 2);
    assert!(
        max_pending_ms < 50,
        "pending peaked at {max_pending_ms} ms in steady state, expected < 50 ms"
    );
}

#[test]
fn video_stall_delay_bounded_by_cap() {
    // Simulate a 1-second video stall: audio keeps arriving but
    // video_frames freezes.  Pending must stay within the cap.
    let sample_rate: u32 = 48_000;
    let fps: u64 = 60;
    let values_per_tick = (sample_rate as usize * 2 * 5) / 1000;
    let mut paced: PacedAudio<f32> = PacedAudio::new(sample_rate, fps);
    let cap_values = sample_rate as usize * 2 * MAX_PENDING_AUDIO_MS / 1000;

    // 1 second of normal operation.
    let mut vf: u64 = 0;
    for tick in 0..200u64 {
        paced.pending.extend(std::iter::repeat_n(0.0f32, values_per_tick));
        vf = (tick + 1) * fps / 200;
        simulate_drain(&mut paced, vf);
    }

    // 1-second stall: audio arrives but video_frames frozen.
    let frozen_vf = vf;
    for _ in 0..200u64 {
        paced.pending.extend(std::iter::repeat_n(0.0f32, values_per_tick));
        simulate_drain(&mut paced, frozen_vf);
    }

    assert!(
        paced.pending.len() <= cap_values,
        "pending {} exceeds cap {cap_values} during video stall",
        paced.pending.len()
    );

    // After stall, the maximum delay in the buffer is bounded.
    let delay_ms = paced.pending.len() * 1000 / (sample_rate as usize * 2);
    assert!(
        delay_ms <= MAX_PENDING_AUDIO_MS,
        "delay {delay_ms} ms exceeds MAX_PENDING_AUDIO_MS {MAX_PENDING_AUDIO_MS}"
    );
}

#[test]
fn mono_to_stereo_duplicates_channels() {
    let mono = vec![1.0f32, 2.0, 3.0];
    let mut out = Vec::new();
    to_stereo_into(&mono, 1, &mut out);
    assert_eq!(out, vec![1.0, 1.0, 2.0, 2.0, 3.0, 3.0]);
}

#[test]
fn multichannel_to_stereo_keeps_first_two() {
    // 4-channel: [L R C LFE] per frame
    let quad = vec![1.0f32, 2.0, 3.0, 4.0, 5.0, 6.0, 7.0, 8.0];
    let mut out = Vec::new();
    to_stereo_into(&quad, 4, &mut out);
    assert_eq!(out, vec![1.0, 2.0, 5.0, 6.0]);
}

#[test]
fn resample_identity_when_rates_close() {
    // Resample 48000 to 48000 should be near-identity (caller should skip,
    // but verify the function doesn't corrupt data if called anyway).
    let input: Vec<f32> = (0..200).map(|i| (i as f32) / 200.0).collect();
    let mut out = Vec::new();
    resample_stereo_into(&input, 48_000, 48_000, lerp(48_000, 48_000), &mut out);
    assert_eq!(out.len(), input.len());
    for (a, b) in out.iter().zip(input.iter()) {
        assert!((a - b).abs() < 1e-5, "sample mismatch: {a} vs {b}");
    }
}

#[test]
fn resample_preserves_stereo_frame_count() {
    // 44100 to 48000: output should have more frames.
    let in_frames = 441; // 10 ms at 44.1 kHz
    let input: Vec<f32> = vec![0.5; in_frames * 2];
    let mut out = Vec::new();
    resample_stereo_into(&input, 44_100, 48_000, lerp(44_100, 48_000), &mut out);
    let out_frames = out.len() / 2;
    let expected = (in_frames as u64 * 48_000 / 44_100) as usize; // 480
    assert_eq!(out_frames, expected);
    assert_eq!(out_frames, 480);
}

#[test]
fn resampling_interpolates_between_neighbours() {
    // Doubling the rate puts a frame halfway between each two; the last has no
    // neighbour and is held.
    let input = vec![0.0f32, 10.0, 4.0, 20.0];
    let mut out = Vec::new();
    resample_stereo_into(&input, 24_000, 48_000, lerp(24_000, 48_000), &mut out);
    assert_eq!(out, vec![0.0, 10.0, 2.0, 15.0, 4.0, 20.0, 4.0, 20.0]);
}

#[test]
fn resampling_of_nothing_is_nothing() {
    let input: Vec<f32> = Vec::new();
    let mut out = vec![1.0f32];
    resample_stereo_into(&input, 0, 48_000, lerp(1, 48_000), &mut out);
    assert!(out.is_empty());
}

#[test]
fn incomplete_frames_are_dropped_from_multichannel_sound() {
    let six = vec![1, 2, 3, 4, 5, 6, 7, 8, 9, 10, 11, 12, 13];
    let mut out = vec![99];
    to_stereo_into(&six, 6, &mut out);
    assert_eq!(out, vec![1, 2, 7, 8]);
}

#[test]
fn samples_are_prepared_only_as_far_as_needed() {
    let keep = |_: usize, _: usize, a: i32, _: i32| a;
    assert_eq!(prepare_samples(&[1, 2, 3], 2, 48_000, 48_000, keep), vec![1, 2, 3]);
    assert_eq!(prepare_samples(&[1, 2], 1, 48_000, 48_000, keep), vec![1, 1, 2, 2]);
    assert_eq!(prepare_samples(&[1, 2], 1, 24_000, 48_000, keep), vec![1, 1, 1, 1, 2, 2, 2, 2]);
}

#[test]
fn mixing_follows_the_game_and_drops_surplus_microphone() {
    let both = |a: i32, b: i32| a * 100 + b;
    let alone = |a: i32| -a;
    let mut pending = vec![7];
    mix_into(&[1, 2, 3], &[4, 5], both, alone, &mut pending);
    assert_eq!(pending, vec![7, 104, 205, -3]);
    mix_into(&[], &[4, 5], both, alone, &mut pending);
    assert_eq!(pending, vec![7, 104, 205, -3]);
    mix_into(&[1], &[4, 5], both, alone, &mut pending);
    assert_eq!(pending, vec![7, 104, 205, -3, 104]);
}

#[test]
fn trimming_keeps_left_and_right_apart() {
    let mut pending: Vec<u32> = (0..11).collect();
    trim_pending(&mut pending, 4);
    assert_eq!(pending, vec![6, 7, 8, 9, 10]);
    trim_pending(&mut pending, 5);
    assert_eq!(pending, vec![6, 7, 8, 9, 10]);
    trim_pending(&mut pending, 4);
    assert_eq!(pending, vec![6, 7, 8, 9, 10]);
}

#[test]
fn a_round_mixes_trims_and_tells_what_is_due() {
    // 1000 values per second and channel at 10 frames per second: 200 values
    // a frame, and at most 300 may wait.
    let mut paced: PacedAudio<i64> = PacedAudio::new(1_000, 10);
    assert_eq!(max_pending_values(1_000), 300);
    let game: Vec<i64> = (0..400).collect();
    let n = paced.advance(&game, &[1_000], |a, b| a + b, |a| a, 1);
    assert_eq!(n, 200);
    assert_eq!(paced.pending.len(), 300);
    assert_eq!(paced.pending[0], 100);
    paced.wrote(n);
    assert_eq!(paced.written, 200);
    assert_eq!(paced.pending[0], 300);
    // The video stands still: nothing more is due.
    assert_eq!(paced.advance(&[], &[], |a, b| a + b, |a| a, 1), 0);
    assert_eq!(paced.advance(&[], &[], |a, b| a + b, |a| a, 2), 100);
}

#[test]
fn values_are_written_lowest_byte_first() {
    let values = vec![0x0403_0201u32, 0xfffe_fdfc, 9];
    let mut out = vec![1, 2, 3];
    encode_values(&values, 2, |v| v, &mut out);
    assert_eq!(out, vec![1, 2, 3, 4, 0xfc, 0xfd, 0xfe, 0xff]);

    encode_values(&[-0.3f32], 1, |v: f32| v.to_bits(), &mut out);
    assert_eq!(out, (-0.3f32).to_le_bytes().to_vec());
}

#[test]
fn float_formats_are_recognised() {
    assert!(is_float_format(WAVE_FORMAT_FLOAT, 16));
    assert!(is_float_format(WAVE_FORMAT_EXTENSIBLE, 32));
    assert!(!is_float_format(WAVE_FORMAT_EXTENSIBLE, 16));
    assert!(!is_float_format(1, 32));
}

#[test]
fn packets_are_read_by_flags_and_format() {
    assert_eq!(packet_kind(2, true), PacketKind::Silence);
    assert_eq!(packet_kind(7, false), PacketKind::Silence);
    assert_eq!(packet_kind(5, true), PacketKind::Float);
    assert_eq!(packet_kind(0, false), PacketKind::Integer);
    assert_eq!(packet_samples(480, 6), 2_880);
}

#[test]
fn only_none_turns_the_microphone_off() {
    assert!(!microphone_wanted("none"));
    assert!(microphone_wanted("default"));
    assert!(microphone_wanted("None"));
}

#[test]
fn pipe_is_named_after_the_process() {
    assert_eq!(audio_pipe_path(42), r"\\.\pipe\snapple_audio_42");
    assert_eq!(audio_pipe_path(4_294_967_295), r"\\.\pipe\snapple_audio_4294967295");
    assert_eq!(audio_pipe_path(0), r"\\.\pipe\snapple_audio_0");
}

#[test]
fn pipe_is_polled_until_connected() {
    assert_eq!(pipe_step(None), PipeStep::Connected);
    assert_eq!(pipe_step(Some(PIPE_CONNECTED)), PipeStep::Connected);
    assert_eq!(pipe_step(Some(0x8007_0218)), PipeStep::Wait);
}

#[test]
fn delay_stays_within_the_cap_at_odd_rates() {
    // At 501 values per second and channel 150 may wait; a half frame is kept
    // whole.
    let mut pending: Vec<u32> = (0..1_001).collect();
    trim_pending(&mut pending, max_pending_values(501));
    assert_eq!(max_pending_values(501), 150);
    assert_eq!(pending.len(), 151);
    assert!(pending.len() * 1000 / (501 * 2) <= MAX_PENDING_AUDIO_MS);
}

#[test]
fn sound_goes_out_whole_in_order_and_fresh() {
    // Values are numbered as they are mixed. The video stalls now and again,
    // and the sound keeps coming.
    let mut paced: PacedAudio<u64> = PacedAudio::new(48_000, 60);
    let cap = max_pending_values(48_000) as u64;
    let mut mixed: u64 = 0;
    let mut sent: Vec<u64> = Vec::new();
    let mut frames: u64 = 0;
    for round in 0..400u64 {
        let game: Vec<u64> = (mixed..mixed + 480).collect();
        mixed += 480;
        if round % 100 < 20 {
            frames += 1;
        }
        let n = paced.advance(&game, &[], |a, _| a, |a| a, frames);
        let out: Vec<u64> = paced.pending[..n].to_vec();
        paced.wrote(n);
        assert_eq!(n % 2, 0);
        assert_eq!(paced.pending.len() % 2, 0);
        assert!(out.iter().all(|&v| v >= mixed.saturating_sub(cap)));
        sent.extend(out);
        assert_eq!(paced.written, sent.len() as u64);
        assert!(paced.written <= frames * 1_600);
        if !paced.pending.is_empty() {
            assert_eq!(paced.written, frames * 1_600);
            assert_eq!(*paced.pending.last().unwrap(), mixed - 1);
        }
    }
    assert!(sent.windows(2).all(|w| w[0] < w[1]));
    assert!(sent.windows(2).any(|w| w[0] + 1 < w[1]));
}
