//! Sound: turning what the devices deliver into interleaved stereo, mixing
//! it, and letting it out no faster than the video.
//!
//! Samples are of any type that can be copied. What is arithmetic on samples
//! is done by functions that the caller hands in.

use vstd::prelude::*;

use crate::text;
use crate::text::{push_decimal, same_text};

verus! {

// ---------------------------------------------------------------------------
// Formats and packets
// ---------------------------------------------------------------------------

/// Tag of a wave format whose samples are floats.
pub const WAVE_FORMAT_FLOAT: u16 = 0x0003;

/// Tag of a wave format that is described further on.
pub const WAVE_FORMAT_EXTENSIBLE: u16 = 0xfffe;

/// Flag of a packet whose samples are to be taken as silence.
pub const BUFFERFLAGS_SILENT: u32 = 0x0000_0002;

/// Whether samples of a format are 32-bit floats.
pub fn is_float_format(tag: u16, bits: u16) -> (r: bool)
    ensures
        r == (tag == WAVE_FORMAT_FLOAT || (tag == WAVE_FORMAT_EXTENSIBLE && bits == 32)),
{
    tag == WAVE_FORMAT_FLOAT || (tag == WAVE_FORMAT_EXTENSIBLE && bits == 32)
}

/// How the samples of a packet are read.
#[derive(Debug, Clone, Copy, PartialEq, Eq, Structural)]
pub enum PacketKind {
    /// As so many zeros.
    Silence,
    /// As 32-bit floats.
    Float,
    /// As 16-bit integers.
    Integer,
}

/// How the samples of a packet are read: silence where the flags say so, else
/// by the format of the device.
pub fn packet_kind(flags: u32, is_float: bool) -> (kind: PacketKind)
    ensures
        kind == if flags / 2 % 2 == 1 {
            PacketKind::Silence
        } else if is_float {
            PacketKind::Float
        } else {
            PacketKind::Integer
        },
{
    assert((flags & 2 != 0) == (flags / 2 % 2 == 1)) by (bit_vector);
    if flags & BUFFERFLAGS_SILENT != 0 {
        PacketKind::Silence
    } else if is_float {
        PacketKind::Float
    } else {
        PacketKind::Integer
    }
}

/// The number of samples in a packet of frames.
pub fn packet_samples(frames: u32, channels: u16) -> (n: usize)
    requires
        frames * channels <= usize::MAX,
    ensures
        n == frames * channels,
{
    frames as usize * channels as usize
}

/// Whether the microphone is to be recorded.
pub fn microphone_wanted(device: &str) -> (r: bool)
    ensures
        r == (device@ != "none"@),
{
    !same_text(device, "none")
}

// ---------------------------------------------------------------------------
// The pipe to ffmpeg
// ---------------------------------------------------------------------------

/// The path of the pipe that carries the sound, by the id of this process.
pub fn audio_pipe_path(process_id: u32) -> (path: String)
    ensures
        path@ == "\\\\.\\pipe\\snapple_audio_"@ + text::decimal(process_id as nat),
{
    let mut path = "\\\\.\\pipe\\snapple_audio_".to_owned();
    push_decimal(&mut path, process_id as u64);
    path
}

/// The code of the error that says that the other end is connected already.
pub const PIPE_CONNECTED: u32 = 0x8007_0217;

/// What to do while ffmpeg has not yet opened the pipe.
#[derive(Debug, Clone, Copy, PartialEq, Eq, Structural)]
pub enum PipeStep {
    /// Go on to record.
    Connected,
    /// Wait a little and try again.
    Wait,
}

/// What to do after an attempt to connect: it succeeded, or gave an error.
pub fn pipe_step(error: Option<u32>) -> (step: PipeStep)
    ensures
        step == if error is None || error == Some(PIPE_CONNECTED) {
            PipeStep::Connected
        } else {
            PipeStep::Wait
        },
{
    match error {
        None => PipeStep::Connected,
        Some(code) => if code == PIPE_CONNECTED {
            PipeStep::Connected
        } else {
            PipeStep::Wait
        },
    }
}

// ---------------------------------------------------------------------------
// Stereo
// ---------------------------------------------------------------------------

/// Samples of `ch` interleaved channels as stereo: a single channel is
/// doubled, and of more than one the first two are taken. A frame that is not
/// complete is dropped.
pub open spec fn stereo<T>(data: Seq<T>, ch: int) -> Seq<T> {
    Seq::new(
        (data.len() as int / ch * 2) as nat,
        |i: int|
            data[i / 2 * ch + if ch == 1 {
                0
            } else {
                i % 2
            }],
    )
}

/// Turns samples of `ch` interleaved channels into stereo.
pub fn to_stereo_into<T: Copy>(data: &[T], ch: u16, out: &mut Vec<T>)
    requires
        ch > 0,
    ensures
        final(out)@ == stereo(data@, ch as int),
{
    out.clear();
    let n: usize = ch as usize;
    let len: usize = data.len();
    let frames: usize = len / n;
    assert(frames * n <= len) by (nonlinear_arith)
        requires
            n > 0,
            frames == len / n,
    ;
    let mut f: usize = 0;
    while f < frames
        invariant
            n == ch,
            n > 0,
            len == data@.len(),
            frames == len / n,
            frames * n <= len,
            f <= frames,
            out@ == stereo(data@, ch as int).take(f * 2),
        decreases frames - f,
    {
        assert(f * n + n <= frames * n) by (nonlinear_arith)
            requires
                f + 1 <= frames,
                n > 0,
        ;
        let at: usize = f * n;
        let second: usize = if n == 1 {
            at
        } else {
            at + 1
        };
        let ghost all = stereo(data@, ch as int);
        assert(all[f * 2] == data@[at as int]);
        assert(all[f * 2 + 1] == data@[second as int]);
        out.push(data[at]);
        out.push(data[second]);
        assert(out@ =~= all.take((f + 1) * 2));
        f += 1;
    }
    assert(stereo(data@, ch as int).take(f * 2) =~= stereo(data@, ch as int));
}

// ---------------------------------------------------------------------------
// Resampling
// ---------------------------------------------------------------------------

/// The number of stereo frames that `len` samples become at another rate.
pub open spec fn resampled_frames(len: int, from: int, to: int) -> int {
    if len == 0 {
        0
    } else {
        len / 2 * to / from
    }
}

/// The source frame at or before output frame `i`.
pub open spec fn source_frame(i: int, from: int, to: int) -> int {
    i * from / to
}

/// The sample of channel `c` in the frame after `frame`, or in `frame` itself
/// where there is none after it.
pub open spec fn next_sample<T>(data: Seq<T>, frame: int, c: int) -> T {
    if (frame + 1) * 2 + c < data.len() {
        data[(frame + 1) * 2 + c]
    } else {
        data[frame * 2 + c]
    }
}

/// The source frame of an output frame exists.
proof fn lemma_source_frame(i: int, len: int, from: int, to: int)
    requires
        0 <= len,
        0 < from,
        0 <= to,
        0 <= i < resampled_frames(len, from, to),
    ensures
        0 < to,
        0 <= source_frame(i, from, to) < len / 2,
        i * from < len / 2 * to,
{
    let frames = len / 2;
    let n = frames * to;
    assert(n >= 0) by (nonlinear_arith)
        requires
            n == frames * to,
            frames >= 0,
            to >= 0,
    ;
    let q = n / from;
    assert(q * from <= n) by (nonlinear_arith)
        requires
            q == n / from,
            from > 0,
    ;
    assert(i * from < n) by (nonlinear_arith)
        requires
            i < q,
            q * from <= n,
            from > 0,
    ;
    assert(to > 0) by (nonlinear_arith)
        requires
            i * from < frames * to,
            i >= 0,
            from > 0,
            frames >= 0,
            to >= 0,
    ;
    let f = i * from;
    assert(f >= 0) by (nonlinear_arith)
        requires
            f == i * from,
            i >= 0,
            from > 0,
    ;
    assert(0 <= f / to < frames) by (nonlinear_arith)
        requires
            0 <= f < frames * to,
            to > 0,
    ;
}

/// Resamples interleaved stereo from one rate to another: output frame `i`
/// lies between two source frames, and each of its samples is what `blend`
/// makes of `i`, the number of the first of them, and their two samples.
pub fn resample_stereo_into<T: Copy, F: Fn(usize, usize, T, T) -> T>(
    data: &[T],
    from: u32,
    to: u32,
    blend: F,
    out: &mut Vec<T>,
)
    requires
        can_resample(data@.len() as int, from as int, to as int),
        forall|i: usize, frame: usize, a: T, b: T| call_requires(blend, (i, frame, a, b)),
    ensures
        is_resampled(data@, from as int, to as int, blend, final(out)@),
{
    out.clear();
    let len: usize = data.len();
    if len == 0 {
        return;
    }
    let ghost (rate_in, rate_out) = (from as int, to as int);
    let frames: u64 = (len / 2) as u64;
    let total: usize = (frames * to as u64 / from as u64) as usize;
    let mut i: usize = 0;
    while i < total
        invariant
            from > 0,
            rate_in == from,
            rate_out == to,
            len == data@.len(),
            data@.len() as int / 2 * to <= u64::MAX,
            total == resampled_frames(len as int, rate_in, rate_out),
            i <= total,
            forall|i: usize, frame: usize, a: T, b: T| call_requires(blend, (i, frame, a, b)),
            out@.len() == i * 2,
            forall|k: int, c: int|
                #![trigger out@[k * 2 + c]]
                0 <= k < i && 0 <= c < 2 ==> call_ensures(
                    blend,
                    (
                        k as usize,
                        source_frame(k, rate_in, rate_out) as usize,
                        data@[source_frame(k, rate_in, rate_out) * 2 + c],
                        next_sample(data@, source_frame(k, rate_in, rate_out), c),
                    ),
                    out@[k * 2 + c],
                ),
        decreases total - i,
    {
        proof {
            lemma_source_frame(i as int, len as int, rate_in, rate_out);
        }
        let frame: usize = (i as u64 * from as u64 / to as u64) as usize;
        assert(frame == source_frame(i as int, rate_in, rate_out));
        let ghost before = out@;
        let mut c: usize = 0;
        while c < 2
            invariant
                len == data@.len(),
                frame < len / 2,
                c <= 2,
                forall|i: usize, frame: usize, a: T, b: T|
                    call_requires(blend, (i, frame, a, b)),
                before.len() == i * 2,
                out@.len() == before.len() + c,
                forall|k: int| 0 <= k < before.len() ==> out@[k] == before[k],
                forall|d: int|
                    0 <= d < c ==> call_ensures(
                        blend,
                        (
                            i,
                            frame,
                            data@[frame * 2 + d],
                            next_sample(data@, frame as int, d),
                        ),
                        #[trigger] out@[i * 2 + d],
                    ),
            decreases 2 - c,
        {
            let a: T = data[frame * 2 + c];
            let after: usize = frame * 2 + 2 + c;
            let b: T = if after < len {
                data[after]
            } else {
                a
            };
            assert(b == next_sample(data@, frame as int, c as int));
            let sample: T = blend(i, frame, a, b);
            out.push(sample);
            c += 1;
        }
        assert forall|k: int, d: int|
            #![trigger out@[k * 2 + d]]
            0 <= k < i + 1 && 0 <= d < 2 implies call_ensures(
            blend,
            (
                k as usize,
                source_frame(k, rate_in, rate_out) as usize,
                data@[source_frame(k, rate_in, rate_out) * 2 + d],
                next_sample(data@, source_frame(k, rate_in, rate_out), d),
            ),
            out@[k * 2 + d],
        ) by {
            if k < i {
                assert(out@[k * 2 + d] == before[k * 2 + d]);
            } else {
                assert(out@[i * 2 + d] == out@[k * 2 + d]);
            }
        }
        i += 1;
    }
}

/// Samples as interleaved stereo: as they are where they have two channels.
pub open spec fn as_stereo<T>(data: Seq<T>, ch: int) -> Seq<T> {
    if ch == 2 {
        data
    } else {
        stereo(data, ch)
    }
}

/// Whether `out` is `data` at another rate: output frame `i` lies between two
/// source frames, and each of its samples is what `blend` makes of `i`, the
/// number of the first of them, and their two samples.
pub open spec fn is_resampled<T, F: Fn(usize, usize, T, T) -> T>(
    data: Seq<T>,
    from: int,
    to: int,
    blend: F,
    out: Seq<T>,
) -> bool {
    &&& out.len() == resampled_frames(data.len() as int, from, to) * 2
    &&& forall|i: int, c: int|
        #![trigger out[i * 2 + c]]
        0 <= i < resampled_frames(data.len() as int, from, to) && 0 <= c < 2 ==> call_ensures(
            blend,
            (
                i as usize,
                source_frame(i, from, to) as usize,
                data[source_frame(i, from, to) * 2 + c],
                next_sample(data, source_frame(i, from, to), c),
            ),
            out[i * 2 + c],
        )
}

/// Whether samples can be brought to another rate: their own rate is known,
/// and the number of frames can be told.
pub open spec fn can_resample(len: int, from: int, to: int) -> bool {
    &&& len > 0 ==> from > 0
    &&& len / 2 * to <= u64::MAX
    &&& resampled_frames(len, from, to) <= usize::MAX
}

/// Brings what a device delivers to stereo and to the rate that is recorded,
/// as far as it is not that already.
pub fn prepare_samples<T: Copy, F: Fn(usize, usize, T, T) -> T>(
    raw: &[T],
    channels: u16,
    rate: u32,
    target_rate: u32,
    blend: F,
) -> (out: Vec<T>)
    requires
        channels > 0,
        rate != target_rate ==> can_resample(
            as_stereo(raw@, channels as int).len() as int,
            rate as int,
            target_rate as int,
        ),
        forall|i: usize, frame: usize, a: T, b: T| call_requires(blend, (i, frame, a, b)),
    ensures
        rate == target_rate ==> out@ == as_stereo(raw@, channels as int),
        rate != target_rate ==> is_resampled(
            as_stereo(raw@, channels as int),
            rate as int,
            target_rate as int,
            blend,
            out@,
        ),
        raw@.len() % (channels as nat) == 0 ==> out@.len() % 2 == 0,
{
    let mut samples: Vec<T> = Vec::new();
    if channels == 2 {
        samples = vstd::slice::slice_to_vec(raw);
    } else {
        to_stereo_into(raw, channels, &mut samples);
    }
    if rate == target_rate {
        return samples;
    }
    let mut resampled: Vec<T> = Vec::new();
    resample_stereo_into(&samples, rate, target_rate, blend, &mut resampled);
    resampled
}

// ---------------------------------------------------------------------------
// Mixing
// ---------------------------------------------------------------------------

/// Whether `out` is `pending` with the mix of game sound and microphone behind
/// it: a sample for each of the game's, mixed with the microphone's as long as
/// there is one.
pub open spec fn is_mixed<T, F: Fn(T, T) -> T, G: Fn(T) -> T>(
    pending: Seq<T>,
    game: Seq<T>,
    mic: Seq<T>,
    both: F,
    alone: G,
    out: Seq<T>,
) -> bool {
    &&& out.len() == pending.len() + game.len()
    &&& pending.is_prefix_of(out)
    &&& forall|i: int|
        0 <= i < game.len() && i < mic.len() ==> call_ensures(
            both,
            (game[i], mic[i]),
            #[trigger] out[pending.len() + i],
        )
    &&& forall|i: int|
        mic.len() <= i < game.len() ==> call_ensures(
            alone,
            (game[i],),
            #[trigger] out[pending.len() + i],
        )
}

/// Mixes game sound and microphone behind what is pending. The game sound is
/// the measure of time: a sample is appended for each of its samples, mixed
/// with the microphone's as long as there is one, and what the microphone has
/// beyond it is dropped.
pub fn mix_into<T: Copy, F: Fn(T, T) -> T, G: Fn(T) -> T>(
    game: &[T],
    mic: &[T],
    both: F,
    alone: G,
    pending: &mut Vec<T>,
)
    requires
        forall|a: T, b: T| call_requires(both, (a, b)),
        forall|a: T| call_requires(alone, (a,)),
    ensures
        is_mixed(old(pending)@, game@, mic@, both, alone, final(pending)@),
{
    let ghost base = pending@;
    let mut i: usize = 0;
    while i < game.len()
        invariant
            i <= game@.len(),
            forall|a: T, b: T| call_requires(both, (a, b)),
            forall|a: T| call_requires(alone, (a,)),
            base == old(pending)@,
            pending@.len() == base.len() + i,
            forall|k: int| 0 <= k < base.len() ==> pending@[k] == base[k],
            forall|k: int|
                0 <= k < i && k < mic@.len() ==> call_ensures(
                    both,
                    (game@[k], mic@[k]),
                    #[trigger] pending@[base.len() + k],
                ),
            forall|k: int|
                mic@.len() <= k < i ==> call_ensures(
                    alone,
                    (game@[k],),
                    #[trigger] pending@[base.len() + k],
                ),
        decreases game@.len() - i,
    {
        let sample: T = if i < mic.len() {
            both(game[i], mic[i])
        } else {
            alone(game[i])
        };
        pending.push(sample);
        i += 1;
    }
}

// ---------------------------------------------------------------------------
// Pacing
// ---------------------------------------------------------------------------

/// The most sound that may wait to be written, in milliseconds: little enough
/// that no delay is heard when the encoder holds up the video.
pub const MAX_PENDING_AUDIO_MS: usize = 150;

/// The most interleaved stereo values that may wait to be written.
pub open spec fn pending_cap(sample_rate: u32) -> int {
    sample_rate * 2 * MAX_PENDING_AUDIO_MS / 1000
}

/// The most interleaved stereo values that may wait to be written.
pub fn max_pending_values(sample_rate: u32) -> (n: usize)
    requires
        sample_rate * 2 * MAX_PENDING_AUDIO_MS <= usize::MAX,
    ensures
        n == pending_cap(sample_rate),
{
    sample_rate as usize * 2 * MAX_PENDING_AUDIO_MS / 1000
}

/// How many of `len` values are dropped to come down to `max`: an even number,
/// so that left and right stay where they are.
pub open spec fn dropped(len: int, max: int) -> int {
    if len > max {
        len - max - (len - max) % 2
    } else {
        0
    }
}

/// What is left of values once they have come down to `max`: the newest.
pub open spec fn kept<T>(values: Seq<T>, max: int) -> Seq<T> {
    values.skip(dropped(values.len() as int, max))
}

/// Removes the first `n` values.
fn drop_front<T>(values: &mut Vec<T>, n: usize)
    requires
        n <= old(values)@.len(),
    ensures
        final(values)@ == old(values)@.skip(n as int),
{
    let rest = values.split_off(n);
    *values = rest;
    assert(values@ =~= old(values)@.skip(n as int));
}

/// Drops the oldest values beyond `max`, in whole stereo frames.
pub fn trim_pending<T>(pending: &mut Vec<T>, max: usize)
    ensures
        final(pending)@ == kept(old(pending)@, max as int),
{
    if pending.len() > max {
        let stale: usize = pending.len() - max;
        assert((stale & !1usize) == stale - stale % 2) by (bit_vector);
        let n: usize = stale & !1usize;
        drop_front(pending, n);
    } else {
        assert(pending@.skip(0) =~= pending@);
    }
}

/// The interleaved stereo values that belong to `video_frames` frames.
pub open spec fn values_due(video_frames: u64, sample_rate: u32, fps: u64) -> int {
    video_frames * sample_rate / fps as int * 2
}

/// How many more values may be written once `values_written` are, so that the
/// sound does not run ahead of the video.
pub fn allowed_values(video_frames: u64, sample_rate: u32, fps: u64, values_written: u64) -> (n:
    u64)
    requires
        fps > 0,
        video_frames * sample_rate <= u64::MAX,
        values_due(video_frames, sample_rate, fps) <= u64::MAX,
    ensures
        n == if values_due(video_frames, sample_rate, fps) > values_written {
            values_due(video_frames, sample_rate, fps) - values_written
        } else {
            0
        },
{
    assert(video_frames * sample_rate >= 0) by (nonlinear_arith);
    let target_samples: u64 = video_frames * sample_rate as u64 / fps;
    let target_values: u64 = target_samples * 2;
    target_values.saturating_sub(values_written)
}

/// Sound that waits for the video to catch up.
pub struct PacedAudio<T> {
    pub pending: Vec<T>,
    /// Values written so far.
    pub written: u64,
    pub sample_rate: u32,
    pub fps: u64,
}

/// How many values are written next: no more than the video allows, and no
/// more than there are.
pub open spec fn to_write(pending: int, written: int, due: int) -> int {
    if due <= written {
        0
    } else if due - written < pending {
        due - written
    } else {
        pending
    }
}

impl<T> PacedAudio<T> {
    /// Whole stereo frames wait, and whole stereo frames have been written.
    pub open spec fn whole_frames(&self) -> bool {
        self.pending@.len() % 2 == 0 && self.written % 2 == 0
    }

    /// Nothing waits and nothing has been written.
    pub fn new(sample_rate: u32, fps: u64) -> (paced: PacedAudio<T>)
        ensures
            paced.pending@.len() == 0,
            paced.written == 0,
            paced.sample_rate == sample_rate,
            paced.fps == fps,
            paced.whole_frames(),
    {
        PacedAudio { pending: Vec::new(), written: 0, sample_rate, fps }
    }

    /// Drops the oldest values beyond the cap.
    pub fn trim(&mut self)
        requires
            old(self).sample_rate * 2 * MAX_PENDING_AUDIO_MS <= usize::MAX,
        ensures
            final(self).pending@ == kept(
                old(self).pending@,
                pending_cap(old(self).sample_rate),
            ),
            *final(self) == (PacedAudio { pending: final(self).pending, ..*old(self) }),
            old(self).whole_frames() ==> final(self).whole_frames(),
    {
        let max: usize = max_pending_values(self.sample_rate);
        trim_pending(&mut self.pending, max);
    }

    /// How many of the waiting values are to be written, when `video_frames`
    /// frames of video have been.
    pub fn due(&self, video_frames: u64) -> (n: usize)
        requires
            self.fps > 0,
            video_frames * self.sample_rate <= u64::MAX,
            values_due(video_frames, self.sample_rate, self.fps) <= u64::MAX,
        ensures
            n == to_write(
                self.pending@.len() as int,
                self.written as int,
                values_due(video_frames, self.sample_rate, self.fps),
            ),
            n <= self.pending@.len(),
            self.whole_frames() ==> n % 2 == 0,
    {
        let allowed: u64 = allowed_values(video_frames, self.sample_rate, self.fps, self.written);
        if allowed < self.pending.len() as u64 {
            allowed as usize
        } else {
            self.pending.len()
        }
    }

    /// Takes note that the first `n` values have been written.
    pub fn wrote(&mut self, n: usize)
        requires
            n <= old(self).pending@.len(),
            old(self).written + n <= u64::MAX,
        ensures
            final(self).pending@ == old(self).pending@.skip(n as int),
            final(self).written == old(self).written + n,
            final(self).sample_rate == old(self).sample_rate,
            final(self).fps == old(self).fps,
            old(self).whole_frames() && n % 2 == 0 ==> final(self).whole_frames(),
    {
        self.written = self.written + n as u64;
        drop_front(&mut self.pending, n);
    }
}

impl<T: Copy> PacedAudio<T> {
    /// One round: takes in what the devices delivered, drops what is beyond
    /// the cap, and tells how many values are to be written, when
    /// `video_frames` frames of video have been.
    pub fn advance<F: Fn(T, T) -> T, G: Fn(T) -> T>(
        &mut self,
        game: &[T],
        mic: &[T],
        both: F,
        alone: G,
        video_frames: u64,
    ) -> (n: usize)
        requires
            forall|a: T, b: T| call_requires(both, (a, b)),
            forall|a: T| call_requires(alone, (a,)),
            old(self).sample_rate * 2 * MAX_PENDING_AUDIO_MS <= usize::MAX,
            old(self).fps > 0,
            video_frames * old(self).sample_rate <= u64::MAX,
            values_due(video_frames, old(self).sample_rate, old(self).fps) <= u64::MAX,
        ensures
            *final(self) == (PacedAudio { pending: final(self).pending, ..*old(self) }),
            exists|mixed: Seq<T>|
                #[trigger] is_mixed(old(self).pending@, game@, mic@, both, alone, mixed)
                    && final(self).pending@ == kept(mixed, pending_cap(old(self).sample_rate)),
            final(self).pending@.len() <= pending_cap(old(self).sample_rate) + 1,
            n == to_write(
                final(self).pending@.len() as int,
                old(self).written as int,
                values_due(video_frames, old(self).sample_rate, old(self).fps),
            ),
            n <= final(self).pending@.len(),
            old(self).whole_frames() && game@.len() % 2 == 0 ==> final(self).whole_frames() && n % 2
                == 0,
    {
        mix_into(game, mic, both, alone, &mut self.pending);
        assert(is_mixed(old(self).pending@, game@, mic@, both, alone, self.pending@));
        self.trim();
        self.due(video_frames)
    }
}

// ---------------------------------------------------------------------------
// Bytes
// ---------------------------------------------------------------------------

/// The bytes of a 32-bit number, the lowest first.
pub open spec fn le_bytes(x: u32) -> Seq<u8> {
    seq![
        (x % 256) as u8,
        (x / 256 % 256) as u8,
        (x / 65536 % 256) as u8,
        (x / 16777216) as u8,
    ]
}

/// Whether `bytes` are those of the bits that `bits` gives a value.
pub open spec fn encodes<T, F: Fn(T) -> u32>(bits: F, value: T, bytes: Seq<u8>) -> bool {
    exists|b: u32| call_ensures(bits, (value,), b) && bytes == #[trigger] le_bytes(b)
}

/// Writes the first `n` values as bytes, four for each, the lowest first;
/// `bits` gives the bits of a value.
pub fn encode_values<T: Copy, F: Fn(T) -> u32>(
    values: &[T],
    n: usize,
    bits: F,
    out: &mut Vec<u8>,
)
    requires
        n <= values@.len(),
        forall|v: T| call_requires(bits, (v,)),
    ensures
        final(out)@.len() == n * 4,
        forall|i: int|
            #![trigger values@[i]]
            0 <= i < n ==> encodes(bits, values@[i], final(out)@.subrange(i * 4, i * 4 + 4)),
{
    out.clear();
    let mut i: usize = 0;
    while i < n
        invariant
            i <= n <= values@.len(),
            forall|v: T| call_requires(bits, (v,)),
            out@.len() == i * 4,
            forall|k: int|
                #![trigger values@[k]]
                0 <= k < i ==> encodes(bits, values@[k], out@.subrange(k * 4, k * 4 + 4)),
        decreases n - i,
    {
        let ghost before = out@;
        let b: u32 = bits(values[i]);
        out.push((b % 256) as u8);
        out.push((b / 256 % 256) as u8);
        out.push((b / 65536 % 256) as u8);
        out.push((b / 16777216) as u8);
        proof {
            assert(out@.subrange(i * 4, i * 4 + 4) =~= le_bytes(b));
            assert forall|k: int|
                #![trigger values@[k]]
                0 <= k < i + 1 implies encodes(
                bits,
                values@[k],
                out@.subrange(k * 4, k * 4 + 4),
            ) by {
                if k < i {
                    assert(out@.subrange(k * 4, k * 4 + 4) =~= before.subrange(k * 4, k * 4 + 4));
                }
            }
        }
        i += 1;
    }
}

// ---------------------------------------------------------------------------
// Laws
// ---------------------------------------------------------------------------

/// Trimming leaves no more than the cap, or one value more where whole frames
/// do not come out even, and it moves no value from one channel to the other.
pub proof fn law_trimming_bounds_delay(len: int, max: int)
    requires
        0 <= len,
        0 <= max,
    ensures
        0 <= dropped(len, max) <= len,
        dropped(len, max) % 2 == 0,
        len - dropped(len, max) <= max + 1,
        (len - max) % 2 == 0 ==> len - dropped(len, max) <= max,
        len <= max ==> dropped(len, max) == 0,
        len > max ==> len - dropped(len, max) >= max,
{
}

/// A single channel is heard on both sides, and of more than one the first two
/// are, frame by frame.
pub proof fn law_stereo_takes_first_two<T>(data: Seq<T>, ch: int, f: int)
    requires
        0 < ch,
        0 <= f < data.len() as int / ch,
    ensures
        f * 2 + 1 < stereo(data, ch).len(),
        stereo(data, ch)[f * 2] == data[f * ch],
        ch == 1 ==> stereo(data, ch)[f * 2 + 1] == data[f],
        ch > 1 ==> stereo(data, ch)[f * 2 + 1] == data[f * ch + 1],
{
}

/// At one and the same rate every frame stays where it is.
pub proof fn law_same_rate_keeps_frames(len: int, rate: int, i: int)
    requires
        0 <= len,
        0 < rate,
        0 <= i,
    ensures
        resampled_frames(len, rate, rate) == len / 2,
        source_frame(i, rate, rate) == i,
{
    let frames = len / 2;
    assert(frames * rate / rate == frames) by (nonlinear_arith)
        requires
            rate > 0,
    ;
    assert(i * rate / rate == i) by (nonlinear_arith)
        requires
            rate > 0,
    ;
}

/// Resampling reads only frames that are there, and never goes back.
pub proof fn law_resampling_goes_forward(len: int, from: int, to: int, i: int, j: int)
    requires
        0 <= len,
        0 < from,
        0 <= to,
        0 <= i <= j < resampled_frames(len, from, to),
    ensures
        0 <= source_frame(i, from, to) <= source_frame(j, from, to) < len / 2,
{
    lemma_source_frame(i, len, from, to);
    lemma_source_frame(j, len, from, to);
    assert(i * from <= j * from) by (nonlinear_arith)
        requires
            i <= j,
            from > 0,
    ;
    vstd::arithmetic::div_mod::lemma_div_is_ordered(i * from, j * from, to);
}

/// What is left after trimming is at most `MAX_PENDING_AUDIO_MS` long, counted
/// in whole milliseconds: where it is within the cap, and at any rate above
/// 500 where it is one value more.
pub proof fn law_cap_is_in_milliseconds(len: int, sample_rate: u32)
    requires
        sample_rate > 0,
        0 <= len <= pending_cap(sample_rate) + 1,
        len <= pending_cap(sample_rate) || sample_rate > 500,
    ensures
        len * 1000 / (sample_rate * 2) <= MAX_PENDING_AUDIO_MS,
{
    let rate = sample_rate * 2;
    assert(pending_cap(sample_rate) * 1000 <= rate * 150);
    assert(len * 1000 < rate * 151);
    assert(len * 1000 / rate < 151) by (nonlinear_arith)
        requires
            len * 1000 < rate * 151,
            rate > 0,
            len >= 0,
    ;
}

/// The sound never runs ahead of the video: what has been written stays within
/// what the video has come to, and it catches up with it as far as there is
/// sound.
pub proof fn law_sound_follows_video(pending: int, written: int, due: int)
    requires
        0 <= pending,
        0 <= written,
    ensures
        written <= due ==> written + to_write(pending, written, due) <= due,
        written > due ==> to_write(pending, written, due) == 0,
        0 <= to_write(pending, written, due) <= pending,
        to_write(pending, written, due) < pending ==> written + to_write(pending, written, due)
            >= due,
{
}

/// What a round brings: the values that are mixed in it, and how many values
/// the video has come to.
pub struct Round<T> {
    pub mixed: Seq<T>,
    pub due: int,
}

/// The sound so far: all that was mixed, what of it waits, and what of it was
/// written.
pub struct Flow<T> {
    pub mixed: Seq<T>,
    pub pending: Seq<T>,
    pub sent: Seq<T>,
}

/// What waits in a round once it has been mixed and trimmed.
pub open spec fn waiting<T>(flow: Flow<T>, round: Round<T>, cap: int) -> Seq<T> {
    kept(flow.pending + round.mixed, cap)
}

/// How many values a round writes.
pub open spec fn sent_in_round<T>(flow: Flow<T>, round: Round<T>, cap: int) -> int {
    to_write(waiting(flow, round, cap).len() as int, flow.sent.len() as int, round.due)
}

/// The sound after one round more.
pub open spec fn after_round<T>(flow: Flow<T>, round: Round<T>, cap: int) -> Flow<T> {
    let values = waiting(flow, round, cap);
    let n = sent_in_round(flow, round, cap);
    Flow {
        mixed: flow.mixed + round.mixed,
        pending: values.skip(n),
        sent: flow.sent + values.take(n),
    }
}

/// The sound after some rounds, of which none was before.
pub open spec fn flow_of<T>(rounds: Seq<Round<T>>, cap: int) -> Flow<T>
    decreases rounds.len(),
{
    if rounds.len() == 0 {
        Flow { mixed: Seq::empty(), pending: Seq::empty(), sent: Seq::empty() }
    } else {
        after_round(flow_of(rounds.drop_last(), cap), rounds.last(), cap)
    }
}

/// To take in what was delivered, and to write what is to be written, is a
/// round: it mixes a value for each of the game's, and `advance` and `wrote`
/// leave what the round leaves.
pub proof fn law_advance_and_wrote_are_a_round<T, F: Fn(T, T) -> T, G: Fn(T) -> T>(
    flow: Flow<T>,
    game: Seq<T>,
    mic: Seq<T>,
    both: F,
    alone: G,
    mixed: Seq<T>,
    due: int,
    cap: int,
)
    requires
        is_mixed(flow.pending, game, mic, both, alone, mixed),
    ensures
        ({
            let round = Round { mixed: mixed.skip(flow.pending.len() as int), due };
            let values = kept(mixed, cap);
            let n = to_write(values.len() as int, flow.sent.len() as int, due);
            let after = after_round(flow, round, cap);
            &&& round.mixed.len() == game.len()
            &&& waiting(flow, round, cap) == values
            &&& after.pending == values.skip(n)
            &&& after.sent == flow.sent + values.take(n)
        }),
{
    assert(flow.pending + mixed.skip(flow.pending.len() as int) =~= mixed);
}

/// Whatever the rounds, what waits is the end of what was mixed.
pub proof fn law_newest_sound_waits<T>(rounds: Seq<Round<T>>, cap: int)
    requires
        0 <= cap,
    ensures
        ({
            let flow = flow_of(rounds, cap);
            &&& flow.pending.len() <= cap + 1
            &&& flow.pending.is_suffix_of(flow.mixed)
        }),
    decreases rounds.len(),
{
    if rounds.len() > 0 {
        law_newest_sound_waits(rounds.drop_last(), cap);
        let before = flow_of(rounds.drop_last(), cap);
        let round = rounds.last();
        let after = flow_of(rounds, cap);
        lemma_waiting_is_the_end(before, round, cap);
        assert(after.pending =~= after.mixed.skip(after.mixed.len() - after.pending.len()));
    }
}

/// What waits before a round writes is the end of what was mixed.
proof fn lemma_waiting_is_the_end<T>(flow: Flow<T>, round: Round<T>, cap: int)
    requires
        0 <= cap,
        flow.pending.is_suffix_of(flow.mixed),
    ensures
        ({
            let values = waiting(flow, round, cap);
            let mixed = flow.mixed + round.mixed;
            &&& values.len() <= mixed.len()
            &&& values == mixed.skip(mixed.len() - values.len())
            &&& values.len() <= cap + 1
            &&& values.len() <= flow.pending.len() + round.mixed.len()
            &&& (flow.pending.len() + round.mixed.len() - cap) % 2 == 0 ==> values.len() <= cap
            &&& 0 <= sent_in_round(flow, round, cap) <= values.len()
        }),
{
    let all = flow.pending + round.mixed;
    let mixed = flow.mixed + round.mixed;
    law_trimming_bounds_delay(all.len() as int, cap);
    let from = flow.mixed.len() - flow.pending.len();
    assert(flow.mixed.skip(from) == flow.pending);
    assert(all =~= mixed.skip(from));
    let values = waiting(flow, round, cap);
    assert(values =~= mixed.skip(mixed.len() - values.len()));
}

/// Whatever the rounds, values are written in the order in which they were
/// mixed, each at most once: value `i` of what was written is the one at place
/// `places[i]` of what was mixed, the places grow, and all lie before what
/// waits.
pub proof fn law_sound_goes_out_in_order<T>(rounds: Seq<Round<T>>, cap: int) -> (places: Seq<int>)
    requires
        0 <= cap,
    ensures
        ({
            let flow = flow_of(rounds, cap);
            &&& places.len() == flow.sent.len()
            &&& forall|i: int|
                #![trigger places[i]]
                0 <= i < places.len() ==> 0 <= places[i] < flow.mixed.len() - flow.pending.len()
                    && flow.sent[i] == flow.mixed[places[i]]
            &&& forall|i: int, j: int| 0 <= i < j < places.len() ==> places[i] < places[j]
        }),
    decreases rounds.len(),
{
    if rounds.len() == 0 {
        Seq::empty()
    } else {
        let before = flow_of(rounds.drop_last(), cap);
        let round = rounds.last();
        let after = flow_of(rounds, cap);
        let earlier = law_sound_goes_out_in_order(rounds.drop_last(), cap);
        law_newest_sound_waits(rounds.drop_last(), cap);
        lemma_waiting_is_the_end(before, round, cap);
        let values = waiting(before, round, cap);
        let n = sent_in_round(before, round, cap);
        let from = after.mixed.len() - values.len();
        let places = earlier + Seq::new(n as nat, |k: int| from + k);
        assert forall|i: int|
            #![trigger places[i]]
            0 <= i < places.len() implies 0 <= places[i] < after.mixed.len() - after.pending.len()
            && after.sent[i] == after.mixed[places[i]] by {
            if i < earlier.len() {
                assert(places[i] == earlier[i]);
            } else {
                let k = i - earlier.len();
                assert(values[k] == after.mixed.skip(from)[k]);
            }
        }
        assert forall|i: int, j: int| 0 <= i < j < places.len() implies places[i] < places[j] by {
            if i < earlier.len() {
                assert(places[i] == earlier[i]);
                if j < earlier.len() {
                    assert(places[j] == earlier[j]);
                }
            }
        }
        places
    }
}

/// What a round writes is, when it is written, among the newest values that
/// were mixed: no older than the cap, or one value more where whole frames do
/// not come out even. It is one piece of what was mixed.
pub proof fn law_written_sound_is_recent<T>(rounds: Seq<Round<T>>, cap: int) -> (from: int)
    requires
        0 <= cap,
        rounds.len() > 0,
    ensures
        ({
            let before = flow_of(rounds.drop_last(), cap);
            let after = flow_of(rounds, cap);
            let n = after.sent.len() - before.sent.len();
            &&& n >= 0
            &&& after.mixed.len() - (cap + 1) <= from
            &&& 0 <= from && from + n <= after.mixed.len()
            &&& after.sent == before.sent + after.mixed.subrange(from, from + n)
            &&& (before.pending.len() + rounds.last().mixed.len() - cap) % 2 == 0
                ==> after.mixed.len() - cap <= from
        }),
{
    let before = flow_of(rounds.drop_last(), cap);
    let round = rounds.last();
    let after = flow_of(rounds, cap);
    law_newest_sound_waits(rounds.drop_last(), cap);
    lemma_waiting_is_the_end(before, round, cap);
    let values = waiting(before, round, cap);
    let n = sent_in_round(before, round, cap);
    let from = after.mixed.len() - values.len();
    assert(values.take(n) =~= after.mixed.subrange(from, from + n));
    from
}

/// Where whole stereo frames are mixed, whole stereo frames are written and
/// wait, whatever the rounds; and where the cap is even too, what is written
/// is no older than the cap.
pub proof fn law_whole_frames_are_written<T>(rounds: Seq<Round<T>>, cap: int)
    requires
        0 <= cap,
        forall|i: int|
            0 <= i < rounds.len() ==> (#[trigger] rounds[i]).mixed.len() % 2 == 0 && rounds[i].due
                % 2 == 0,
    ensures
        flow_of(rounds, cap).sent.len() % 2 == 0,
        flow_of(rounds, cap).pending.len() % 2 == 0,
        cap % 2 == 0 ==> flow_of(rounds, cap).pending.len() <= cap,
        cap % 2 == 0 && rounds.len() > 0 ==> (flow_of(rounds.drop_last(), cap).pending.len()
            + rounds.last().mixed.len() - cap) % 2 == 0,
    decreases rounds.len(),
{
    if rounds.len() > 0 {
        let front = rounds.drop_last();
        assert forall|i: int| 0 <= i < front.len() implies (#[trigger] front[i]).mixed.len() % 2
            == 0 && front[i].due % 2 == 0 by {
            assert(front[i] == rounds[i]);
        }
        law_whole_frames_are_written(front, cap);
        law_newest_sound_waits(front, cap);
        assert(rounds[rounds.len() - 1] == rounds.last());
        let before = flow_of(front, cap);
        let after = flow_of(rounds, cap);
        lemma_waiting_is_the_end(before, rounds.last(), cap);
        let all = (before.pending.len() + rounds.last().mixed.len()) as int;
        lemma_round_is_even(all, before.sent.len() as int, rounds.last().due, cap);
        let values = waiting(before, rounds.last(), cap);
        let n = sent_in_round(before, rounds.last(), cap);
        assert(values.len() == all - dropped(all, cap));
        assert(after.pending.len() == values.len() - n);
        assert(after.sent.len() == before.sent.len() + n);
    }
}

/// From even numbers of values a round comes to even numbers.
proof fn lemma_round_is_even(all: int, sent: int, due: int, cap: int)
    requires
        0 <= all,
        0 <= sent,
        0 <= cap,
        all % 2 == 0,
        sent % 2 == 0,
        due % 2 == 0,
    ensures
        ({
            let values = all - dropped(all, cap);
            let n = to_write(values, sent, due);
            &&& 0 <= n <= values
            &&& n % 2 == 0
            &&& (values - n) % 2 == 0
            &&& (sent + n) % 2 == 0
            &&& cap % 2 == 0 ==> (all - cap) % 2 == 0 && values <= cap
        }),
{
}

/// While the video goes forward, the sound never runs ahead of it, whatever
/// the rounds; and it has come as far as the video wherever sound waits.
pub proof fn law_sound_keeps_to_the_video<T>(rounds: Seq<Round<T>>, cap: int)
    requires
        0 <= cap,
        forall|i: int| 0 <= i < rounds.len() ==> (#[trigger] rounds[i]).due >= 0,
        forall|i: int, j: int|
            0 <= i <= j < rounds.len() ==> (#[trigger] rounds[i]).due <= (#[trigger] rounds[j]).due,
    ensures
        rounds.len() > 0 ==> flow_of(rounds, cap).sent.len() <= rounds.last().due,
        rounds.len() > 0 && flow_of(rounds, cap).pending.len() > 0 ==> flow_of(
            rounds,
            cap,
        ).sent.len() == rounds.last().due,
    decreases rounds.len(),
{
    if rounds.len() > 0 {
        let front = rounds.drop_last();
        assert forall|i: int| 0 <= i < front.len() implies (#[trigger] front[i]).due >= 0 by {
            assert(front[i] == rounds[i]);
        }
        assert forall|i: int, j: int| 0 <= i <= j < front.len() implies (#[trigger] front[i]).due
            <= (#[trigger] front[j]).due by {
            assert(front[i] == rounds[i] && front[j] == rounds[j]);
        }
        law_sound_keeps_to_the_video(front, cap);
        law_newest_sound_waits(front, cap);
        let before = flow_of(front, cap);
        lemma_waiting_is_the_end(before, rounds.last(), cap);
        assert(rounds[rounds.len() - 1] == rounds.last());
        if front.len() > 0 {
            assert(rounds[front.len() - 1] == front.last());
        }
        law_sound_follows_video(
            waiting(before, rounds.last(), cap).len() as int,
            before.sent.len() as int,
            rounds.last().due,
        );
    }
}

/// The values that are due are whole stereo frames, and at rates that divide
/// evenly every frame of video brings the same number.
pub proof fn law_due_is_in_whole_frames(video_frames: u64, sample_rate: u32, fps: u64)
    requires
        fps > 0,
    ensures
        values_due(video_frames, sample_rate, fps) >= 0,
        values_due(video_frames, sample_rate, fps) % 2 == 0,
        sample_rate as int % fps as int == 0 ==> values_due(video_frames, sample_rate, fps)
            == video_frames * (sample_rate as int / fps as int * 2),
{
    let (v, r, f) = (video_frames as int, sample_rate as int, fps as int);
    assert(v * r >= 0) by (nonlinear_arith)
        requires
            v >= 0,
            r >= 0,
    ;
    assert(v * r / f >= 0) by (nonlinear_arith)
        requires
            v * r >= 0,
            f > 0,
    ;
    if r % f == 0 {
        let q = r / f;
        assert(r == f * q) by (nonlinear_arith)
            requires
                q == r / f,
                r % f == 0,
                f > 0,
        ;
        assert(v * r == (v * q) * f) by (nonlinear_arith)
            requires
                r == f * q,
        ;
        vstd::arithmetic::div_mod::lemma_div_by_multiple(v * q, f);
        assert((v * q) * 2 == v * (q * 2)) by (nonlinear_arith);
    }
}

/// More video never makes less sound due.
pub proof fn law_due_grows_with_video(frames: u64, more_frames: u64, sample_rate: u32, fps: u64)
    requires
        fps > 0,
        frames <= more_frames,
    ensures
        values_due(frames, sample_rate, fps) <= values_due(more_frames, sample_rate, fps),
{
    assert(frames * sample_rate <= more_frames * sample_rate) by (nonlinear_arith)
        requires
            frames <= more_frames,
    ;
    vstd::arithmetic::div_mod::lemma_div_is_ordered(
        frames * sample_rate,
        more_frames * sample_rate,
        fps as int,
    );
}

/// What is kept is the newest: all of it where there is no more than the cap,
/// else the cap or one value more.
pub proof fn law_newest_values_are_kept<T>(values: Seq<T>, max: int)
    requires
        0 <= max,
    ensures
        values.len() <= max ==> kept(values, max) == values,
        values.len() > max ==> max <= kept(values, max).len() <= max + 1,
        kept(values, max).len() <= values.len(),
        (values.len() - kept(values, max).len()) % 2 == 0,
        kept(values, max) == values.skip(values.len() - kept(values, max).len()),
{
    law_trimming_bounds_delay(values.len() as int, max);
    assert(values.skip(0) =~= values);
    let n = dropped(values.len() as int, max);
    assert(kept(values, max).len() == values.len() - n);
}

/// The cap is `MAX_PENDING_AUDIO_MS` milliseconds of stereo, rounded down to a
/// value.
pub proof fn law_cap_is_as_long_as_allowed(sample_rate: u32)
    ensures
        pending_cap(sample_rate) * 1000 <= sample_rate * 2 * MAX_PENDING_AUDIO_MS < (pending_cap(
            sample_rate,
        ) + 1) * 1000,
        MAX_PENDING_AUDIO_MS == 150,
{
}

/// Sound and video keep the same time: the stereo frames that are due last as
/// long as the frames of video, to within one stereo frame.
pub proof fn law_due_sound_lasts_as_long_as_the_video(
    video_frames: u64,
    sample_rate: u32,
    fps: u64,
)
    requires
        fps > 0,
    ensures
        values_due(video_frames, sample_rate, fps) % 2 == 0,
        values_due(video_frames, sample_rate, fps) / 2 * fps <= video_frames * sample_rate < (
        values_due(video_frames, sample_rate, fps) / 2 + 1) * fps,
{
    let n = video_frames * sample_rate;
    let f = fps as int;
    let q = n / f;
    assert(n >= 0) by (nonlinear_arith)
        requires
            n == video_frames * sample_rate,
    ;
    assert(q * f <= n < q * f + f) by (nonlinear_arith)
        requires
            q == n / f,
            f > 0,
            n >= 0,
    ;
    assert((q + 1) * f == q * f + f) by (nonlinear_arith);
    assert(values_due(video_frames, sample_rate, fps) == q * 2);
}

/// Resampled sound lasts as long as before, to within one frame, and each of
/// its frames lies at its own time between two frames that follow each other.
pub proof fn law_resampling_keeps_time(len: int, from: int, to: int, i: int)
    requires
        0 <= len,
        0 < from,
        0 < to,
        0 <= i,
    ensures
        resampled_frames(len, from, to) * from <= len / 2 * to < (resampled_frames(len, from, to)
            + 1) * from,
        source_frame(i, from, to) * to <= i * from < (source_frame(i, from, to) + 1) * to,
{
    let n = len / 2 * to;
    assert(n >= 0) by (nonlinear_arith)
        requires
            n == len / 2 * to,
            len >= 0,
            to > 0,
    ;
    let q = n / from;
    assert(q * from <= n < q * from + from) by (nonlinear_arith)
        requires
            q == n / from,
            from > 0,
            n >= 0,
    ;
    assert((q + 1) * from == q * from + from) by (nonlinear_arith);
    if len == 0 {
        assert(n == 0) by (nonlinear_arith)
            requires
                n == len / 2 * to,
                len == 0,
        ;
        assert(0 * from == 0 && 1 * from == from);
    }
    let m = i * from;
    assert(m >= 0) by (nonlinear_arith)
        requires
            m == i * from,
            i >= 0,
            from > 0,
    ;
    let p = m / to;
    assert(p * to <= m < p * to + to) by (nonlinear_arith)
        requires
            p == m / to,
            to > 0,
            m >= 0,
    ;
    assert((p + 1) * to == p * to + to) by (nonlinear_arith);
}

/// Each resampled value is blended from the two frames around its time, in its
/// own channel; after the last frame the last value is held.
pub proof fn law_resampled_values_are_blended<T, F: Fn(usize, usize, T, T) -> T>(
    data: Seq<T>,
    from: int,
    to: int,
    blend: F,
    out: Seq<T>,
    i: int,
    c: int,
    frame: int,
)
    requires
        0 < from,
        0 < to,
        is_resampled(data, from, to, blend, out),
        0 <= i && i * 2 + c < out.len(),
        0 <= c < 2,
        frame * to <= i * from < (frame + 1) * to,
    ensures
        0 <= frame < data.len() as int / 2,
        frame * 2 + 2 + c < data.len() ==> call_ensures(
            blend,
            (i as usize, frame as usize, data[frame * 2 + c], data[frame * 2 + 2 + c]),
            out[i * 2 + c],
        ),
        frame * 2 + 2 + c >= data.len() ==> call_ensures(
            blend,
            (i as usize, frame as usize, data[frame * 2 + c], data[frame * 2 + c]),
            out[i * 2 + c],
        ),
        (out.len() as int / 2) * from <= data.len() as int / 2 * to < (out.len() as int / 2 + 1)
            * from,
        out.len() % 2 == 0,
{
    let len = data.len() as int;
    law_resampling_keeps_time(len, from, to, i);
    let s = source_frame(i, from, to);
    assert(s == frame) by (nonlinear_arith)
        requires
            s * to <= i * from < (s + 1) * to,
            frame * to <= i * from < (frame + 1) * to,
            to > 0,
    ;
    assert(out.len() == resampled_frames(len, from, to) * 2);
    lemma_source_frame(i, len, from, to);
    assert(out[i * 2 + c] == out[i * 2 + c]);
    assert((frame + 1) * 2 + c == frame * 2 + 2 + c);
}

/// The mix goes on from what waits, with a value for each of the game's and in
/// its place: both sources where the microphone has one there, the game alone
/// where not.
pub proof fn law_mix_follows_the_game<T, F: Fn(T, T) -> T, G: Fn(T) -> T>(
    pending: Seq<T>,
    game: Seq<T>,
    mic: Seq<T>,
    both: F,
    alone: G,
    out: Seq<T>,
    i: int,
)
    requires
        is_mixed(pending, game, mic, both, alone, out),
    ensures
        out.len() == pending.len() + game.len(),
        out.take(pending.len() as int) == pending,
        0 <= i < game.len() && i < mic.len() ==> call_ensures(
            both,
            (game[i], mic[i]),
            out[pending.len() + i],
        ),
        0 <= i < game.len() && i >= mic.len() ==> call_ensures(
            alone,
            (game[i],),
            out[pending.len() + i],
        ),
{
    assert(out.take(pending.len() as int) =~= pending);
}

/// Two channels stay as they are, and any other number becomes two.
pub proof fn law_stereo_stays_stereo<T>(data: Seq<T>, ch: int)
    requires
        0 < ch,
    ensures
        ch == 2 ==> as_stereo(data, ch) == data,
        ch != 2 ==> as_stereo(data, ch) == stereo(data, ch),
        stereo(data, ch).len() == data.len() as int / ch * 2,
{
    let n = data.len() as int;
    assert(n / ch >= 0) by (nonlinear_arith)
        requires
            n >= 0,
            ch > 0,
    ;
}

/// The bytes of a number are its digits to the base 256, the lowest first.
pub proof fn law_bytes_make_up_the_number(x: u32)
    ensures
        le_bytes(x).len() == 4,
        le_bytes(x)[0] + 256 * le_bytes(x)[1] + 65536 * le_bytes(x)[2] + 16777216 * le_bytes(x)[3]
            == x,
{
    assert(x % 256 + 256 * (x / 256 % 256) + 65536 * (x / 65536 % 256) + 16777216 * (x / 16777216)
        == x) by (bit_vector);
    assert(x / 16777216 < 256) by (bit_vector);
}

/// Bytes that encode a value are those of the bits that it has.
pub proof fn law_encoded_bytes_are_the_bits<T, F: Fn(T) -> u32>(
    bits: F,
    value: T,
    bytes: Seq<u8>,
) -> (b: u32)
    requires
        encodes(bits, value, bytes),
    ensures
        call_ensures(bits, (value,), b),
        bytes.len() == 4,
        bytes[0] + 256 * bytes[1] + 65536 * bytes[2] + 16777216 * bytes[3] == b,
{
    let b = choose|b: u32| call_ensures(bits, (value,), b) && bytes == #[trigger] le_bytes(b);
    law_bytes_make_up_the_number(b);
    b
}

} // verus!
