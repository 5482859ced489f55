//! The shutter sound: a decaying burst of noise, as a WAV file in memory.

use vstd::prelude::*;

use crate::audio;

verus! {

/// Samples per second.
pub const SAMPLE_RATE: u32 = 44100;

/// Samples in the sound: 150 milliseconds.
pub const NUM_SAMPLES: usize = 6615;

/// Bytes before the samples.
pub const HEADER_BYTES: usize = 44;

/// The two bytes of a 16-bit number, the lower first.
pub open spec fn le_pair(x: u16) -> Seq<u8> {
    seq![(x % 256) as u8, (x / 256) as u8]
}

/// The bits of a sample as an unsigned number.
pub open spec fn sample_bits(s: i16) -> u16 {
    if s < 0 {
        (s + 65536) as u16
    } else {
        s as u16
    }
}

/// The state of the noise generator after `n` steps.
pub open spec fn noise_state(n: nat) -> u32
    decreases n,
{
    if n == 0 {
        48271
    } else {
        ((noise_state((n - 1) as nat) * 1103515245 + 12345) % 0x1_0000_0000) as u32
    }
}

/// Sample `i` of the noise: the upper half of the state, signed.
pub open spec fn noise(i: int) -> i16 {
    let upper = noise_state((i + 1) as nat) / 65536;
    if upper < 32768 {
        upper as i16
    } else {
        (upper - 65536) as i16
    }
}

/// The header of a WAV file with `data_size` bytes of 16-bit mono samples.
pub open spec fn wav_header(data_size: u32) -> Seq<u8> {
    seq![0x52u8, 0x49, 0x46, 0x46]  // RIFF
     + audio::le_bytes((36 + data_size) as u32) + seq![0x57u8, 0x41, 0x56, 0x45]  // WAVE
     + seq![0x66u8, 0x6d, 0x74, 0x20]  // fmt
     + audio::le_bytes(16) + le_pair(1) + le_pair(1) + audio::le_bytes(SAMPLE_RATE)
        + audio::le_bytes(88200) + le_pair(2) + le_pair(16) + seq![
        0x64u8,
        0x61,
        0x74,
        0x61,
    ]  // data
     + audio::le_bytes(data_size)
}

/// Appends a 32-bit number, the lowest byte first.
fn push_u32(out: &mut Vec<u8>, x: u32)
    ensures
        final(out)@ == old(out)@ + audio::le_bytes(x),
{
    out.push((x % 256) as u8);
    out.push((x / 256 % 256) as u8);
    out.push((x / 65536 % 256) as u8);
    out.push((x / 16777216) as u8);
    assert(out@ =~= old(out)@ + audio::le_bytes(x));
}

/// Appends a 16-bit number, the lower byte first.
fn push_u16(out: &mut Vec<u8>, x: u16)
    ensures
        final(out)@ == old(out)@ + le_pair(x),
{
    out.push((x % 256) as u8);
    out.push((x / 256) as u8);
    assert(out@ =~= old(out)@ + le_pair(x));
}

/// Appends four bytes.
fn push_tag(out: &mut Vec<u8>, a: u8, b: u8, c: u8, d: u8)
    ensures
        final(out)@ == old(out)@ + seq![a, b, c, d],
{
    out.push(a);
    out.push(b);
    out.push(c);
    out.push(d);
    assert(out@ =~= old(out)@ + seq![a, b, c, d]);
}

/// Whether `bytes` are those of a sample that `shape` makes of noise sample
/// `i`.
pub open spec fn is_shaped<F: Fn(usize, i16) -> i16>(shape: F, i: int, bytes: Seq<u8>) -> bool {
    exists|s: i16|
        call_ensures(shape, (i as usize, noise(i)), s) && bytes == #[trigger] le_pair(
            sample_bits(s),
        )
}

/// The bytes of sample `i` of a WAV file.
pub open spec fn sample_bytes(wav: Seq<u8>, i: int) -> Seq<u8> {
    wav.subrange(HEADER_BYTES + i * 2, HEADER_BYTES + i * 2 + 2)
}

/// The state of the noise generator after one step more.
fn next_noise_state(state: u32) -> (next: u32)
    ensures
        next == (state * 1103515245 + 12345) % 0x1_0000_0000,
{
    ((state as u64 * 1103515245 + 12345) % 0x1_0000_0000) as u32
}

/// The upper half of a state, signed.
fn upper_half(state: u32) -> (s: i16)
    ensures
        s == if state / 65536 < 32768 {
            (state / 65536) as int
        } else {
            state / 65536 - 65536
        },
{
    let upper: u32 = state / 65536;
    if upper < 32768 {
        upper as i16
    } else {
        (upper as i32 - 65536) as i16
    }
}

/// The bits of a sample as an unsigned number.
fn bits_of(sample: i16) -> (bits: u16)
    ensures
        bits == sample_bits(sample),
{
    if sample < 0 {
        (sample as i32 + 65536) as u16
    } else {
        sample as u16
    }
}

/// Appends the samples that `shape` makes of the noise.
fn push_samples<F: Fn(usize, i16) -> i16>(wav: &mut Vec<u8>, shape: F)
    requires
        old(wav)@.len() == HEADER_BYTES,
        forall|i: usize, n: i16| i < NUM_SAMPLES ==> call_requires(shape, (i, n)),
    ensures
        final(wav)@.len() == HEADER_BYTES + NUM_SAMPLES * 2,
        final(wav)@.take(HEADER_BYTES as int) == old(wav)@,
        forall|i: int|
            0 <= i < NUM_SAMPLES ==> is_shaped(shape, i, #[trigger] sample_bytes(final(wav)@, i)),
{
    let ghost header = wav@;
    let mut state: u32 = 48271;
    let mut i: usize = 0;
    assert(wav@.take(HEADER_BYTES as int) =~= header);
    while i < NUM_SAMPLES
        invariant
            forall|i: usize, n: i16| i < NUM_SAMPLES ==> call_requires(shape, (i, n)),
            i <= NUM_SAMPLES,
            header.len() == HEADER_BYTES,
            state == noise_state(i as nat),
            wav@.len() == HEADER_BYTES + i * 2,
            wav@.take(HEADER_BYTES as int) == header,
            forall|k: int| 0 <= k < i ==> is_shaped(shape, k, #[trigger] sample_bytes(wav@, k)),
        decreases NUM_SAMPLES - i,
    {
        state = next_noise_state(state);
        let raw: i16 = upper_half(state);
        let sample: i16 = shape(i, raw);
        let ghost before = wav@;
        push_u16(wav, bits_of(sample));
        proof {
            assert(noise(i as int) == raw);
            assert(wav@.take(HEADER_BYTES as int) =~= before.take(HEADER_BYTES as int));
            assert(sample_bytes(wav@, i as int) =~= le_pair(sample_bits(sample)));
            assert forall|k: int| 0 <= k < i + 1 implies is_shaped(
                shape,
                k,
                #[trigger] sample_bytes(wav@, k),
            ) by {
                if k < i {
                    assert(sample_bytes(wav@, k) =~= sample_bytes(before, k));
                }
            }
        }
        i += 1;
    }
}

/// The shutter sound as a WAV file: 16-bit mono samples, each of which is what
/// `shape` makes of its number and its noise.
pub fn generate_shutter_wav<F: Fn(usize, i16) -> i16>(shape: F) -> (wav: Vec<u8>)
    requires
        forall|i: usize, n: i16| i < NUM_SAMPLES ==> call_requires(shape, (i, n)),
    ensures
        wav@.len() == HEADER_BYTES + NUM_SAMPLES * 2,
        wav@.take(HEADER_BYTES as int) == wav_header((NUM_SAMPLES * 2) as u32),
        forall|i: int|
            0 <= i < NUM_SAMPLES ==> is_shaped(shape, i, #[trigger] sample_bytes(wav@, i)),
{
    let bits_per_sample: u16 = 16;
    let num_channels: u16 = 1;
    let byte_rate: u32 = SAMPLE_RATE * num_channels as u32 * bits_per_sample as u32 / 8;
    let block_align: u16 = num_channels * bits_per_sample / 8;
    let data_size: u32 = (NUM_SAMPLES * 2) as u32;

    let mut wav: Vec<u8> = Vec::new();
    push_tag(&mut wav, 0x52, 0x49, 0x46, 0x46);
    push_u32(&mut wav, 36 + data_size);
    push_tag(&mut wav, 0x57, 0x41, 0x56, 0x45);
    push_tag(&mut wav, 0x66, 0x6d, 0x74, 0x20);
    push_u32(&mut wav, 16);
    push_u16(&mut wav, 1);
    push_u16(&mut wav, num_channels);
    push_u32(&mut wav, SAMPLE_RATE);
    push_u32(&mut wav, byte_rate);
    push_u16(&mut wav, block_align);
    push_u16(&mut wav, bits_per_sample);
    push_tag(&mut wav, 0x64, 0x61, 0x74, 0x61);
    push_u32(&mut wav, data_size);
    assert(wav@ =~= wav_header(data_size));
    push_samples(&mut wav, shape);
    wav
}

/// The 32-bit number at position `at`, the lowest byte first.
pub open spec fn number_at(bytes: Seq<u8>, at: int) -> int {
    bytes[at] + 256 * bytes[at + 1] + 65536 * bytes[at + 2] + 16777216 * bytes[at + 3]
}

/// The sizes that a WAV header declares are those of the file: of all that
/// follows the first size, and of the samples.
pub proof fn law_declared_sizes_are_true(data_size: u32)
    requires
        data_size <= u32::MAX - 36,
    ensures
        wav_header(data_size).len() == HEADER_BYTES,
        number_at(wav_header(data_size), 4) == HEADER_BYTES + data_size - 8,
        number_at(wav_header(data_size), 40) == data_size,
        number_at(wav_header(data_size), 24) == SAMPLE_RATE,
{
    let h = wav_header(data_size);
    let total = (36 + data_size) as u32;
    lemma_le_bytes(h, 4, total);
    lemma_le_bytes(h, 40, data_size);
    lemma_le_bytes(h, 24, SAMPLE_RATE);
}

/// Where the bytes of a number stand, the number is read.
proof fn lemma_le_bytes(bytes: Seq<u8>, at: int, x: u32)
    requires
        0 <= at && at + 4 <= bytes.len(),
        forall|k: int| 0 <= k < 4 ==> bytes[at + k] == #[trigger] audio::le_bytes(x)[k],
    ensures
        number_at(bytes, at) == x,
{
    let b = audio::le_bytes(x);
    assert(b[0] == bytes[at + 0] && b[1] == bytes[at + 1]);
    assert(b[2] == bytes[at + 2] && b[3] == bytes[at + 3]);
    assert(x % 256 + 256 * (x / 256 % 256) + 65536 * (x / 65536 % 256) + 16777216 * (x / 16777216)
        == x) by (bit_vector);
    assert(x / 16777216 < 256) by (bit_vector);
}

} // verus!
