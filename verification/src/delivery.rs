//! Hand-off to the consumer: 16-bit samples as little-endian bytes, and
//! nothing at all where a chunk gave no sample.

use vstd::prelude::*;
use crate::resampler::{decimation_factor, resampled, Resampler, TAP_COUNT};

verus! {

/// The low byte of a sample in two's complement.
pub open spec fn low_byte(sample: i16) -> int {
    (sample as int) % 256
}

/// The high byte of a sample in two's complement.
pub open spec fn high_byte(sample: i16) -> int {
    ((sample as int) / 256) % 256
}

/// The byte sequence of a sample sequence: two bytes a sample, low byte
/// first, in the order of the samples.
pub open spec fn pcm_bytes(samples: Seq<i16>) -> Seq<u8> {
    Seq::new(
        2 * samples.len(),
        |i: int|
            if i % 2 == 0 {
                low_byte(samples[i / 2]) as u8
            } else {
                high_byte(samples[i / 2]) as u8
            },
    )
}

/// The sample that two bytes stand for, low byte first.
pub open spec fn sample_from_bytes(low: u8, high: u8) -> int {
    let unsigned = low as int + 256 * (high as int);
    if unsigned >= 32768 {
        unsigned - 65536
    } else {
        unsigned
    }
}

/// What is handed to the consumer for a sequence of samples: its bytes, or
/// nothing where it is empty.
pub open spec fn delivery(samples: Seq<i16>) -> Option<Seq<u8>> {
    if samples.len() == 0 {
        None
    } else {
        Some(pcm_bytes(samples))
    }
}

/// Encodes samples as little-endian bytes.
pub fn encode_pcm(samples: &[i16]) -> (bytes: Vec<u8>)
    ensures
        bytes@ == pcm_bytes(samples@),
{
    let mut bytes: Vec<u8> = Vec::new();
    let mut i: usize = 0;
    while i < samples.len()
        invariant
            i <= samples@.len(),
            bytes@.len() == 2 * i,
            forall|j: int| 0 <= j < 2 * i ==> bytes@[j] == #[trigger] pcm_bytes(samples@)[j],
        decreases samples@.len() - i,
    {
        let sample = samples[i];
        let unsigned: u32 = if sample >= 0 {
            sample as u32
        } else {
            (sample as i32 + 65536) as u32
        };
        let low = (unsigned % 256) as u8;
        let high = (unsigned / 256) as u8;
        proof {
            assert(low == low_byte(sample));
            assert(high == high_byte(sample));
            assert((2 * i) / 2 == i && (2 * i) % 2 == 0);
            assert((2 * i + 1) / 2 == i && (2 * i + 1) % 2 == 1);
        }
        bytes.push(low);
        bytes.push(high);
        i = i + 1;
    }
    assert(bytes@ =~= pcm_bytes(samples@));
    bytes
}

/// Resamples one buffer of the audio source and encodes what came out. A
/// buffer that gave no sample gives no delivery.
pub fn produce_chunk<T: Copy, M: Fn(T, T) -> T, F: Fn(&Vec<T>) -> i64>(
    resampler: &mut Resampler<T>,
    input: &[T],
    channels: u32,
    sample_rate: u32,
    mix: M,
    filter: F,
) -> (chunk: Option<Vec<u8>>)
    requires
        old(resampler).wf(),
        channels >= 1 || decimation_factor(sample_rate) == 0,
        forall|l: T, r: T| mix.requires((l, r)),
        forall|w: &Vec<T>| w@.len() == TAP_COUNT ==> filter.requires((w,)),
    ensures
        final(resampler).wf(),
        final(resampler).silence() == old(resampler).silence(),
        exists|samples: Seq<i16>|
            {
                &&& #[trigger] resampled(
                    mix,
                    filter,
                    old(resampler)@,
                    input@,
                    channels as int,
                    decimation_factor(sample_rate),
                    final(resampler)@,
                    samples,
                )
                &&& chunk is Some == delivery(samples) is Some
                &&& chunk is Some ==> chunk->0@ == delivery(samples)->0
            },
{
    let samples = resampler.process(input, channels, sample_rate, mix, filter);
    if samples.len() == 0 {
        None
    } else {
        Some(encode_pcm(samples.as_slice()))
    }
}

/// The encoding loses nothing: two bytes a sample, and each pair of bytes
/// stands for the sample it was made from.
pub proof fn law_bytes_hold_samples(samples: Seq<i16>, i: int)
    requires
        0 <= i < samples.len(),
    ensures
        pcm_bytes(samples).len() == 2 * samples.len(),
        sample_from_bytes(pcm_bytes(samples)[2 * i], pcm_bytes(samples)[2 * i + 1]) == samples[i],
{
    assert((2 * i) / 2 == i && (2 * i) % 2 == 0);
    assert((2 * i + 1) / 2 == i && (2 * i + 1) % 2 == 1);
}

/// Chunks arrive in the order of their samples: the bytes of two sample
/// sequences laid end to end are their byte sequences laid end to end.
pub proof fn law_bytes_keep_order(first: Seq<i16>, second: Seq<i16>)
    ensures
        pcm_bytes(first + second) == pcm_bytes(first) + pcm_bytes(second),
{
    let whole = pcm_bytes(first + second);
    let parts = pcm_bytes(first) + pcm_bytes(second);
    assert forall|j: int| 0 <= j < whole.len() implies whole[j] == parts[j] by {
        if j >= 2 * first.len() {
            let k = j - 2 * first.len();
            assert(j / 2 == first.len() + k / 2);
            assert(j % 2 == k % 2);
        }
    }
    assert(whole =~= parts);
}

} // verus!
