//! Raw PCM on the wire: signed 16-bit amplitudes, least significant byte
//! first, and their conversion to and from samples.

use crate::error::DenoiseError;
use crate::sample::{lemma_of_int_holds, Sample};
use vstd::prelude::*;

verus! {

/// The amplitude that two bytes encode, least significant byte first, in
/// two's complement.
pub open spec fn pcm_of_bytes(low: u8, high: u8) -> int {
    let unsigned = low as int + 256 * (high as int);
    if unsigned >= 32768 {
        unsigned - 65536
    } else {
        unsigned
    }
}

/// The two's complement of an amplitude, as a number from 0 to 65535.
pub open spec fn unsigned_of_pcm(x: int) -> int {
    if x < 0 {
        x + 65536
    } else {
        x
    }
}

/// The less significant byte of an amplitude.
pub open spec fn low_byte(x: int) -> u8 {
    (unsigned_of_pcm(x) % 256) as u8
}

/// The more significant byte of an amplitude.
pub open spec fn high_byte(x: int) -> u8 {
    (unsigned_of_pcm(x) / 256) as u8
}

/// The samples that a PCM buffer encodes, one for each pair of bytes.
pub open spec fn decoded(bytes: Seq<u8>) -> Seq<Sample> {
    Seq::new(
        (bytes.len() / 2) as nat,
        |i: int| Sample::of_int(pcm_of_bytes(bytes[2 * i], bytes[2 * i + 1])),
    )
}

/// The PCM buffer that encodes a sequence of samples: two bytes for each,
/// after the sample is limited to the 16-bit range and rounded toward zero.
pub open spec fn encoded(samples: Seq<Sample>) -> Seq<u8> {
    Seq::new(
        2 * samples.len(),
        |j: int|
            if j % 2 == 0 {
                low_byte(samples[j / 2].pcm())
            } else {
                high_byte(samples[j / 2].pcm())
            },
    )
}

/// Reads a buffer of little-endian signed 16-bit PCM as samples. A buffer
/// of odd length is refused.
pub fn decode(bytes: &Vec<u8>) -> (result: Result<Vec<Sample>, DenoiseError>)
    ensures
        bytes@.len() % 2 == 0 ==> result is Ok && result->Ok_0@ == decoded(bytes@),
        bytes@.len() % 2 != 0 ==> result == Err::<Vec<Sample>, DenoiseError>(
            DenoiseError::MalformedInput,
        ),
{
    let count: usize = bytes.len() / 2;
    if bytes.len() % 2 != 0 {
        return Err(DenoiseError::MalformedInput);
    }
    let mut samples: Vec<Sample> = Vec::new();
    let mut i: usize = 0;
    while i < count
        invariant
            bytes@.len() == 2 * count <= usize::MAX,
            i <= count,
            samples@.len() == i,
            forall|k: int| 0 <= k < i ==> samples@[k] == decoded(bytes@)[k],
        decreases count - i,
    {
        let low: u8 = bytes[2 * i];
        let high: u8 = bytes[2 * i + 1];
        let unsigned: i32 = low as i32 + 256 * (high as i32);
        let amplitude: i16 = if unsigned >= 32768 {
            (unsigned - 65536) as i16
        } else {
            unsigned as i16
        };
        samples.push(Sample::from_pcm(amplitude));
        i += 1;
    }
    assert(samples@ =~= decoded(bytes@));
    Ok(samples)
}

/// Writes samples as little-endian signed 16-bit PCM. Each sample is
/// limited to the range from -32768 to 32767, saturating, and rounded
/// toward zero.
pub fn encode(samples: &Vec<Sample>) -> (bytes: Vec<u8>)
    ensures
        bytes@ == encoded(samples@),
{
    let mut bytes: Vec<u8> = Vec::new();
    let mut i: usize = 0;
    while i < samples.len()
        invariant
            i <= samples@.len(),
            bytes@.len() == 2 * i,
            forall|j: int| 0 <= j < 2 * i ==> bytes@[j] == encoded(samples@)[j],
        decreases samples@.len() - i,
    {
        let amplitude: i16 = samples[i].to_pcm();
        let unsigned: i32 = if amplitude < 0 {
            amplitude as i32 + 65536
        } else {
            amplitude as i32
        };
        bytes.push((unsigned % 256) as u8);
        bytes.push((unsigned / 256) as u8);
        i += 1;
    }
    assert(bytes@ =~= encoded(samples@));
    bytes
}

/// Decoding a buffer of even length and encoding the samples again gives
/// the buffer back, byte for byte: no decoded sample is out of range, so
/// none is clipped.
pub proof fn lemma_decode_then_encode(bytes: Seq<u8>)
    requires
        bytes.len() % 2 == 0,
    ensures
        encoded(decoded(bytes)) == bytes,
{
    let samples = decoded(bytes);
    assert forall|j: int| 0 <= j < bytes.len() implies encoded(samples)[j] == bytes[j] by {
        let i = j / 2;
        let x = pcm_of_bytes(bytes[2 * i], bytes[2 * i + 1]);
        lemma_of_int_holds(x);
        samples[i].lemma_pcm_of_held(x);
    }
    assert(encoded(samples) =~= bytes);
}

} // verus!
