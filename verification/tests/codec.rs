use speech_denoise::codec::{decode, encode};
use speech_denoise::error::DenoiseError;
use speech_denoise::sample::Sample;

fn sample(value: f32) -> Sample {
    Sample { bits: value.to_bits() }
}

fn native_pcm(value: f32) -> i16 {
    value.max(i16::MIN as f32).min(i16::MAX as f32) as i16
}

#[test]
fn widening_agrees_with_the_native_cast_for_every_amplitude() {
    for x in i16::MIN..=i16::MAX {
        assert_eq!(Sample::from_pcm(x).bits, (x as f32).to_bits(), "amplitude {}", x);
    }
}

#[test]
fn widening_and_narrowing_give_every_amplitude_back() {
    for x in i16::MIN..=i16::MAX {
        assert_eq!(Sample::from_pcm(x).to_pcm(), x);
    }
}

#[test]
fn silence_is_positive_zero() {
    assert_eq!(Sample::silence().bits, 0.0f32.to_bits());
    assert_eq!(Sample::silence(), Sample::from_pcm(0));
}

#[test]
fn known_bit_patterns_of_amplitudes() {
    assert_eq!(Sample::from_pcm(1).bits, 0x3f80_0000);
    assert_eq!(Sample::from_pcm(-1).bits, 0xbf80_0000);
    assert_eq!(Sample::from_pcm(2).bits, 0x4000_0000);
    assert_eq!(Sample::from_pcm(3).bits, 0x4040_0000);
    assert_eq!(Sample::from_pcm(32767).bits, 0x46ff_fe00);
    assert_eq!(Sample::from_pcm(-32768).bits, 0xc700_0000);
}

#[test]
fn clamping_saturates_above_and_below() {
    assert_eq!(sample(40000.0).to_pcm(), 32767);
    assert_eq!(sample(-40000.0).to_pcm(), -32768);
    assert_eq!(encode(&vec![sample(40000.0)]), vec![0xff, 0x7f]);
    assert_eq!(encode(&vec![sample(-40000.0)]), vec![0x00, 0x80]);
}

#[test]
fn narrowing_rounds_toward_zero() {
    assert_eq!(sample(0.999).to_pcm(), 0);
    assert_eq!(sample(-0.999).to_pcm(), 0);
    assert_eq!(sample(1.0).to_pcm(), 1);
    assert_eq!(sample(1.999).to_pcm(), 1);
    assert_eq!(sample(-1.999).to_pcm(), -1);
    assert_eq!(sample(1234.75).to_pcm(), 1234);
    assert_eq!(sample(-1234.75).to_pcm(), -1234);
    assert_eq!(sample(32766.998).to_pcm(), 32766);
    assert_eq!(sample(32767.0).to_pcm(), 32767);
    assert_eq!(sample(32767.5).to_pcm(), 32767);
    assert_eq!(sample(32768.0).to_pcm(), 32767);
    assert_eq!(sample(-32767.5).to_pcm(), -32767);
    assert_eq!(sample(-32768.0).to_pcm(), -32768);
    assert_eq!(sample(-32768.5).to_pcm(), -32768);
}

#[test]
fn narrowing_of_the_special_values() {
    assert_eq!(sample(0.0).to_pcm(), 0);
    assert_eq!(sample(-0.0).to_pcm(), 0);
    assert_eq!(sample(f32::MIN_POSITIVE).to_pcm(), 0);
    assert_eq!(Sample { bits: 1 }.to_pcm(), 0);
    assert_eq!(Sample { bits: 0x8000_0001 }.to_pcm(), 0);
    assert_eq!(sample(f32::MAX).to_pcm(), 32767);
    assert_eq!(sample(f32::MIN).to_pcm(), -32768);
    assert_eq!(sample(f32::INFINITY).to_pcm(), 32767);
    assert_eq!(sample(f32::NEG_INFINITY).to_pcm(), -32768);
    assert_eq!(sample(f32::NAN).to_pcm(), -32768);
    assert_eq!(Sample { bits: 0xffc0_0000 }.to_pcm(), -32768);
    assert_eq!(Sample { bits: 0x7f80_0001 }.to_pcm(), -32768);
}

#[test]
fn narrowing_agrees_with_the_native_clamp_and_cast() {
    let mut bits: u32 = 0;
    loop {
        let value = f32::from_bits(bits);
        assert_eq!(Sample { bits }.to_pcm(), native_pcm(value), "bits {:#010x}", bits);
        match bits.checked_add(40_009) {
            Some(next) => bits = next,
            None => break,
        }
    }
}

#[test]
fn narrowing_agrees_with_the_native_cast_around_every_amplitude() {
    for x in i16::MIN..=i16::MAX {
        let exact = (x as f32).to_bits();
        for bits in [exact.wrapping_sub(1), exact, exact.wrapping_add(1)] {
            assert_eq!(Sample { bits }.to_pcm(), native_pcm(f32::from_bits(bits)));
        }
    }
}

#[test]
fn decode_reads_little_endian_pairs() {
    let samples = decode(&vec![0x01, 0x00, 0xff, 0xff, 0x00, 0x80, 0xff, 0x7f, 0x34, 0x12]).unwrap();
    let expected: Vec<Sample> = [1.0f32, -1.0, -32768.0, 32767.0, 4660.0].iter().map(|v| sample(*v)).collect();
    assert_eq!(samples, expected);
}

#[test]
fn decode_of_nothing_is_nothing() {
    assert_eq!(decode(&Vec::new()), Ok(Vec::new()));
    assert_eq!(encode(&Vec::new()), Vec::<u8>::new());
}

#[test]
fn decode_refuses_an_odd_length() {
    assert_eq!(decode(&vec![0x01]), Err(DenoiseError::MalformedInput));
    assert_eq!(decode(&vec![0x01, 0x02, 0x03]), Err(DenoiseError::MalformedInput));
}

#[test]
fn encode_writes_little_endian_pairs() {
    let bytes = encode(&vec![sample(1.0), sample(-2.0), sample(258.9), sample(-32768.0)]);
    assert_eq!(bytes, vec![0x01, 0x00, 0xfe, 0xff, 0x02, 0x01, 0x00, 0x80]);
}

#[test]
fn decode_then_encode_gives_the_bytes_back() {
    let mut bytes: Vec<u8> = Vec::new();
    for x in i16::MIN..=i16::MAX {
        bytes.extend_from_slice(&x.to_le_bytes());
    }
    let samples = decode(&bytes).unwrap();
    assert_eq!(samples.len(), 65536);
    assert_eq!(encode(&samples), bytes);
}
