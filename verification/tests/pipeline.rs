use dasp::interpolate::sinc::Sinc;
use dasp::ring_buffer::Fixed;
use dasp::{signal, Signal};
use nnnoiseless::DenoiseState;
use speech_denoise::batch::{assemble, denoise, frame_channels, BatchStep, Recording};
use speech_denoise::codec::{decode, encode};
use speech_denoise::frame::{Frame, FRAME_SIZE};
use speech_denoise::rate::TARGET_SAMPLE_RATE;
use speech_denoise::sample::Sample;
use speech_denoise::stream::{denoise_chunk, encode_frames, ChunkStep, StreamingSession};

fn floats(samples: &[Sample]) -> Vec<f32> {
    samples.iter().map(|sample| f32::from_bits(sample.bits)).collect()
}

fn samples(values: &[f32]) -> Vec<Sample> {
    values.iter().map(|value| Sample { bits: value.to_bits() }).collect()
}

fn resample(input: &[Sample], source_rate: u32) -> Vec<Sample> {
    let signal = signal::from_iter(floats(input));
    let sinc = Sinc::new(Fixed::from([0.0f32; 256]));
    let resampler = signal.from_hz_to_hz(sinc, source_rate as f64, TARGET_SAMPLE_RATE as f64);
    samples(&resampler.until_exhausted().collect::<Vec<f32>>())
}

fn suppress(state: &mut DenoiseState<'static>, frame: &Frame) -> Frame {
    let mut output = vec![0.0f32; FRAME_SIZE];
    state.process_frame(&mut output, &floats(frame.samples()));
    Frame::from_samples(samples(&output)).unwrap()
}

fn submit(
    session: &mut StreamingSession,
    state: &mut DenoiseState<'static>,
    input: Vec<u8>,
    rate: u32,
) -> Vec<u8> {
    let frames = match denoise_chunk(session, input, rate).unwrap() {
        ChunkStep::Resample { samples, source_rate } => {
            session.resampled(&resample(&samples, source_rate))
        }
        ChunkStep::Denoise { frames } => frames,
    };
    let denoised: Vec<Frame> = frames.iter().map(|frame| suppress(state, frame)).collect();
    encode_frames(&denoised)
}

fn tone(count: usize) -> Vec<i16> {
    (0..count).map(|i| (8000.0 * (i as f32 * 0.05).sin()) as i16).collect()
}

fn pcm_bytes(amplitudes: &[i16]) -> Vec<u8> {
    amplitudes.iter().flat_map(|x| x.to_le_bytes()).collect()
}

#[test]
fn the_suppressor_works_on_frames_of_the_library_s_size() {
    assert_eq!(DenoiseState::FRAME_SIZE, FRAME_SIZE);
}

#[test]
fn silence_through_the_suppressor_in_two_chunks() {
    let mut session = StreamingSession::new();
    let mut state = DenoiseState::new();
    let first = submit(&mut session, &mut state, vec![0u8; 600], 48000);
    assert!(first.is_empty());
    assert_eq!(session.carryover().len(), 300);
    let second = submit(&mut session, &mut state, vec![0u8; 600], 48000);
    assert_eq!(second.len(), 960);
    assert_eq!(session.carryover().len(), 120);
}

#[test]
fn a_tone_through_the_suppressor_is_the_same_whatever_the_chunks() {
    let input = tone(3000);
    let mut session = StreamingSession::new();
    let mut state = DenoiseState::new();
    let whole = submit(&mut session, &mut state, pcm_bytes(&input), 48000);
    assert_eq!(whole.len(), 2 * 6 * FRAME_SIZE);
    assert_eq!(session.carryover().len(), 120);

    let mut session = StreamingSession::new();
    let mut state = DenoiseState::new();
    let mut pieces: Vec<u8> = Vec::new();
    for chunk in input.chunks(700) {
        pieces.extend(submit(&mut session, &mut state, pcm_bytes(chunk), 48000));
        assert!(session.carryover().len() < FRAME_SIZE);
    }
    assert_eq!(pieces, whole);
    assert_eq!(session.carryover().len(), 120);
}

#[test]
fn a_chunk_at_another_rate_is_resampled_before_it_is_framed() {
    let input = tone(1600);
    let expected = resample(&decode(&pcm_bytes(&input)).unwrap(), 16000);
    assert!(expected.len() > 4000);
    let mut session = StreamingSession::new();
    let mut state = DenoiseState::new();
    let output = submit(&mut session, &mut state, pcm_bytes(&input), 16000);
    assert_eq!(output.len(), 2 * FRAME_SIZE * (expected.len() / FRAME_SIZE));
    assert_eq!(session.carryover()[..], expected[expected.len() / FRAME_SIZE * FRAME_SIZE..]);
}

#[test]
fn a_recording_through_the_suppressor_keeps_its_length() {
    let input = tone(2 * 1000);
    let recording = Recording { channels: 2, sample_rate: 48000, samples: input };
    let framed = match denoise(&recording).unwrap() {
        BatchStep::Denoise(framed) => framed,
        BatchStep::Resample { .. } => panic!("the recording has the target rate"),
    };
    let denoised: Vec<Vec<Frame>> = framed
        .frames
        .iter()
        .map(|frames| {
            let mut state = DenoiseState::new();
            frames.iter().map(|frame| suppress(&mut state, frame)).collect()
        })
        .collect();
    let output = assemble(&denoised, framed.samples_per_channel).unwrap();
    assert_eq!(output.channels, 2);
    assert_eq!(output.sample_rate, 48000);
    assert_eq!(output.samples.len(), 2000);
}

#[test]
fn a_recording_at_another_rate_is_resampled_channel_by_channel() {
    let input = tone(2 * 441);
    let recording = Recording { channels: 2, sample_rate: 44100, samples: input };
    let channels = match denoise(&recording).unwrap() {
        BatchStep::Resample { channels, source_rate } => {
            assert_eq!(source_rate, 44100);
            channels
        }
        BatchStep::Denoise(_) => panic!("the recording has another rate"),
    };
    let resampled: Vec<Vec<Sample>> =
        channels.iter().map(|channel| resample(channel, 44100)).collect();
    assert_eq!(resampled[0].len(), resampled[1].len());
    let framed = frame_channels(&resampled);
    assert_eq!(framed.samples_per_channel, resampled[0].len());
    let output = assemble(&framed.frames, framed.samples_per_channel).unwrap().samples;
    assert_eq!(output.len(), 2 * resampled[0].len());
    let left: Vec<i16> = output.iter().step_by(2).copied().collect();
    assert_eq!(pcm_bytes(&left), encode(&resampled[0]));
}
