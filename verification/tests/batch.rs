use speech_denoise::batch::{
    assemble, deinterleave, denoise, frame_channels, BatchStep, ChannelFrames, Recording,
};
use speech_denoise::error::DenoiseError;
use speech_denoise::frame::Frame;
use speech_denoise::sample::Sample;

fn widened(samples: &[i16]) -> Vec<Sample> {
    samples.iter().map(|x| Sample::from_pcm(*x)).collect()
}

fn recording(count: usize) -> Vec<i16> {
    (0..count).map(|i| ((i * 37) % 65536) as u16 as i16).collect()
}

fn take(channels: u16, sample_rate: u32, samples: &[i16]) -> Result<BatchStep, DenoiseError> {
    denoise(&Recording { channels, sample_rate, samples: samples.to_vec() })
}

fn framed(step: BatchStep) -> ChannelFrames {
    match step {
        BatchStep::Denoise(framed) => framed,
        BatchStep::Resample { .. } => panic!("no resampling was expected"),
    }
}

#[test]
fn an_empty_recording_is_refused() {
    assert_eq!(take(2, 48000, &Vec::new()), Err(DenoiseError::EmptyInput));
    assert_eq!(take(1, 44100, &Vec::new()), Err(DenoiseError::EmptyInput));
    assert_eq!(take(0, 48000, &Vec::new()), Err(DenoiseError::EmptyInput));
}

#[test]
fn a_recording_without_channels_is_refused() {
    assert_eq!(take(0, 48000, &vec![1, 2, 3]), Err(DenoiseError::UnsupportedFormat));
    assert_eq!(take(0, 8000, &vec![1]), Err(DenoiseError::UnsupportedFormat));
}

#[test]
fn deinterleaving_deals_the_samples_out_in_turn() {
    let split = deinterleave(&vec![1, -1, 2, -2, 3, -3], 2);
    assert_eq!(split, vec![widened(&[1, 2, 3]), widened(&[-1, -2, -3])]);
    let split = deinterleave(&vec![10, 20, 30, 40, 50, 60, 70], 3);
    assert_eq!(split, vec![widened(&[10, 40, 70]), widened(&[20, 50]), widened(&[30, 60])]);
    let split = deinterleave(&vec![5, 6], 4);
    assert_eq!(split, vec![widened(&[5]), widened(&[6]), Vec::new(), Vec::new()]);
    assert_eq!(deinterleave(&vec![5, 6], 0), Vec::<Vec<Sample>>::new());
    assert_eq!(deinterleave(&vec![5, 6], 1), vec![widened(&[5, 6])]);
}

#[test]
fn a_recording_at_another_rate_is_handed_out_for_resampling() {
    let step = take(2, 44100, &vec![1, -1, 2, -2]).unwrap();
    assert_eq!(
        step,
        BatchStep::Resample {
            channels: vec![widened(&[1, 2]), widened(&[-1, -2])],
            source_rate: 44100
        }
    );
}

#[test]
fn the_last_frame_is_filled_up_with_silence() {
    let samples = recording(2 * 1000);
    let framed = framed(take(2, 48000, &samples).unwrap());
    assert_eq!(framed.samples_per_channel, 1000);
    assert_eq!(framed.frames.len(), 2);
    let split = deinterleave(&samples, 2);
    for c in 0..2 {
        assert_eq!(framed.frames[c].len(), 3);
        assert_eq!(framed.frames[c][0].samples()[..], split[c][..480]);
        assert_eq!(framed.frames[c][1].samples()[..], split[c][480..960]);
        assert_eq!(framed.frames[c][2].samples()[..40], split[c][960..]);
        assert_eq!(framed.frames[c][2].samples()[40..], vec![Sample::silence(); 440][..]);
    }
}

#[test]
fn a_recording_of_whole_frames_needs_no_filling() {
    let samples = recording(960);
    let framed = framed(take(1, 48000, &samples).unwrap());
    assert_eq!(framed.samples_per_channel, 960);
    assert_eq!(framed.frames.len(), 1);
    assert_eq!(framed.frames[0].len(), 2);
}

#[test]
fn no_sample_is_lost_to_the_filling() {
    for (channels, each) in [(1usize, 1usize), (1, 479), (1, 480), (1, 481), (2, 1000), (3, 961), (6, 7)] {
        let samples = recording(channels * each);
        let framed = framed(take(channels as u16, 48000, &samples).unwrap());
        assert_eq!(framed.samples_per_channel, each);
        let output = assemble(&framed.frames, framed.samples_per_channel).unwrap();
        assert_eq!(output.samples.len(), channels * each);
        assert_eq!(
            output,
            Recording { channels: channels as u16, sample_rate: 48000, samples }
        );
    }
}

#[test]
fn framing_after_resampling_goes_by_the_first_channel() {
    let channels = vec![widened(&recording(500)), widened(&recording(300)), widened(&recording(700))];
    let framed = frame_channels(&channels);
    assert_eq!(framed.samples_per_channel, 500);
    assert_eq!(framed.frames.len(), 3);
    for c in 0..3 {
        assert_eq!(framed.frames[c].len(), 2);
    }
    assert_eq!(framed.frames[1][0].samples()[..300], channels[1][..]);
    assert_eq!(framed.frames[1][0].samples()[300..], vec![Sample::silence(); 180][..]);
    assert_eq!(framed.frames[1][1].samples(), &vec![Sample::silence(); 480]);
    assert_eq!(framed.frames[2][1].samples()[..20], channels[2][480..500]);
    assert_eq!(framed.frames[2][1].samples()[20..], vec![Sample::silence(); 460][..]);
    let output = assemble(&framed.frames, framed.samples_per_channel).unwrap().samples;
    assert_eq!(output.len(), 1500);
    assert_eq!(output[0], recording(1)[0]);
    assert_eq!(output[3 * 299 + 1], recording(300)[299]);
    assert_eq!(output[3 * 300 + 1], 0);
    assert_eq!(output[3 * 499 + 2], recording(500)[499]);
}

#[test]
fn no_channels_make_no_frames() {
    let framed = frame_channels(&Vec::new());
    assert_eq!(framed.samples_per_channel, 0);
    assert!(framed.frames.is_empty());
    assert_eq!(
        assemble(&framed.frames, 0),
        Some(Recording { channels: 0, sample_rate: 48000, samples: Vec::new() })
    );
}

#[test]
fn assembling_interleaves_and_clips() {
    let left = Frame::from_samples(vec![Sample { bits: 40000.0f32.to_bits() }; 480]).unwrap();
    let right = Frame::from_samples(vec![Sample { bits: (-40000.5f32).to_bits() }; 480]).unwrap();
    let output = assemble(&vec![vec![left], vec![right]], 3).unwrap();
    assert_eq!(
        output,
        Recording {
            channels: 2,
            sample_rate: 48000,
            samples: vec![32767, -32768, 32767, -32768, 32767, -32768]
        }
    );
}

#[test]
fn assembling_wants_a_frame_for_every_frame() {
    let frame = || Frame::from_samples(vec![Sample::silence(); 480]).unwrap();
    assert_eq!(assemble(&vec![vec![frame()], vec![]], 3), None);
    assert_eq!(assemble(&vec![vec![frame(), frame()]], 480), None);
    assert_eq!(assemble(&vec![vec![frame()]], 481), None);
    assert_eq!(assemble(&vec![vec![frame()]], 0), None);
    assert_eq!(assemble(&vec![vec![], vec![]], usize::MAX), None);
    assert_eq!(
        assemble(&vec![vec![frame()]], 480),
        Some(Recording { channels: 1, sample_rate: 48000, samples: vec![0i16; 480] })
    );
    assert_eq!(
        assemble(&vec![vec![], vec![], vec![]], 0),
        Some(Recording { channels: 3, sample_rate: 48000, samples: Vec::new() })
    );
    let mut many: Vec<Vec<Frame>> = (0..65536).map(|_| Vec::new()).collect();
    assert_eq!(assemble(&many, 0), None);
    many.pop();
    assert_eq!(assemble(&many, 0).map(|recording| recording.channels), Some(65535));
}
