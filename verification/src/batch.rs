//! Denoising a whole recording: the interleaved samples of a file are
//! split into channels, every channel is cut into frames, the last of
//! which is filled up with silence, and the denoised frames are cut back
//! to the length of the recording and interleaved again.
//!
//! Reading and writing the file, resampling, and the noise suppressor
//! itself, one for each channel, are the caller's part: a step names the
//! work, and the caller hands back its result.

use crate::error::DenoiseError;
use crate::frame::{views, window, Frame, FRAME_SIZE};
use crate::rate::TARGET_SAMPLE_RATE;
use crate::sample::{lemma_of_int_holds, Sample};
use vstd::arithmetic::div_mod::{
    lemma_fundamental_div_mod, lemma_fundamental_div_mod_converse,
};
use vstd::arithmetic::mul::lemma_mul_inequality;
use vstd::prelude::*;

verus! {

/// How many samples of an interleaved recording of `total` samples fall to
/// channel `channel`, where the samples go to the channels in turn.
pub open spec fn channel_len(total: nat, channels: nat, channel: nat) -> nat {
    if channel < total && channels > 0 {
        ((total - channel - 1) / channels as int + 1) as nat
    } else {
        0
    }
}

/// The channels of an interleaved recording: sample `k` goes to channel
/// `k % channels`, in the order in which the samples stand.
pub open spec fn deinterleaved(samples: Seq<i16>, channels: nat) -> Seq<Seq<Sample>> {
    Seq::new(
        channels,
        |c: int|
            Seq::new(
                channel_len(samples.len(), channels, c as nat),
                |i: int| Sample::of_int(samples[i * channels + c] as int),
            ),
    )
}

/// The length of a recording in samples for each channel: the length of
/// its first channel.
pub open spec fn recording_len(channels: Seq<Seq<Sample>>) -> nat {
    if channels.len() == 0 {
        0
    } else {
        channels[0].len()
    }
}

/// The number of frames that hold `len` samples, the last one maybe in part.
pub open spec fn frame_count(len: nat) -> nat {
    (len + FRAME_SIZE - 1) as nat / FRAME_SIZE as nat
}

/// The frames of one channel of a recording of `len` samples for each
/// channel. The last frame is filled up with silence, and so is a channel
/// that is shorter than the recording; of a channel that is longer, the
/// first `len` samples count.
pub open spec fn padded_frames(channel: Seq<Sample>, len: nat) -> Seq<Seq<Sample>> {
    Seq::new(frame_count(len), |f: int| window(channel, f * FRAME_SIZE, len as int))
}

/// The frames of every channel of a recording.
pub open spec fn channel_frames(channels: Seq<Seq<Sample>>) -> Seq<Seq<Seq<Sample>>> {
    Seq::new(channels.len(), |c: int| padded_frames(channels[c], recording_len(channels)))
}

/// The interleaved 16-bit recording made of the first `len` samples of
/// every channel's frames: sample `i` of channel `c` stands at
/// `i * channels + c`, limited to the 16-bit range and rounded toward zero.
pub open spec fn assembled(denoised: Seq<Seq<Seq<Sample>>>, len: nat) -> Seq<i16> {
    Seq::new(
        len * denoised.len(),
        |k: int|
            {
                let c = k % denoised.len() as int;
                let i = k / denoised.len() as int;
                denoised[c][i / FRAME_SIZE as int][i % FRAME_SIZE as int].pcm() as i16
            },
    )
}

/// The sample sequences of a row of channels.
pub open spec fn channel_views(channels: Seq<Vec<Sample>>) -> Seq<Seq<Sample>> {
    Seq::new(channels.len(), |c: int| channels[c]@)
}

/// The frames, as sample sequences, of a row of channels.
pub open spec fn frame_views(channels: Seq<Vec<Frame>>) -> Seq<Seq<Seq<Sample>>> {
    Seq::new(channels.len(), |c: int| views(channels[c]@))
}

/// A recording as a WAV file holds it: linear PCM of 16 bits, the samples of
/// the channels interleaved.
#[derive(Debug, PartialEq, Eq)]
pub struct Recording {
    /// The number of channels.
    pub channels: u16,
    /// The sample rate in hertz.
    pub sample_rate: u32,
    /// The samples: first one of every channel, then the next of every
    /// channel, and so on.
    pub samples: Vec<i16>,
}

/// A recording cut into frames, channel by channel.
#[derive(Debug, PartialEq, Eq)]
pub struct ChannelFrames {
    /// For each channel its frames, in order. Every channel has the same
    /// number of frames.
    pub frames: Vec<Vec<Frame>>,
    /// The length of the recording, in samples for each channel, before the
    /// last frame was filled up.
    pub samples_per_channel: usize,
}

/// What the caller is to do next with a recording.
#[derive(Debug, PartialEq, Eq)]
pub enum BatchStep {
    /// The recording has another rate than the target: resample every
    /// channel by itself from `source_rate` to the target rate and hand the
    /// channels to [`frame_channels`].
    Resample { channels: Vec<Vec<Sample>>, source_rate: u32 },
    /// Run every channel's frames, in order, through a noise suppressor of
    /// that channel's own, and hand the frames that come back to
    /// [`assemble`].
    Denoise(ChannelFrames),
}

/// Splits an interleaved recording into its channels.
pub fn deinterleave(samples: &Vec<i16>, channels: usize) -> (split: Vec<Vec<Sample>>)
    ensures
        channel_views(split@) == deinterleaved(samples@, channels as nat),
{
    let total: usize = samples.len();
    let mut split: Vec<Vec<Sample>> = Vec::new();
    let mut c: usize = 0;
    while c < channels
        invariant
            c <= channels,
            total == samples@.len(),
            split@.len() == c,
            forall|d: int|
                0 <= d < c ==> (#[trigger] split@[d])@ == deinterleaved(
                    samples@,
                    channels as nat,
                )[d],
        decreases channels - c,
    {
        let count: usize = if c < total {
            (total - c - 1) / channels + 1
        } else {
            0
        };
        let mut channel: Vec<Sample> = Vec::new();
        let mut i: usize = 0;
        while i < count
            invariant
                i <= count,
                c < channels,
                total == samples@.len(),
                count == channel_len(total as nat, channels as nat, c as nat),
                channel@.len() == i,
                forall|j: int|
                    0 <= j < i ==> channel@[j] == Sample::of_int(
                        samples@[j * channels + c] as int,
                    ),
            decreases count - i,
        {
            proof {
                lemma_channel_index(total as nat, channels as nat, c as nat, i as nat);
            }
            channel.push(Sample::from_pcm(samples[i * channels + c]));
            i += 1;
        }
        assert(channel@ =~= deinterleaved(samples@, channels as nat)[c as int]);
        split.push(channel);
        c += 1;
    }
    assert(channel_views(split@) =~= deinterleaved(samples@, channels as nat));
    split
}

/// Cuts every channel of a recording into frames. The recording is as long
/// as its first channel.
pub fn frame_channels(channels: &Vec<Vec<Sample>>) -> (framed: ChannelFrames)
    ensures
        frame_views(framed.frames@) == channel_frames(channel_views(channels@)),
        framed.samples_per_channel == recording_len(channel_views(channels@)),
{
    let len: usize = if channels.len() == 0 {
        0
    } else {
        channels[0].len()
    };
    let count: usize = if len % FRAME_SIZE == 0 {
        len / FRAME_SIZE
    } else {
        len / FRAME_SIZE + 1
    };
    let mut frames: Vec<Vec<Frame>> = Vec::new();
    let mut c: usize = 0;
    while c < channels.len()
        invariant
            c <= channels@.len(),
            len == recording_len(channel_views(channels@)),
            count == frame_count(len as nat),
            frames@.len() == c,
            forall|d: int|
                0 <= d < c ==> views((#[trigger] frames@[d])@) == padded_frames(
                    channels@[d]@,
                    len as nat,
                ),
        decreases channels@.len() - c,
    {
        let channel: &Vec<Sample> = &channels[c];
        let mut row: Vec<Frame> = Vec::new();
        let mut f: usize = 0;
        while f < count
            invariant
                f <= count,
                count == frame_count(len as nat),
                row@.len() == f,
                forall|g: int|
                    0 <= g < f ==> (#[trigger] row@[g])@ == window(
                        channel@,
                        g * FRAME_SIZE,
                        len as int,
                    ),
            decreases count - f,
        {
            row.push(Frame::cut(channel, f * FRAME_SIZE, len));
            f += 1;
        }
        assert(views(row@) =~= padded_frames(channel@, len as nat));
        frames.push(row);
        c += 1;
    }
    assert(frame_views(frames@) =~= channel_frames(channel_views(channels@)));
    ChannelFrames { frames, samples_per_channel: len }
}

/// Takes a recording for denoising.
///
/// A recording without samples is refused, and so is one that declares no
/// channel. A recording at another rate than the target comes back split
/// into channels, to be resampled; one at the target rate comes back cut
/// into frames.
pub fn denoise(recording: &Recording) -> (result: Result<BatchStep, DenoiseError>)
    ensures
        recording.samples@.len() == 0 ==> result == Err::<BatchStep, DenoiseError>(
            DenoiseError::EmptyInput,
        ),
        recording.samples@.len() > 0 && recording.channels == 0 ==> result == Err::<
            BatchStep,
            DenoiseError,
        >(DenoiseError::UnsupportedFormat),
        recording.samples@.len() > 0 && recording.channels > 0 && recording.sample_rate
            != TARGET_SAMPLE_RATE ==> (result matches Ok(
            BatchStep::Resample { channels, source_rate },
        ) && channel_views(channels@) == deinterleaved(
            recording.samples@,
            recording.channels as nat,
        ) && source_rate == recording.sample_rate),
        recording.samples@.len() > 0 && recording.channels > 0 && recording.sample_rate
            == TARGET_SAMPLE_RATE ==> (result matches Ok(BatchStep::Denoise(framed))
            && frame_views(framed.frames@) == channel_frames(
            deinterleaved(recording.samples@, recording.channels as nat),
        ) && framed.samples_per_channel == recording_len(
            deinterleaved(recording.samples@, recording.channels as nat),
        )),
{
    if recording.samples.len() == 0 {
        return Err(DenoiseError::EmptyInput);
    }
    if recording.channels == 0 {
        return Err(DenoiseError::UnsupportedFormat);
    }
    let channels = deinterleave(&recording.samples, recording.channels as usize);
    if recording.sample_rate != TARGET_SAMPLE_RATE {
        Ok(BatchStep::Resample { channels, source_rate: recording.sample_rate })
    } else {
        Ok(BatchStep::Denoise(frame_channels(&channels)))
    }
}

/// A denoised recording can be put together: every channel comes with
/// exactly the frames that a recording of `len` samples for each channel is
/// cut into, and the channels and the interleaved samples can be counted.
pub open spec fn fits(denoised: Seq<Seq<Seq<Sample>>>, len: nat) -> bool {
    &&& denoised.len() <= u16::MAX
    &&& len * denoised.len() <= usize::MAX
    &&& forall|c: int| 0 <= c < denoised.len() ==> (#[trigger] denoised[c]).len() == frame_count(len)
}

/// Puts a denoised recording together: of every channel's frames the
/// first `samples_per_channel` samples, interleaved, each limited to the
/// 16-bit range and rounded toward zero. The recording has the target rate
/// and a channel for every channel that was denoised.
///
/// The noise suppressor gives one frame for each frame it takes, so every
/// channel is to come with as many frames as the recording was cut into;
/// where one does not, or where the recording would have more channels or
/// samples than can be counted, there is no recording.
pub fn assemble(denoised: &Vec<Vec<Frame>>, samples_per_channel: usize) -> (recording: Option<
    Recording,
>)
    ensures
        fits(frame_views(denoised@), samples_per_channel as nat) ==> recording is Some
            && recording->0.channels == denoised@.len() && recording->0.sample_rate
            == TARGET_SAMPLE_RATE && recording->0.samples@ == assembled(
            frame_views(denoised@),
            samples_per_channel as nat,
        ),
        !fits(frame_views(denoised@), samples_per_channel as nat) ==> recording is None,
{
    let count: usize = if samples_per_channel % FRAME_SIZE == 0 {
        samples_per_channel / FRAME_SIZE
    } else {
        samples_per_channel / FRAME_SIZE + 1
    };
    if denoised.len() > 65535 {
        return None;
    }
    if samples_per_channel.checked_mul(denoised.len()).is_none() {
        return None;
    }
    let mut c: usize = 0;
    while c < denoised.len()
        invariant
            c <= denoised@.len(),
            count == frame_count(samples_per_channel as nat),
            forall|d: int| 0 <= d < c ==> (#[trigger] denoised@[d])@.len() == count,
        decreases denoised@.len() - c,
    {
        if denoised[c].len() != count {
            proof {
                assert(frame_views(denoised@)[c as int].len() == denoised@[c as int]@.len());
            }
            return None;
        }
        c += 1;
    }
    proof {
        assert forall|d: int| 0 <= d < denoised@.len() implies (#[trigger] frame_views(
            denoised@,
        )[d]).len() == count by {
            assert(denoised@[d]@.len() == count);
        }
    }
    Some(
        Recording {
            channels: denoised.len() as u16,
            sample_rate: TARGET_SAMPLE_RATE,
            samples: interleave(denoised, samples_per_channel),
        },
    )
}

/// Interleaves the first `samples_per_channel` samples of every channel's
/// frames, as 16-bit PCM.
fn interleave(denoised: &Vec<Vec<Frame>>, samples_per_channel: usize) -> (samples: Vec<i16>)
    requires
        samples_per_channel * denoised@.len() <= usize::MAX,
        forall|c: int|
            0 <= c < denoised@.len() ==> (#[trigger] denoised@[c])@.len() == frame_count(
                samples_per_channel as nat,
            ),
    ensures
        samples@ == assembled(frame_views(denoised@), samples_per_channel as nat),
{
    let channels: usize = denoised.len();
    let ghost goal = assembled(frame_views(denoised@), samples_per_channel as nat);
    let mut samples: Vec<i16> = Vec::new();
    let mut i: usize = 0;
    while i < samples_per_channel
        invariant
            i <= samples_per_channel,
            channels == denoised@.len(),
            samples_per_channel * channels <= usize::MAX,
            goal == assembled(frame_views(denoised@), samples_per_channel as nat),
            forall|c: int|
                0 <= c < denoised@.len() ==> (#[trigger] denoised@[c])@.len() == frame_count(
                    samples_per_channel as nat,
                ),
            samples@.len() == i * channels,
            forall|k: int| 0 <= k < i * channels ==> samples@[k] == goal[k],
        decreases samples_per_channel - i,
    {
        let mut c: usize = 0;
        while c < channels
            invariant
                i < samples_per_channel,
                c <= channels,
                channels == denoised@.len(),
                samples_per_channel * channels <= usize::MAX,
                goal == assembled(frame_views(denoised@), samples_per_channel as nat),
                forall|d: int|
                    0 <= d < denoised@.len() ==> (#[trigger] denoised@[d])@.len() == frame_count(
                        samples_per_channel as nat,
                    ),
                samples@.len() == i * channels + c,
                forall|k: int| 0 <= k < i * channels + c ==> samples@[k] == goal[k],
            decreases channels - c,
        {
            proof {
                lemma_interleaved_index(
                    samples_per_channel as nat,
                    channels as nat,
                    i as nat,
                    c as nat,
                );
            }
            let frame: &Vec<Sample> = denoised[c][i / FRAME_SIZE].samples();
            samples.push(frame[i % FRAME_SIZE].to_pcm());
            c += 1;
        }
        proof {
            assert(i * channels + channels == (i + 1) * channels) by (nonlinear_arith);
        }
        i += 1;
    }
    assert(samples@ =~= goal);
    samples
}

/// Filling up the last frame costs no sample and adds none. However many
/// samples a recording has for each channel, a multiple of the frame size
/// or not, its frames hold them all, with less than a frame to spare, and
/// what is put together from the denoised frames has exactly that many
/// samples for each channel.
pub proof fn lemma_recording_keeps_length(denoised: Seq<Seq<Seq<Sample>>>, len: nat)
    ensures
        assembled(denoised, len).len() == len * denoised.len(),
        len <= frame_count(len) * FRAME_SIZE < len + FRAME_SIZE,
        len % FRAME_SIZE as nat != 0 ==> frame_count(len) == len / FRAME_SIZE as nat + 1,
{
}

/// Cutting into frames and putting together again are inverse to each
/// other: where the frames come back as they were handed out, a recording
/// of whole inter-channel samples comes back sample for sample.
pub proof fn lemma_frames_keep_recording(samples: Seq<i16>, channels: nat)
    requires
        channels > 0,
        samples.len() % channels == 0,
    ensures
        assembled(
            channel_frames(deinterleaved(samples, channels)),
            recording_len(deinterleaved(samples, channels)),
        ) == samples,
{
    let split = deinterleaved(samples, channels);
    let len = recording_len(split);
    let each = samples.len() / channels;
    lemma_fundamental_div_mod(samples.len() as int, channels as int);
    assert(samples.len() == each * channels) by (nonlinear_arith)
        requires
            samples.len() == channels * each + 0,
    ;
    assert forall|c: nat| c < channels implies channel_len(samples.len(), channels, c)
        == each by {
        if each == 0 {
            assert(samples.len() == 0) by (nonlinear_arith)
                requires
                    samples.len() == each * channels,
                    each == 0,
            ;
        } else {
            assert(samples.len() >= channels) by (nonlinear_arith)
                requires
                    samples.len() == each * channels,
                    each >= 1,
            ;
            assert(samples.len() - c - 1 == (each - 1) * channels + (channels - 1 - c))
                by (nonlinear_arith)
                requires
                    samples.len() == each * channels,
            ;
            lemma_fundamental_div_mod_converse(
                samples.len() - c - 1,
                channels as int,
                each - 1,
                channels - 1 - c,
            );
        }
    }
    assert(len == each);
    let whole = assembled(channel_frames(split), len);
    assert forall|k: int| 0 <= k < samples.len() implies whole[k] == samples[k] by {
        let c = k % channels as int;
        let i = k / channels as int;
        lemma_fundamental_div_mod(k, channels as int);
        assert(k == i * channels + c) by (nonlinear_arith)
            requires
                k == channels * i + c,
        ;
        assert(i < each) by (nonlinear_arith)
            requires
                i * channels + c < each * channels,
                0 <= c,
                channels > 0,
        ;
        assert(channel_len(samples.len(), channels, c as nat) == each);
        let f = i / FRAME_SIZE as int;
        assert(channel_frames(split)[c][f][i % FRAME_SIZE as int] == split[c][i]);
        lemma_of_int_holds(samples[k] as int);
        split[c][i].lemma_pcm_of_held(samples[k] as int);
    }
    assert(whole =~= samples);
}

/// The `i`-th sample of a channel stands within the recording.
proof fn lemma_channel_index(total: nat, channels: nat, channel: nat, i: nat)
    requires
        channel < channels,
        i < channel_len(total, channels, channel),
    ensures
        i * channels + channel < total,
{
    let room = (total - channel - 1) as int;
    lemma_fundamental_div_mod(room, channels as int);
    lemma_mul_inequality(i as int, room / channels as int, channels as int);
    assert(channels * (room / channels as int) == (room / channels as int) * channels)
        by (nonlinear_arith);
}

/// Place `i * channels + c` of an interleaved recording belongs to sample
/// `i` of channel `c`, and lies within the recording.
proof fn lemma_interleaved_index(len: nat, channels: nat, i: nat, c: nat)
    requires
        i < len,
        c < channels,
    ensures
        i * channels + c < len * channels,
        (i * channels + c) as int / channels as int == i,
        (i * channels + c) as int % channels as int == c,
{
    lemma_fundamental_div_mod_converse((i * channels + c) as int, channels as int, i as int, c as int);
    assert(i * channels + c < len * channels) by (nonlinear_arith)
        requires
            i < len,
            c < channels,
    ;
    assert(i * channels == channels * i) by (nonlinear_arith);
}

} // verus!
