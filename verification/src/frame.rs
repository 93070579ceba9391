//! Frames: the fixed-length blocks of samples that the noise suppressor
//! takes and gives, one for one.

use crate::sample::Sample;
use vstd::prelude::*;

verus! {

/// The number of samples in a frame.
pub const FRAME_SIZE: usize = 480;

/// Exactly `FRAME_SIZE` samples of one channel.
#[derive(Debug, PartialEq, Eq)]
pub struct Frame {
    samples: Vec<Sample>,
}

impl View for Frame {
    type V = Seq<Sample>;

    closed spec fn view(&self) -> Seq<Sample> {
        self.samples@
    }
}

/// The frame-long stretch of `stream` that begins at `start`, with silence
/// in place of every sample at or after `end` and of every sample that the
/// stream does not have.
pub open spec fn window(stream: Seq<Sample>, start: int, end: int) -> Seq<Sample> {
    Seq::new(
        FRAME_SIZE as nat,
        |j: int|
            if start + j < end && start + j < stream.len() {
                stream[start + j]
            } else {
                Sample::of_int(0)
            },
    )
}

/// The sample sequences of a row of frames.
pub open spec fn views(frames: Seq<Frame>) -> Seq<Seq<Sample>> {
    Seq::new(frames.len(), |i: int| frames[i]@)
}

/// Frames laid end to end.
pub open spec fn joined(frames: Seq<Seq<Sample>>) -> Seq<Sample> {
    Seq::new(
        frames.len() * FRAME_SIZE as nat,
        |i: int| frames[i / FRAME_SIZE as int][i % FRAME_SIZE as int],
    )
}

impl Frame {
    #[verifier::type_invariant]
    spec fn full(self) -> bool {
        self.samples@.len() == FRAME_SIZE
    }

    /// Makes a frame of exactly `FRAME_SIZE` samples; any other number is
    /// no frame.
    pub fn from_samples(samples: Vec<Sample>) -> (frame: Option<Frame>)
        ensures
            samples@.len() == FRAME_SIZE ==> frame is Some && frame->0@ == samples@,
            samples@.len() != FRAME_SIZE ==> frame is None,
    {
        if samples.len() == FRAME_SIZE {
            Some(Frame { samples })
        } else {
            None
        }
    }

    /// The samples of the frame.
    pub fn samples(&self) -> (samples: &Vec<Sample>)
        ensures
            samples@ == self@,
            samples@.len() == FRAME_SIZE,
    {
        proof {
            use_type_invariant(self);
        }
        &self.samples
    }

    /// Cuts the frame that begins at `start` out of a stream. Where the
    /// stream runs out, or `end` is reached, before the frame is full, the
    /// rest of the frame is silence.
    pub fn cut(stream: &Vec<Sample>, start: usize, end: usize) -> (frame: Frame)
        ensures
            frame@ == window(stream@, start as int, end as int),
    {
        let bound: usize = if end < stream.len() {
            end
        } else {
            stream.len()
        };
        let available: usize = if start < bound {
            bound - start
        } else {
            0
        };
        let mut samples: Vec<Sample> = Vec::new();
        let mut j: usize = 0;
        while j < FRAME_SIZE
            invariant
                j <= FRAME_SIZE,
                samples@.len() == j,
                bound <= stream@.len(),
                bound <= end,
                bound == end || bound == stream@.len(),
                available == (if start < bound {
                    bound - start
                } else {
                    0
                }),
                forall|k: int|
                    0 <= k < j ==> samples@[k] == window(stream@, start as int, end as int)[k],
            decreases FRAME_SIZE - j,
        {
            if j < available {
                samples.push(stream[start + j]);
            } else {
                samples.push(Sample::silence());
            }
            j += 1;
        }
        assert(samples@ =~= window(stream@, start as int, end as int));
        Frame { samples }
    }
}

} // verus!
