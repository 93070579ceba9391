//! Denoising a live stream: chunks of any size come in, whole frames go
//! out, and what does not fill a frame waits for the next chunk.
//!
//! The session keeps the carryover and decides what is to be done with a
//! chunk. Resampling and noise suppression themselves are floating-point
//! work that the caller does: a step names the work, and the caller hands
//! back its result.

use crate::codec::{decode, decoded, encode, encoded};
use crate::error::DenoiseError;
use crate::frame::{joined, views, window, Frame, FRAME_SIZE};
use crate::rate::{convert, Conversion, TARGET_SAMPLE_RATE};
use crate::sample::Sample;
use vstd::prelude::*;

verus! {

/// The whole frames at the head of a stream, in order.
pub open spec fn complete_frames(stream: Seq<Sample>) -> Seq<Seq<Sample>> {
    Seq::new(
        stream.len() / FRAME_SIZE as nat,
        |i: int| stream.subrange(i * FRAME_SIZE, (i + 1) * FRAME_SIZE),
    )
}

/// What is left of a stream after its whole frames: fewer samples than a
/// frame has.
pub open spec fn leftover(stream: Seq<Sample>) -> Seq<Sample> {
    stream.subrange((stream.len() / FRAME_SIZE as nat) * FRAME_SIZE, stream.len() as int)
}

/// The samples of a run of chunks, in the order of their arrival.
pub open spec fn stream_of(chunks: Seq<Seq<Sample>>) -> Seq<Sample>
    decreases chunks.len(),
{
    if chunks.len() == 0 {
        Seq::empty()
    } else {
        chunks[0] + stream_of(chunks.drop_first())
    }
}

/// The frames that a session hands out, call after call, while it takes a
/// run of chunks at the target rate, beginning with `carryover`.
pub open spec fn frames_through(carryover: Seq<Sample>, chunks: Seq<Seq<Sample>>) -> Seq<
    Seq<Sample>,
>
    decreases chunks.len(),
{
    if chunks.len() == 0 {
        Seq::empty()
    } else {
        complete_frames(carryover + chunks[0]) + frames_through(
            leftover(carryover + chunks[0]),
            chunks.drop_first(),
        )
    }
}

/// What a session carries over after a run of chunks at the target rate,
/// beginning with `carryover`.
pub open spec fn carryover_through(carryover: Seq<Sample>, chunks: Seq<Seq<Sample>>) -> Seq<
    Sample,
>
    decreases chunks.len(),
{
    if chunks.len() == 0 {
        carryover
    } else {
        carryover_through(leftover(carryover + chunks[0]), chunks.drop_first())
    }
}

/// The state of one audio stream between chunks: the samples, already at
/// the target rate, that have not yet filled a frame.
///
/// A session belongs to one stream. The noise suppressor that goes with it
/// adapts to what it has heard, so it belongs to the same stream and sees
/// the frames in the order in which they are handed out.
#[derive(Debug)]
pub struct StreamingSession {
    carryover: Vec<Sample>,
}

impl View for StreamingSession {
    type V = Seq<Sample>;

    closed spec fn view(&self) -> Seq<Sample> {
        self.carryover@
    }
}

/// What the caller is to do next with a chunk.
#[derive(Debug, PartialEq, Eq)]
pub enum ChunkStep {
    /// The chunk has another rate than the target: resample `samples` from
    /// `source_rate` to the target rate and hand the result to
    /// [`StreamingSession::resampled`].
    Resample { samples: Vec<Sample>, source_rate: u32 },
    /// Run these frames through the noise suppressor, in this order, and
    /// hand its frames to [`encode_frames`]. There may be none.
    Denoise { frames: Vec<Frame> },
}

/// Appends copies of the samples of `source` to `target`.
fn append(target: &mut Vec<Sample>, source: &Vec<Sample>)
    ensures
        final(target)@ == old(target)@ + source@,
{
    let mut i: usize = 0;
    while i < source.len()
        invariant
            i <= source@.len(),
            target@ == old(target)@ + source@.subrange(0, i as int),
        decreases source@.len() - i,
    {
        target.push(source[i]);
        i += 1;
        assert(target@ =~= old(target)@ + source@.subrange(0, i as int));
    }
    assert(source@.subrange(0, source@.len() as int) =~= source@);
}

impl StreamingSession {
    #[verifier::type_invariant]
    spec fn drained(self) -> bool {
        self.carryover@.len() < FRAME_SIZE
    }

    /// A session for a new stream: nothing is carried over yet.
    pub fn new() -> (session: StreamingSession)
        ensures
            session@ == Seq::<Sample>::empty(),
    {
        StreamingSession { carryover: Vec::new() }
    }

    /// The samples carried over to the next chunk. They never fill a frame.
    pub fn carryover(&self) -> (samples: &Vec<Sample>)
        ensures
            samples@ == self@,
            samples@.len() < FRAME_SIZE,
    {
        proof {
            use_type_invariant(self);
        }
        &self.carryover
    }

    /// Takes samples at the target rate into the stream. They go behind
    /// the carryover; every whole frame that the two make together is
    /// handed out, in order; the rest is the new carryover.
    pub fn resampled(&mut self, samples: &Vec<Sample>) -> (frames: Vec<Frame>)
        ensures
            views(frames@) == complete_frames(old(self)@ + samples@),
            final(self)@ == leftover(old(self)@ + samples@),
    {
        proof {
            use_type_invariant(&*self);
        }
        let mut stream: Vec<Sample> = Vec::new();
        append(&mut stream, &self.carryover);
        append(&mut stream, samples);
        assert(stream@ =~= self@ + samples@);
        let count: usize = stream.len() / FRAME_SIZE;
        let mut frames: Vec<Frame> = Vec::new();
        let mut i: usize = 0;
        while i < count
            invariant
                i <= count,
                count == stream@.len() / FRAME_SIZE as nat,
                stream@.len() <= usize::MAX,
                frames@.len() == i,
                forall|k: int| 0 <= k < i ==> frames@[k]@ == complete_frames(stream@)[k],
            decreases count - i,
        {
            let frame = Frame::cut(&stream, i * FRAME_SIZE, stream.len());
            proof {
                lemma_window_within(stream@, i as int);
            }
            frames.push(frame);
            i += 1;
        }
        let mut rest: Vec<Sample> = Vec::new();
        let mut j: usize = count * FRAME_SIZE;
        while j < stream.len()
            invariant
                count == stream@.len() / FRAME_SIZE as nat,
                count * FRAME_SIZE <= j <= stream@.len(),
                rest@ == stream@.subrange(count * FRAME_SIZE, j as int),
            decreases stream@.len() - j,
        {
            rest.push(stream[j]);
            j += 1;
            assert(rest@ =~= stream@.subrange(count * FRAME_SIZE, j as int));
        }
        assert(views(frames@) =~= complete_frames(stream@));
        self.carryover = rest;
        frames
    }
}

/// Takes one chunk of a stream: raw little-endian 16-bit mono PCM at
/// `input_sample_rate`.
///
/// A chunk of odd length is refused and changes nothing. A chunk at
/// another rate than the target comes back decoded, to be resampled; the
/// session waits for [`StreamingSession::resampled`]. A chunk at the target
/// rate goes into the stream at once, as `resampled` describes.
pub fn denoise_chunk(session: &mut StreamingSession, input: Vec<u8>, input_sample_rate: u32) -> (result:
    Result<ChunkStep, DenoiseError>)
    ensures
        input@.len() % 2 != 0 ==> result == Err::<ChunkStep, DenoiseError>(
            DenoiseError::MalformedInput,
        ),
        input@.len() % 2 == 0 && input_sample_rate != TARGET_SAMPLE_RATE ==> (result matches Ok(
            ChunkStep::Resample { samples, source_rate },
        ) && samples@ == decoded(input@) && source_rate == input_sample_rate),
        input@.len() % 2 == 0 && input_sample_rate == TARGET_SAMPLE_RATE ==> (result matches Ok(
            ChunkStep::Denoise { frames },
        ) && views(frames@) == complete_frames(old(session)@ + decoded(input@))),
        final(session)@ == (if input@.len() % 2 == 0 && input_sample_rate == TARGET_SAMPLE_RATE {
            leftover(old(session)@ + decoded(input@))
        } else {
            old(session)@
        }),
{
    match decode(&input) {
        Err(error) => Err(error),
        Ok(samples) => match convert(samples, input_sample_rate, TARGET_SAMPLE_RATE) {
            Conversion::Resample { samples, source_rate, target_rate: _ } => Ok(
                ChunkStep::Resample { samples, source_rate },
            ),
            Conversion::Unchanged { samples } => {
                let frames = session.resampled(&samples);
                Ok(ChunkStep::Denoise { frames })
            },
        },
    }
}

/// Encodes the frames that the noise suppressor gave for a chunk: the
/// bytes of the chunk's output, frame after frame.
pub fn encode_frames(denoised: &Vec<Frame>) -> (bytes: Vec<u8>)
    ensures
        bytes@ == encoded(joined(views(denoised@))),
{
    let mut samples: Vec<Sample> = Vec::new();
    let mut i: usize = 0;
    while i < denoised.len()
        invariant
            i <= denoised@.len(),
            samples@ == joined(views(denoised@).subrange(0, i as int)),
        decreases denoised@.len() - i,
    {
        let frame: &Vec<Sample> = denoised[i].samples();
        let ghost before = samples@;
        append(&mut samples, frame);
        i += 1;
        assert(samples@ =~= joined(views(denoised@).subrange(0, i as int))) by {
            let head = views(denoised@).subrange(0, i - 1);
            let grown = views(denoised@).subrange(0, i as int);
            assert(before == joined(head));
            assert forall|k: int| 0 <= k < samples@.len() implies samples@[k] == joined(grown)[k] by {
                if k < (i - 1) * FRAME_SIZE {
                    assert(grown[k / FRAME_SIZE as int] == head[k / FRAME_SIZE as int]);
                } else {
                    assert(k / FRAME_SIZE as int == i - 1);
                    assert(grown[i - 1] == denoised@[i - 1]@);
                }
            }
        }
    }
    assert(views(denoised@).subrange(0, i as int) =~= views(denoised@));
    encode(&samples)
}

/// Within a stream, the window on one of its whole frames is that frame.
proof fn lemma_window_within(stream: Seq<Sample>, i: int)
    requires
        0 <= i < stream.len() / FRAME_SIZE as nat,
    ensures
        window(stream, i * FRAME_SIZE, stream.len() as int) == complete_frames(stream)[i],
{
    assert(window(stream, i * FRAME_SIZE, stream.len() as int) =~= stream.subrange(
        i * FRAME_SIZE,
        (i + 1) * FRAME_SIZE,
    ));
}

/// Framing loses nothing and invents nothing: the whole frames of a
/// stream, laid end to end and followed by what is left over, are the
/// stream; and what is left over is less than a frame.
pub proof fn lemma_frames_keep_stream(stream: Seq<Sample>)
    ensures
        joined(complete_frames(stream)) + leftover(stream) == stream,
        leftover(stream).len() < FRAME_SIZE,
        forall|i: int|
            0 <= i < complete_frames(stream).len() ==> (#[trigger] complete_frames(stream)[i]).len()
                == FRAME_SIZE,
{
    assert(joined(complete_frames(stream)) + leftover(stream) =~= stream);
}

/// A stream of exactly `count` frames' worth of samples, taken into a
/// session that carries nothing over, is handed out as exactly `count`
/// frames and leaves nothing behind; and the `count` frames that the noise
/// suppressor gives for them encode to `count` frames' worth of bytes.
pub proof fn lemma_aligned_chunk(stream: Seq<Sample>, count: nat, denoised: Seq<Frame>)
    requires
        stream.len() == count * FRAME_SIZE,
        denoised.len() == count,
    ensures
        complete_frames(Seq::<Sample>::empty() + stream).len() == count,
        leftover(Seq::<Sample>::empty() + stream) == Seq::<Sample>::empty(),
        encoded(joined(views(denoised))).len() == 2 * (count * FRAME_SIZE),
{
    assert(Seq::<Sample>::empty() + stream =~= stream);
    assert(leftover(stream) =~= Seq::<Sample>::empty());
}

/// Chunk boundaries do not matter. Taking `first` and then `second` into a
/// session hands out, call after call, the same frames in the same order
/// as taking the two as one chunk, and leaves the same carryover: no
/// sample is dropped, repeated or moved.
pub proof fn lemma_chunks_split(carryover: Seq<Sample>, first: Seq<Sample>, second: Seq<Sample>)
    ensures
        complete_frames(carryover + first) + complete_frames(
            leftover(carryover + first) + second,
        ) == complete_frames(carryover + (first + second)),
        leftover(leftover(carryover + first) + second) == leftover(
            carryover + (first + second),
        ),
{
    let early = carryover + first;
    let late = leftover(early) + second;
    let whole = carryover + (first + second);
    let head = early.len() / FRAME_SIZE as nat;
    let tail = late.len() / FRAME_SIZE as nat;
    assert(whole.len() == head * FRAME_SIZE + late.len());
    assert(whole.len() / FRAME_SIZE as nat == head + tail);
    assert forall|k: int| 0 <= k < late.len() implies late[k] == whole[head * FRAME_SIZE + k] by {}
    let split = complete_frames(early) + complete_frames(late);
    assert forall|i: int| 0 <= i < head + tail implies split[i] == complete_frames(whole)[i] by {
        if i < head {
            assert(early.subrange(i * FRAME_SIZE, (i + 1) * FRAME_SIZE) =~= whole.subrange(
                i * FRAME_SIZE,
                (i + 1) * FRAME_SIZE,
            ));
        } else {
            let m = i - head;
            assert(split[i] == complete_frames(late)[m]);
            assert(late.subrange(m * FRAME_SIZE, (m + 1) * FRAME_SIZE) =~= whole.subrange(
                i * FRAME_SIZE,
                (i + 1) * FRAME_SIZE,
            ));
        }
    }
    assert(split =~= complete_frames(whole));
    assert(leftover(late) =~= leftover(whole));
}

/// The output of two calls, one after the other, is the output of one call
/// on the frames of both: encoding goes frame by frame.
pub proof fn lemma_output_joins(first: Seq<Seq<Sample>>, second: Seq<Seq<Sample>>)
    ensures
        encoded(joined(first)) + encoded(joined(second)) == encoded(joined(first + second)),
{
    let both = first + second;
    let head = first.len() * FRAME_SIZE;
    assert forall|i: int| 0 <= i < joined(both).len() implies joined(both)[i] == (joined(first)
        + joined(second))[i] by {
        if i >= head {
            assert(i / FRAME_SIZE as int - first.len() == (i - head) / FRAME_SIZE as int);
            assert(both[i / FRAME_SIZE as int] == second[(i - head) / FRAME_SIZE as int]);
        }
    }
    assert(joined(both) =~= joined(first) + joined(second));
    assert(encoded(joined(first) + joined(second)) =~= encoded(joined(first)) + encoded(
        joined(second),
    ));
}

/// However a stream is cut into chunks, and however many there are, the
/// frames handed out over all the calls are the whole frames of the stream,
/// each once and in order, and what is carried over at the end is what the
/// stream leaves over.
pub proof fn lemma_stream_framed_once(carryover: Seq<Sample>, chunks: Seq<Seq<Sample>>)
    requires
        carryover.len() < FRAME_SIZE,
    ensures
        frames_through(carryover, chunks) == complete_frames(carryover + stream_of(chunks)),
        carryover_through(carryover, chunks) == leftover(carryover + stream_of(chunks)),
    decreases chunks.len(),
{
    if chunks.len() == 0 {
        assert(carryover + stream_of(chunks) =~= carryover);
        assert(complete_frames(carryover) =~= Seq::<Seq<Sample>>::empty());
        assert(leftover(carryover) =~= carryover);
    } else {
        let next = leftover(carryover + chunks[0]);
        lemma_stream_framed_once(next, chunks.drop_first());
        lemma_chunks_split(carryover, chunks[0], stream_of(chunks.drop_first()));
    }
}

} // verus!
