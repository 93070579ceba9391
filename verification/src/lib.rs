//! Speech denoising around a frame-based noise suppressor.
//!
//! The library holds everything about the pipeline that is a matter of
//! integers and of order: the codec between raw 16-bit PCM and samples, the
//! decision whether audio has to be resampled, the framing of a live stream
//! with the carryover between its chunks, and the framing of whole
//! recordings of several channels. Resampling and noise suppression are
//! floating-point arithmetic and stay with the caller, who is told, step by
//! step, what to run them on.
//!
//! - [`sample`]: a sample and its conversion from and to a PCM amplitude.
//! - [`codec`]: raw PCM buffers.
//! - [`rate`]: the target rate and the rate decision.
//! - [`frame`]: frames of 480 samples.
//! - [`stream`]: a live stream, chunk by chunk.
//! - [`batch`]: a whole recording.
//! - [`error`]: the refusals.

pub mod batch;
pub mod codec;
pub mod error;
pub mod frame;
pub mod rate;
pub mod sample;
pub mod stream;
