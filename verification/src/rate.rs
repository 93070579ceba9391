//! The rate decision: audio that already has the rate asked for passes
//! through untouched; anything else has to go through a resampler.

use crate::sample::Sample;
use vstd::prelude::*;

verus! {

/// The sample rate, in hertz, at which the noise suppressor works.
pub const TARGET_SAMPLE_RATE: u32 = 48000;

/// What is to happen to a sample sequence on its way from one rate to
/// another.
#[derive(Debug, PartialEq, Eq)]
pub enum Conversion {
    /// The rates are equal: these are the samples, as they came.
    Unchanged { samples: Vec<Sample> },
    /// The rates differ: the samples are to be resampled, by band-limited
    /// interpolation, from `source_rate` to `target_rate`.
    Resample { samples: Vec<Sample>, source_rate: u32, target_rate: u32 },
}

/// The outcome of a conversion as far as it is settled without a
/// resampler: the input itself where the rates are equal, nothing where
/// they differ.
pub open spec fn converted(samples: Seq<Sample>, source_rate: u32, target_rate: u32) -> Option<
    Seq<Sample>,
> {
    if source_rate == target_rate {
        Some(samples)
    } else {
        None
    }
}

/// Converts samples from one rate to another as far as that takes no
/// arithmetic on them: at equal rates the samples come back unchanged,
/// otherwise they come back with the order to resample them.
pub fn convert(samples: Vec<Sample>, source_rate: u32, target_rate: u32) -> (conversion:
    Conversion)
    ensures
        source_rate == target_rate ==> conversion == (Conversion::Unchanged { samples }),
        source_rate != target_rate ==> conversion == (Conversion::Resample {
            samples,
            source_rate,
            target_rate,
        }),
        match conversion {
            Conversion::Unchanged { samples: kept } => Some(kept@) == converted(
                samples@,
                source_rate,
                target_rate,
            ),
            Conversion::Resample { .. } => converted(samples@, source_rate, target_rate) is None,
        },
{
    if source_rate == target_rate {
        Conversion::Unchanged { samples }
    } else {
        Conversion::Resample { samples, source_rate, target_rate }
    }
}

/// Converting between equal rates gives the input back, whatever the
/// samples and whatever the rate.
pub proof fn lemma_equal_rates_keep_samples(samples: Seq<Sample>, rate: u32)
    ensures
        converted(samples, rate, rate) == Some(samples),
{
}

/// Converting between equal rates a second time changes nothing further.
pub proof fn lemma_equal_rates_twice(samples: Seq<Sample>, rate: u32)
    ensures
        converted(converted(samples, rate, rate)->0, rate, rate) == converted(samples, rate, rate),
{
}

} // verus!
