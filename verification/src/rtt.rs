//! The smoothed estimate of the round-trip time.

use crate::time::{clamp_micros, Duration};
use vstd::prelude::*;

verus! {

/// The round-trip time assumed before the first sample, in microseconds (100 ms).
pub const INITIAL_RTT_MICROS: u64 = 100_000;

/// The variance assumed before the first sample, in microseconds (50 ms).
pub const INITIAL_RTT_VARIANCE_MICROS: u64 = 50_000;

/// The shortest period of the report timer, in microseconds (20 ms).
pub const MIN_NAK_PERIOD_MICROS: u64 = 20_000;

/// The mean after a sample: seven parts of the old mean and one of the sample.
pub open spec fn smoothed_mean(mean: int, sample: int) -> int {
    (7 * mean + sample) / 8
}

/// The variance after a sample: three parts of the old variance and one of the
/// sample's distance from the old mean.
pub open spec fn smoothed_variance(variance: int, mean: int, sample: int) -> int {
    (3 * variance + if mean >= sample {
        mean - sample
    } else {
        sample - mean
    }) / 4
}

/// A sample moves the mean toward itself, by an eighth of its distance from the mean:
/// rounded down where the sample is above the mean, and up where it is below. The mean
/// never becomes negative.
pub proof fn lemma_mean_follows_sample(mean: int, sample: int)
    requires
        0 <= mean,
        0 <= sample,
    ensures
        0 <= smoothed_mean(mean, sample),
        sample >= mean ==> smoothed_mean(mean, sample) - mean == (sample - mean) / 8,
        sample < mean ==> mean - smoothed_mean(mean, sample) == (mean - sample + 7) / 8,
        sample >= mean ==> mean <= smoothed_mean(mean, sample) <= sample,
        sample < mean ==> sample <= smoothed_mean(mean, sample) < mean,
        8 * (if smoothed_mean(mean, sample) >= mean {
            smoothed_mean(mean, sample) - mean
        } else {
            mean - smoothed_mean(mean, sample)
        }) + 7 >= if sample >= mean {
            sample - mean
        } else {
            mean - sample
        },
{
}

/// The variance never becomes negative and stays at or below the larger of the old
/// variance and the sample's distance from the mean.
pub proof fn lemma_variance_bounds(variance: int, mean: int, sample: int)
    requires
        0 <= variance,
        0 <= mean,
        0 <= sample,
    ensures
        0 <= smoothed_variance(variance, mean, sample),
        smoothed_variance(variance, mean, sample) <= if variance >= mean - sample && variance
            >= sample - mean {
            variance
        } else if mean >= sample {
            mean - sample
        } else {
            sample - mean
        },
{
}

/// Mean and variance of the round-trip time.
#[derive(Clone, Copy, Debug, PartialEq, Eq, Structural)]
pub struct Rtt {
    pub mean: Duration,
    pub variance: Duration,
}

impl Rtt {
    /// The estimate before the first sample.
    pub fn new() -> (r: Rtt)
        ensures
            r.mean@ == INITIAL_RTT_MICROS,
            r.variance@ == INITIAL_RTT_VARIANCE_MICROS,
    {
        Rtt {
            mean: Duration { micros: INITIAL_RTT_MICROS },
            variance: Duration { micros: INITIAL_RTT_VARIANCE_MICROS },
        }
    }

    /// Takes a sample: the variance follows the sample's distance from the old mean, and
    /// the mean follows the sample.
    pub fn update(&mut self, sample: Duration)
        ensures
            final(self).mean@ == smoothed_mean(old(self).mean@, sample@),
            final(self).variance@ == smoothed_variance(
                old(self).variance@,
                old(self).mean@,
                sample@,
            ),
    {
        let mean: u128 = self.mean.micros as u128;
        let variance: u128 = self.variance.micros as u128;
        let taken: u128 = sample.micros as u128;
        let apart: u128 = if mean >= taken { mean - taken } else { taken - mean };
        let next_variance: u128 = (3 * variance + apart) / 4;
        let next_mean: u128 = (7 * mean + taken) / 8;
        self.variance = Duration { micros: next_variance as u64 };
        self.mean = Duration { micros: next_mean as u64 };
    }

    /// The period of the report timer: the mean plus four times the variance, and no
    /// less than 20 ms.
    pub fn nak_period(&self) -> (r: Duration)
        ensures
            r@ == if self.mean@ + 4 * self.variance@ < MIN_NAK_PERIOD_MICROS {
                MIN_NAK_PERIOD_MICROS as int
            } else {
                clamp_micros(self.mean@ + 4 * self.variance@)
            },
    {
        let period: u128 = self.mean.micros as u128 + 4 * (self.variance.micros as u128);
        if period < MIN_NAK_PERIOD_MICROS as u128 {
            Duration { micros: MIN_NAK_PERIOD_MICROS }
        } else if period > u64::MAX as u128 {
            Duration { micros: u64::MAX }
        } else {
            Duration { micros: period as u64 }
        }
    }
}

} // verus!
