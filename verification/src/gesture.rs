//! The fixed-length descriptor of a stroke and the distance between two of
//! them.

use vstd::prelude::*;
use crate::numeric::abs_diff;
use crate::numeric::gap;
use crate::path::lift;
use crate::path::normalize;
use crate::path::normalized;
use crate::path::recognizable;
use crate::resample::resample;
use crate::resample::resampled;

verus! {

/// Number of samples in a descriptor.
pub const RESOLUTION: usize = 128;

/// Sum, over the first `n` positions, of the horizontal plus the vertical
/// gap between the points that `a` and `b` hold at that position.
pub open spec fn distance_upto(a: Seq<(int, int)>, b: Seq<(int, int)>, n: int) -> int
    decreases n,
{
    if n <= 0 {
        0
    } else {
        distance_upto(a, b, n - 1) + gap(a[n - 1].0, b[n - 1].0) + gap(a[n - 1].1, b[n - 1].1)
    }
}

/// Pointwise Manhattan distance between two descriptors, summed over every
/// position.
pub open spec fn distance_between(a: Seq<(int, int)>, b: Seq<(int, int)>) -> int {
    distance_upto(a, b, a.len() as int)
}

/// The descriptor of a raw stroke: its normalized form, resampled.
pub open spec fn descriptor(path: Seq<(int, int)>) -> Seq<(int, int)> {
    resampled(normalized(path))
}

/// A stroke reduced to `RESOLUTION` points spaced evenly along its length.
#[derive(Debug, Clone, Copy)]
pub struct PreparedGesture {
    samples: [(i32, i32); RESOLUTION],
}

impl View for PreparedGesture {
    type V = Seq<(int, int)>;

    closed spec fn view(&self) -> Seq<(int, int)> {
        lift(self.samples@)
    }
}

impl PreparedGesture {
    /// Wraps samples that a resampler produced.
    pub(crate) fn from_samples(samples: [(i32, i32); RESOLUTION]) -> (gesture: PreparedGesture)
        ensures
            gesture@ == lift(samples@),
    {
        PreparedGesture { samples }
    }

    /// Prepares the descriptor of a raw stroke, if the stroke can be
    /// recognized at all: consecutive duplicates are dropped, the rest is
    /// normalized and then resampled.
    pub fn from_positions(input_positions: &[(i32, i32)]) -> (result: Option<PreparedGesture>)
        ensures
            result.is_some() == recognizable(lift(input_positions@)),
            result matches Some(gesture) ==> gesture@ == descriptor(lift(input_positions@))
                && gesture@.len() == RESOLUTION,
    {
        match normalize(input_positions) {
            Ok(path) => Some(resample(&path)),
            Err(_) => None,
        }
    }

    /// A descriptor has exactly `RESOLUTION` samples.
    pub proof fn lemma_len(self)
        ensures
            self@.len() == RESOLUTION,
    {
    }

    /// The samples, from the start of the stroke to its end.
    pub fn samples(&self) -> (samples: &[(i32, i32); RESOLUTION])
        ensures
            lift(samples@) == self@,
    {
        &self.samples
    }

    /// Distance to another descriptor: the sum over all positions of the
    /// absolute differences of both coordinates.
    pub fn distance(&self, other: &PreparedGesture) -> (d: u64)
        ensures
            d == distance_between(self@, other@),
    {
        let mut total: u64 = 0;
        let mut i: usize = 0;
        while i < RESOLUTION
            invariant
                i <= RESOLUTION,
                total == distance_upto(self@, other@, i as int),
                total <= i * 0x2_0000_0000,
            decreases RESOLUTION - i,
        {
            let p = self.samples[i];
            let q = other.samples[i];
            total = total + abs_diff(p.0, q.0) + abs_diff(p.1, q.1);
            i += 1;
        }
        total
    }
}

} // verus!
