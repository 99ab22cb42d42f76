//! The distances by which histograms are clustered.
use vstd::prelude::*;
use crate::histogram::{
    earth_movers, emd_spec, lemma_emd_bound, lemma_mse_bound, max_distance, mse_spec,
    squared_error, Histogram, HistogramView,
};

verus! {

/// How far apart two histograms are.
#[derive(Clone, Copy, Debug, PartialEq, Eq, Structural)]
pub enum Metric {
    /// The squared-error distance.
    Mse,
    /// The earth-mover's distance over ordered bins.
    Emd,
}

impl Metric {
    /// The distance between two histograms under this metric.
    pub open spec fn distance(self, a: HistogramView, b: HistogramView) -> nat {
        match self {
            Metric::Mse => mse_spec(a, b),
            Metric::Emd => emd_spec(a, b),
        }
    }

    /// The distance between two histograms that have mass.
    pub fn measure(&self, a: &Histogram, b: &Histogram) -> (d: u64)
        requires
            a.wf(),
            b.wf(),
            a@.mass > 0,
            b@.mass > 0,
        ensures
            d == self.distance(a@, b@),
            d <= max_distance(),
    {
        proof {
            lemma_mse_bound(a@, b@);
            lemma_emd_bound(a@, b@);
        }
        match self {
            Metric::Mse => squared_error(a, b),
            Metric::Emd => earth_movers(a, b),
        }
    }
}

} // verus!
