use vstd::prelude::*;
use crate::histogram::{Histogram, HistogramModel, mean_of, quantile_of};
use crate::ratio::Ratio;

verus! {

/// The fractions of the samples whose quantiles a report gives.
pub open spec fn q99() -> Ratio {
    Ratio { num: 99, den: 100 }
}

pub open spec fn q90() -> Ratio {
    Ratio { num: 90, den: 100 }
}

pub open spec fn q50() -> Ratio {
    Ratio { num: 50, den: 100 }
}

/// A snapshot of a histogram's summary statistics.
#[derive(Clone, Copy, Debug, PartialEq, Eq)]
pub struct HistogramReport {
    pub total: u64,
    pub mean: Ratio,
    pub max: i64,
    pub min: i64,
    pub percent99: Ratio,
    pub percent90: Ratio,
    pub percent50: Ratio,
}

/// The snapshot of a histogram in state `m`; `None` before its first sample.
pub open spec fn report_of(m: HistogramModel) -> Option<HistogramReport> {
    if m.total == 0 {
        None
    } else {
        Some(
            HistogramReport {
                total: m.total as u64,
                mean: mean_of(m)->0,
                max: m.max->0,
                min: m.min->0,
                percent99: quantile_of(m, q99())->0,
                percent90: quantile_of(m, q90())->0,
                percent50: quantile_of(m, q50())->0,
            },
        )
    }
}

impl HistogramReport {
    /// The snapshot of `histogram`; `None` before its first sample.
    pub fn new(histogram: &Histogram) -> (r: Option<HistogramReport>)
        requires
            histogram@.wf(),
        ensures
            r == report_of(histogram@),
    {
        let mean = match histogram.mean() {
            Some(m) => m,
            None => {
                return None;
            },
        };
        let max = match histogram.max() {
            Some(m) => m,
            None => {
                return None;
            },
        };
        let min = match histogram.min() {
            Some(m) => m,
            None => {
                return None;
            },
        };
        let percent99 = match histogram.quantile(Ratio { num: 99, den: 100 }) {
            Some(m) => m,
            None => {
                return None;
            },
        };
        let percent90 = match histogram.quantile(Ratio { num: 90, den: 100 }) {
            Some(m) => m,
            None => {
                return None;
            },
        };
        let percent50 = match histogram.quantile(Ratio { num: 50, den: 100 }) {
            Some(m) => m,
            None => {
                return None;
            },
        };
        Some(HistogramReport { total: histogram.total(), mean, max, min, percent99, percent90, percent50 })
    }
}

impl Histogram {
    /// The snapshot of this histogram; `None` before its first sample.
    pub fn report(&self) -> (r: Option<HistogramReport>)
        requires
            self@.wf(),
        ensures
            r == report_of(self@),
    {
        HistogramReport::new(self)
    }
}

} // verus!
