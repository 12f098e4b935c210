//! A streaming histogram over integer samples.
//!
//! Samples are folded into a bounded number of bins. Each bin keeps the exact
//! sum and count of the samples it stands for, so its value (their mean) is an
//! exact rational and merging two bins preserves the weighted mean exactly.
pub mod bins;
pub mod ratio;
pub mod model;
pub mod histogram;
pub mod report;
pub mod laws;

pub use histogram::Histogram;
pub use ratio::Ratio;
pub use report::HistogramReport;
