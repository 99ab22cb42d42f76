//! Clustering of probability histograms, and the tables built around it.
//!
//! A [`histogram::Histogram`] is a discrete distribution over a fixed number
//! of ordered bins. Masses are whole numbers; a normalized mass is a
//! fixed-point fraction counted in parts of [`histogram::ONE`], rounded
//! down. Histograms are compared with a squared-error or an earth-mover's
//! distance ([`metric::Metric`]) and grouped by a multi-restart k-means
//! ([`k_means::k_means`]). What the clustering computes is written down as
//! mathematics in [`lloyd`], together with what is proved of it.
//!
//! [`tables`] ranks the hands of a board against each other, and
//! [`abstraction`] looks up the row of a hand in the finished abstraction.
//!
//! Random choices are made by `rand` and the data-parallel phases are run
//! by `rayon`; both stand behind functions whose contracts are taken on
//! trust from those crates.
pub mod error;
pub mod sums;
pub mod histogram;
pub mod metric;
pub mod lloyd;
pub mod k_means;
pub mod abstraction;
pub mod tables;
mod parallel;
mod sampling;
