//! A frequency distribution: how often each distinct key has been observed.
//!
//! [`FrequencyDistribution`] counts keys as they are inserted and keeps the sum
//! of all counts beside them. The module `counts` holds the mathematical model
//! that its contracts speak of, `laws` what follows from those contracts, and
//! `std_calls` the few things taken on trust about the standard library.

pub mod counts;
pub mod distribution;
pub mod laws;
pub mod non_zero;
pub mod std_calls;

pub use distribution::FrequencyDistribution;
pub use non_zero::NonZeroKeysIter;
