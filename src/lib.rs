//! Weighted random sampling over a finite discrete distribution, and a
//! stream of distinct samples drawn from such a distribution.
pub mod freq;
pub mod rng;
pub mod sampler;
pub mod unique;
pub mod tally;
pub mod source;
