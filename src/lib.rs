//! Synthetic preference rankings drawn from the Mallows model, through the
//! Repeated Insertion Model, with every step of the sampler verified.
//!
//! Real numbers are carried in integers: the dispersion is a fraction, insertion
//! weights are fixed-point powers of it rounded down, and every probability is a fixed-point
//! value with `PROBABILITY_ONE` standing for 1. A random draw is the upper 53
//! bits of a 64-bit word, read as a fraction of `PROBABILITY_ONE`.

pub mod dispersion;
pub mod distribution;
pub mod sampling;
pub mod stream;
pub mod votes;
