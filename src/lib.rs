//! A 4x4 sliding-tile merge puzzle: board transitions, move-selection
//! strategies with a bounded lookahead search, and a Monte Carlo harness.
pub mod rules;
pub mod gameplay;
pub mod rng;
pub mod algorithm;
pub mod simulate;
