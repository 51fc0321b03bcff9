//! The guessing strategy variants.

pub mod naive;

pub use naive::Naive;
