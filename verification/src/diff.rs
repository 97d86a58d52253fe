//! The comparison of two virtual trees: what the patches are, the function
//! that computes them, and what holds of them.

pub mod model;
pub mod engine;
pub mod proofs;

pub use engine::diff;
