//! Structural differences between two values described as trees of typed nodes.

pub mod tree;
pub mod script;
pub mod pairing;
pub mod sequences;
pub mod diff;

pub use diff::{Diff, FacetDiff};
