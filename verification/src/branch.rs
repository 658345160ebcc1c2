//! The two branching combinators, under one roof.

pub use crate::alt::{alt, Alt};
pub use crate::permutation::{permutation, Permutation};
