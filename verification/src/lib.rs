//! A small parser-combinator core: the outcome model, the error-accumulation
//! contract, the parser contract and the two branching combinators built on
//! them, ordered alternation and unordered completion.

pub mod alt;
pub mod branch;
pub mod bytes;
pub mod custom;
pub mod error;
pub mod input;
pub mod parser;
pub mod permutation;

pub use crate::error::IResult;
pub use crate::input::Streaming;
pub use crate::parser::Parser;
