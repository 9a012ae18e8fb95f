//! Primitive layer of a parser-combinator toolkit: factories that build
//! single-purpose prefix matchers (literal tags, character classes, bounded
//! repetition, delimiter search, fixed-length consumption) over any input
//! representation that satisfies the capability contract in `input`.

pub mod combinators;
pub mod error;
pub mod input;
pub mod laws;
pub mod model;
