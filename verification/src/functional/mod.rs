//! Functional combinators for railway-oriented pipelines.
pub mod compose;
