//! Geometric and topological signals on asset graphs.
pub mod gauge;
pub mod cohomology;
