//! Quantitative-finance building blocks with machine-checked contracts.
pub mod functional;
pub mod uniswap;
pub mod signature;
pub mod optimization;
pub mod geometric_signals;
pub mod portfolio;
pub mod meanrev;
