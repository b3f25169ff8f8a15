//! # Uniswap read-only connector primitives
//!
//! Primitives for querying Uniswap v2/v3/v4 pool state and quoter
//! contracts, plus subgraph helpers. **Read-only** — no order placement.
//! The network connectors are not wired up yet: each of them reports
//! [`UniswapError::NotImplemented`].
pub mod cyclic_arb;
pub mod pool_state;
pub mod quoter;
pub mod subgraph;

use vstd::prelude::*;

verus! {

/// Errors of the Uniswap connectors and AMM math.
#[derive(Debug)]
pub enum UniswapError {
    /// The connector is a skeleton and does not talk to the chain yet.
    NotImplemented,
    /// The node answered a JSON-RPC call with an error.
    Rpc(String),
    /// An on-chain or subgraph payload could not be decoded.
    Decode(String),
    /// Non-positive reserves or amount.
    InvalidInput,
}

/// Result alias of the Uniswap module.
pub type UniswapResult<T> = Result<T, UniswapError>;

} // verus!
