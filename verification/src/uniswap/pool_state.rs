//! Uniswap v3/v4 pool state reader (`slot0`, liquidity, tick bitmap).
use super::{UniswapError, UniswapResult};
use vstd::prelude::*;

verus! {

/// Snapshot of a pool's `slot0` and active liquidity.
#[derive(Debug, Clone)]
pub struct PoolSnapshot {
    pub pool_address: String,
    pub sqrt_price_x96: u128,
    pub tick: i32,
    pub liquidity: u128,
}

/// Read the current state of the pool at `_pool_address`.
///
/// The chain reader is not wired up yet, so every call reports
/// [`UniswapError::NotImplemented`].
pub fn read_snapshot(_pool_address: &str) -> (r: UniswapResult<PoolSnapshot>)
    ensures
        r matches Err(UniswapError::NotImplemented),
{
    Err(UniswapError::NotImplemented)
}

} // verus!
