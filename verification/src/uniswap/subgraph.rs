//! Uniswap subgraph helpers (GraphQL over HTTPS).
use super::{UniswapError, UniswapResult};
use vstd::prelude::*;

verus! {

/// Addresses of the `_limit` pools with the largest traded volume.
///
/// The subgraph client is not wired up yet, so every call reports
/// [`UniswapError::NotImplemented`].
pub fn top_pools_by_volume(_limit: usize) -> (r: UniswapResult<Vec<String>>)
    ensures
        r matches Err(UniswapError::NotImplemented),
{
    Err(UniswapError::NotImplemented)
}

} // verus!
