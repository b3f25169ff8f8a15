//! Uniswap quoter helper — wraps the on-chain Quoter contract.
use super::{UniswapError, UniswapResult};
use vstd::prelude::*;

verus! {

/// Quote the output of an exact-input swap of `_amount_in` of `_token_in`
/// into `_token_out` through the pool of fee tier `_fee_tier`.
///
/// The quoter contract is not wired up yet, so every call reports
/// [`UniswapError::NotImplemented`].
pub fn quote_exact_input(
    _token_in: &str,
    _token_out: &str,
    _amount_in: u128,
    _fee_tier: u32,
) -> (r: UniswapResult<u128>)
    ensures
        r matches Err(UniswapError::NotImplemented),
{
    Err(UniswapError::NotImplemented)
}

} // verus!
