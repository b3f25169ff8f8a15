//! # Path signature helpers
//!
//! The lead-lag transform turns a 1-D series into the canonical 2-D path
//! whose signature captures autocorrelation; the iterated-integral
//! signature itself is computed over floating-point increments and is not
//! part of this module.
use vstd::prelude::*;

verus! {

/// The lead-lag path of `p`: `(p₀, p₀)`, then for each later index `i`
/// the two points `(pᵢ, pᵢ₋₁)` and `(pᵢ, pᵢ)`.
pub open spec fn lead_lag_spec<T>(p: Seq<T>) -> Seq<(T, T)> {
    if p.len() == 0 {
        Seq::empty()
    } else {
        Seq::new(
            (2 * p.len() - 1) as nat,
            |k: int| if k % 2 == 0 { (p[k / 2], p[k / 2]) } else { (p[(k + 1) / 2], p[(k - 1) / 2]) },
        )
    }
}

/// Convert a 1-D price series to the **lead-lag 2-D path**.
///
/// Given prices `[p₀, p₁, …, pₙ]`, the lead-lag transform produces an
/// interleaved 2-D path `[(p₀, p₀), (p₁, p₀), (p₁, p₁), (p₂, p₁), …]`
/// of `2n + 1` points that starts and ends on the diagonal.
pub fn lead_lag_transform<T: Copy>(prices: &[T]) -> (out: Vec<(T, T)>)
    ensures
        out@ == lead_lag_spec(prices@),
        prices.len() == 0 ==> out.len() == 0,
        prices.len() > 0 ==> out.len() == 2 * prices.len() - 1,
        prices.len() > 0 ==> out@[0].0 == out@[0].1 && out@.last().0 == out@.last().1,
        prices.len() > 0 ==> out@[0] == (prices@[0], prices@[0]),
        forall|i: int| 1 <= i < prices@.len() ==> #[trigger] out@[2 * i - 1] == (prices@[i], prices@[i - 1])
            && out@[2 * i] == (prices@[i], prices@[i]),
{
    if prices.len() == 0 {
        return Vec::new();
    }
    let mut out: Vec<(T, T)> = Vec::new();
    out.push((prices[0], prices[0]));
    for i in 1..prices.len()
        invariant
            prices@.len() > 0,
            out@.len() == 2 * i - 1,
            forall|k: int| 0 <= k < out@.len() ==> #[trigger] out@[k] == lead_lag_spec(prices@)[k],
    {
        out.push((prices[i], prices[i - 1]));
        out.push((prices[i], prices[i]));
    }
    assert(out@ =~= lead_lag_spec(prices@));
    assert(out@.last() == out@[2 * (prices.len() - 1) as int]);
    proof {
        lemma_lead_lag_lags_by_one(prices@);
    }
    out
}

/// The lead-lag path lags by exactly one step: it starts at `(p₀, p₀)`,
/// and for every later index `i` the lead coordinate moves to `pᵢ` while
/// the lag coordinate still holds the previous price `pᵢ₋₁`, then the lag
/// catches up to `(pᵢ, pᵢ)`.
pub proof fn lemma_lead_lag_lags_by_one<T>(p: Seq<T>)
    ensures
        p.len() > 0 ==> lead_lag_spec(p).len() == 2 * p.len() - 1 && lead_lag_spec(p)[0] == (p[0], p[0]),
        forall|i: int| 1 <= i < p.len() ==> #[trigger] lead_lag_spec(p)[2 * i - 1] == (p[i], p[i - 1])
            && lead_lag_spec(p)[2 * i] == (p[i], p[i]),
{
    assert forall|i: int| 1 <= i < p.len() implies #[trigger] lead_lag_spec(p)[2 * i - 1] == (p[i], p[i - 1])
        && lead_lag_spec(p)[2 * i] == (p[i], p[i]) by {
        assert((2 * i - 1) % 2 == 1);
        assert((2 * i - 1 + 1) / 2 == i);
        assert((2 * i - 1 - 1) / 2 == i - 1);
        assert((2 * i) % 2 == 0);
        assert((2 * i) / 2 == i);
    }
}

} // verus!
