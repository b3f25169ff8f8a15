//! # Rebalance schedule of the multi-period CARA optimiser
//!
//! The optimiser splits the return history into periods of equal length
//! and solves one CARA problem per period (the solve is floating point
//! and lives outside this module); what is here decides where each period
//! starts and ends.
use vstd::prelude::*;

verus! {

/// Length of one period: `t_total / n_periods`, but at least one step.
pub open spec fn period_len(t_total: nat, n_periods: nat) -> nat {
    if n_periods == 0 || t_total / n_periods == 0 { 1 } else { t_total / n_periods }
}

/// The half-open range of period `p`: it starts at `p · len` and ends one
/// period later, or at the end of the history if that comes first.
pub open spec fn period_range(t_total: nat, n_periods: nat, p: nat) -> (usize, usize) {
    let len = period_len(t_total, n_periods);
    let end = (p + 1) * len;
    ((p * len) as usize, (if end < t_total { end } else { t_total }) as usize)
}

/// Start and end of every rebalance period over a history of `t_total`
/// steps split into `n_periods` periods of length `max(t_total / n_periods, 1)`.
///
/// Period `p` is `[p · len, min((p + 1) · len, t_total))`; periods that
/// would start at or past the end of the history are dropped, and an
/// empty history or zero periods give no period at all.  A remainder of
/// fewer than `n_periods` trailing steps is left out of every period.
pub fn rebalance_schedule(t_total: usize, n_periods: usize) -> (sched: Vec<(usize, usize)>)
    ensures
        sched@.len() <= n_periods,
        t_total == 0 || n_periods == 0 ==> sched@.len() == 0,
        forall|p: int| 0 <= p < sched@.len() ==> #[trigger] sched@[p] == period_range(
            t_total as nat,
            n_periods as nat,
            p as nat,
        ),
        forall|p: int| 0 <= p < sched@.len() ==> (#[trigger] sched@[p]).0 < sched@[p].1 <= t_total,
        sched@.len() < n_periods ==> sched@.len() * period_len(t_total as nat, n_periods as nat)
            >= t_total,
        0 < n_periods <= t_total ==> {
            &&& sched@.len() == n_periods
            &&& sched@[0].0 == 0
            &&& forall|p: int| 0 <= p < n_periods - 1 ==> (#[trigger] sched@[p]).1 == sched@[p + 1].0
            &&& forall|p: int| 0 <= p < n_periods ==> (#[trigger] sched@[p]).1 - sched@[p].0 == sched@[0].1
            &&& sched@[0].1 * n_periods <= t_total < (sched@[0].1 + 1) * n_periods
        },
        0 < t_total < n_periods ==> {
            &&& sched@.len() == t_total
            &&& forall|p: int| 0 <= p < t_total ==> #[trigger] sched@[p] == (p as usize, (p + 1) as usize)
        },
{
    let mut sched: Vec<(usize, usize)> = Vec::new();
    if t_total == 0 || n_periods == 0 {
        return sched;
    }
    let q = t_total / n_periods;
    let len = if q == 0 { 1 } else { q };
    assert(len == period_len(t_total as nat, n_periods as nat));
    proof {
        lemma_periods_fit(t_total as int, n_periods as int, len as int);
    }
    let mut p: usize = 0;
    while p < n_periods
        invariant_except_break
            t_total > 0,
            n_periods > 0,
            len == period_len(t_total as nat, n_periods as nat),
            len * n_periods <= t_total || len == 1,
            len >= 1,
            p <= n_periods,
            sched@.len() == p,
            p > 0 ==> (p - 1) * len < t_total,
            forall|k: int| 0 <= k < p ==> #[trigger] sched@[k] == period_range(
                t_total as nat,
                n_periods as nat,
                k as nat,
            ),
            forall|k: int| 0 <= k < p ==> (#[trigger] sched@[k]).0 < sched@[k].1 <= t_total,
        ensures
            sched@.len() <= n_periods,
            forall|k: int| 0 <= k < sched@.len() ==> #[trigger] sched@[k] == period_range(
                t_total as nat,
                n_periods as nat,
                k as nat,
            ),
            forall|k: int| 0 <= k < sched@.len() ==> (#[trigger] sched@[k]).0 < sched@[k].1 <= t_total,
            sched@.len() < n_periods ==> sched@.len() * len >= t_total,
            sched@.len() > 0 ==> (sched@.len() - 1) * len < t_total,
        decreases n_periods - p,
    {
        proof {
            lemma_period_bounds(t_total as int, n_periods as int, len as int, p as int);
        }
        let start = p * len;
        if start >= t_total {
            break;
        }
        let next = (p + 1) * len;
        let end = if next < t_total { next } else { t_total };
        sched.push((start, end));
        p = p + 1;
    }
    proof {
        lemma_schedule_shape(t_total as int, n_periods as int, len as int, sched@.len() as int);
    }
    sched
}

/// The shape of the schedule: with at least one step per period, every
/// period is there and has length `⌊t / n⌋`; with fewer steps than
/// periods, each step is a period of its own.
proof fn lemma_schedule_shape(t: int, n: int, len: int, m: int)
    requires
        t > 0,
        n > 0,
        len == (if t / n == 0 { 1 } else { t / n }),
        0 <= m <= n,
        m < n ==> m * len >= t,
        m > 0 ==> (m - 1) * len < t,
    ensures
        n <= t ==> m == n && len * n <= t < (len + 1) * n && forall|p: int|
            0 <= p < n ==> (p + 1) * len <= t && #[trigger] (p * len) + len == (p + 1) * len,
        t < n ==> len == 1 && m == t,
{
    vstd::arithmetic::div_mod::lemma_fundamental_div_mod(t, n);
    if n <= t {
        assert(t / n >= 1) by {
            vstd::arithmetic::div_mod::lemma_div_is_ordered(n, t, n);
            vstd::arithmetic::div_mod::lemma_div_by_self(n);
        }
        assert(len * n <= t < (len + 1) * n) by (nonlinear_arith)
            requires
                len == t / n,
                t == n * (t / n) + t % n,
                0 <= t % n < n,
        ;
        if m < n {
            assert(m * len <= (n - 1) * len) by (nonlinear_arith)
                requires
                    m <= n - 1,
                    len >= 1,
            ;
            assert((n - 1) * len < n * len) by (nonlinear_arith)
                requires
                    len >= 1,
            ;
            assert(n * len == len * n) by (nonlinear_arith);
        }
        assert forall|p: int| 0 <= p < n implies (p + 1) * len <= t && #[trigger] (p * len) + len == (p + 1)
            * len by {
            assert((p + 1) * len <= n * len) by (nonlinear_arith)
                requires
                    p + 1 <= n,
                    len >= 1,
            ;
            assert(n * len == len * n) by (nonlinear_arith);
            assert(p * len + len == (p + 1) * len) by (nonlinear_arith);
        }
    } else {
        assert(t / n == 0) by {
            vstd::arithmetic::div_mod::lemma_basic_div(t, n);
        }
        assert(m * len == m);
        if m > t {
            assert((m - 1) * len == m - 1);
        }
    }
}

/// With `len = t / n` (when positive), `n` periods fit in the history.
proof fn lemma_periods_fit(t: int, n: int, len: int)
    requires
        t > 0,
        n > 0,
        len == (if t / n == 0 { 1 } else { t / n }),
    ensures
        len * n <= t || len == 1,
{
    if t / n != 0 {
        vstd::arithmetic::div_mod::lemma_fundamental_div_mod(t, n);
        assert(len * n == n * (t / n)) by (nonlinear_arith)
            requires
                len == t / n,
        ;
    }
}

/// The bounds of period `p < n` fit in a `usize` and are ordered.
proof fn lemma_period_bounds(t: int, n: int, len: int, p: int)
    requires
        t > 0,
        n > 0,
        len >= 1,
        len * n <= t || len == 1,
        0 <= p < n,
        n <= usize::MAX,
        t <= usize::MAX,
    ensures
        0 <= p * len < (p + 1) * len,
        (p + 1) * len <= usize::MAX,
        p * len + len == (p + 1) * len,
{
    assert(0 <= p * len < (p + 1) * len) by (nonlinear_arith)
        requires
            0 <= p,
            len >= 1,
    ;
    assert(p * len + len == (p + 1) * len) by (nonlinear_arith);
    if len == 1 {
        assert((p + 1) * len == p + 1) by (nonlinear_arith)
            requires
                len == 1,
        ;
    } else {
        assert((p + 1) * len <= n * len) by (nonlinear_arith)
            requires
                p + 1 <= n,
                len >= 1,
        ;
        assert(n * len == len * n) by (nonlinear_arith);
    }
}

} // verus!
