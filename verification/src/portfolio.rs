//! # Window layout of the rescaled-range (R/S) Hurst estimator
//!
//! The estimator cuts the series into equal, back-to-back windows of each
//! candidate size, computes the rescaled range in every window and
//! regresses its logarithm on the logarithm of the size.  The statistics
//! are floating point and live outside this module; what is here decides
//! the admissible window sizes and where the windows lie.
use vstd::prelude::*;

verus! {

/// The window-size range of the estimator for a series of `n` points:
/// the caller's bounds where given, else at least 10 points (or 1% of the
/// series, if larger) and at most half of the series.
pub fn hurst_window_bounds(n: usize, min_window: Option<usize>, max_window: Option<usize>) -> (r: (
    usize,
    usize,
))
    ensures
        r.0 == match min_window {
            Some(m) => m,
            None => if n / 100 > 10 { (n / 100) as usize } else { 10usize },
        },
        r.1 == match max_window {
            Some(m) => m,
            None => (n / 2) as usize,
        },
{
    let min_win = match min_window {
        Some(m) => m,
        None => if n / 100 > 10 { n / 100 } else { 10 },
    };
    let max_win = match max_window {
        Some(m) => m,
        None => n / 2,
    };
    (min_win, max_win)
}

/// The half-open index ranges of the R/S windows of size `window_size`
/// over a series of `n` points: window `w` is
/// `[w · window_size, (w + 1) · window_size)`, and there are
/// `n / window_size` of them (a trailing remainder shorter than a window is
/// left out).
///
/// The windows are back to back, each exactly `window_size` long, and all
/// lie inside `0..n`.
pub fn rescaled_range_windows(n: usize, window_size: usize) -> (wins: Vec<(usize, usize)>)
    requires
        window_size > 0,
    ensures
        wins@.len() == n / window_size,
        forall|w: int| 0 <= w < wins@.len() ==> (#[trigger] wins@[w]).0 == w * window_size
            && wins@[w].1 == (w + 1) * window_size,
        forall|w: int| 0 <= w < wins@.len() ==> (#[trigger] wins@[w]).1 <= n,
        forall|w: int| 0 <= w < wins@.len() - 1 ==> (#[trigger] wins@[w]).1 == wins@[w + 1].0,
{
    let count = n / window_size;
    let mut wins: Vec<(usize, usize)> = Vec::new();
    let mut start: usize = 0;
    assert(0 * window_size == 0) by (nonlinear_arith);
    for w in 0..count
        invariant
            window_size > 0,
            count == n / window_size,
            start == w * window_size,
            wins@.len() == w,
            forall|v: int| 0 <= v < w ==> (#[trigger] wins@[v]).0 == v * window_size
                && wins@[v].1 == (v + 1) * window_size,
            forall|v: int| 0 <= v < w ==> (#[trigger] wins@[v]).1 <= n,
    {
        proof {
            lemma_window_fits(n as int, window_size as int, w as int);
        }
        let end = start + window_size;
        wins.push((start, end));
        start = end;
    }
    wins
}

/// Window `w` of size `s` ends within a series of `n` points whenever
/// `w < n / s`.
proof fn lemma_window_fits(n: int, s: int, w: int)
    requires
        n >= 0,
        s > 0,
        0 <= w < n / s,
    ensures
        (w + 1) * s <= n,
        w * s + s == (w + 1) * s,
{
    vstd::arithmetic::div_mod::lemma_fundamental_div_mod(n, s);
    assert((w + 1) * s <= (n / s) * s) by (nonlinear_arith)
        requires
            w + 1 <= n / s,
            s > 0,
    ;
    assert(w * s + s == (w + 1) * s) by (nonlinear_arith);
}

} // verus!
