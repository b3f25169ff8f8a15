//! Gauge theory on asset price graphs: the triangles of the complete graph.
//!
//! The curvature of a triangle `(i, j, k)` is the sum of log price ratios
//! around it; which triangles are visited, and in which order, is decided
//! here on indices alone.
use vstd::prelude::*;

verus! {

/// `t` is a triangle of the complete graph on `n` vertices, listed with
/// increasing vertex indices.
pub open spec fn is_triangle(t: (usize, usize, usize), n: nat) -> bool {
    t.0 < t.1 && t.1 < t.2 && t.2 < n
}

/// Lexicographic order on index triples.
pub open spec fn triple_lt(a: (usize, usize, usize), b: (usize, usize, usize)) -> bool {
    ||| a.0 < b.0
    ||| a.0 == b.0 && a.1 < b.1
    ||| a.0 == b.0 && a.1 == b.1 && a.2 < b.2
}

/// All `(n choose 3)` triangles `(i, j, k)` with `i < j < k < n`, in
/// lexicographic order — the order in which the triangle curvatures of
/// `n` assets are reported.
pub fn triangle_triples(n: usize) -> (out: Vec<(usize, usize, usize)>)
    ensures
        forall|p: int| 0 <= p < out@.len() ==> is_triangle(#[trigger] out@[p], n as nat),
        forall|p: int, q: int| 0 <= p < q < out@.len() ==> triple_lt(#[trigger] out@[p], #[trigger] out@[q]),
        forall|t: (usize, usize, usize)| is_triangle(t, n as nat) ==> #[trigger] out@.contains(t),
{
    let mut out: Vec<(usize, usize, usize)> = Vec::new();
    for i in 0..n
        invariant
            forall|p: int| 0 <= p < out@.len() ==> is_triangle(#[trigger] out@[p], n as nat),
            forall|p: int, q: int| 0 <= p < q < out@.len() ==> triple_lt(#[trigger] out@[p], #[trigger] out@[q]),
            forall|p: int| 0 <= p < out@.len() ==> (#[trigger] out@[p]).0 < i,
            forall|t: (usize, usize, usize)| is_triangle(t, n as nat) && t.0 < i ==> #[trigger] out@.contains(t),
    {
        for j in (i + 1)..n
            invariant
                i < n,
                forall|p: int| 0 <= p < out@.len() ==> is_triangle(#[trigger] out@[p], n as nat),
                forall|p: int, q: int| 0 <= p < q < out@.len() ==> triple_lt(#[trigger] out@[p], #[trigger] out@[q]),
                forall|p: int| 0 <= p < out@.len() ==> triple_lt(#[trigger] out@[p], (i, j, 0)),
                forall|t: (usize, usize, usize)|
                    is_triangle(t, n as nat) && triple_lt(t, (i, j, 0)) ==> #[trigger] out@.contains(t),
        {
            for k in (j + 1)..n
                invariant
                    i < j < n,
                    forall|p: int| 0 <= p < out@.len() ==> is_triangle(#[trigger] out@[p], n as nat),
                    forall|p: int, q: int|
                        0 <= p < q < out@.len() ==> triple_lt(#[trigger] out@[p], #[trigger] out@[q]),
                    forall|p: int| 0 <= p < out@.len() ==> triple_lt(#[trigger] out@[p], (i, j, k)),
                    forall|t: (usize, usize, usize)|
                        is_triangle(t, n as nat) && triple_lt(t, (i, j, k)) ==> #[trigger] out@.contains(t),
            {
                let ghost before = out@;
                out.push((i, j, k));
                assert forall|t: (usize, usize, usize)|
                    is_triangle(t, n as nat) && triple_lt(t, (i, j, (k + 1) as usize)) implies #[trigger] out@.contains(t) by {
                    if t == (i, j, k) {
                        assert(out@[out@.len() - 1] == t);
                    } else {
                        assert(before.contains(t));
                        let w = choose|w: int| 0 <= w < before.len() && before[w] == t;
                        assert(out@[w] == t);
                    }
                }
            }
            assert forall|t: (usize, usize, usize)|
                is_triangle(t, n as nat) && triple_lt(t, (i, (j + 1) as usize, 0)) implies #[trigger] out@.contains(t) by {
                if !triple_lt(t, (i, j, 0)) {
                    assert(triple_lt(t, (i, j, n)));
                }
            }
        }
        assert forall|t: (usize, usize, usize)|
            is_triangle(t, n as nat) && t.0 < i + 1 implies #[trigger] out@.contains(t) by {
            if t.0 == i {
                assert(triple_lt(t, (i, n, 0)));
            }
        }
    }
    out
}

/// The directed edges around the cycle `cycle[0] → cycle[1] → … →
/// cycle[last] → cycle[0]`, in travel order; a cycle of fewer than two
/// assets has no edges.  The curvature of the cycle is the sum of the log
/// price ratios along these edges, and its holonomy their product.
pub fn cycle_edges(cycle: &[usize]) -> (out: Vec<(usize, usize)>)
    ensures
        cycle@.len() < 2 ==> out@.len() == 0,
        cycle@.len() >= 2 ==> {
            &&& out@.len() == cycle@.len()
            &&& forall|k: int| 0 <= k < cycle@.len() - 1 ==> #[trigger] out@[k] == (cycle@[k], cycle@[k + 1])
            &&& out@.last() == (cycle@.last(), cycle@[0])
        },
{
    let mut out: Vec<(usize, usize)> = Vec::new();
    if cycle.len() < 2 {
        return out;
    }
    for k in 0..cycle.len() - 1
        invariant
            cycle@.len() >= 2,
            out@.len() == k,
            forall|q: int| 0 <= q < k ==> #[trigger] out@[q] == (cycle@[q], cycle@[q + 1]),
    {
        out.push((cycle[k], cycle[k + 1]));
    }
    out.push((cycle[cycle.len() - 1], cycle[0]));
    out
}

} // verus!
