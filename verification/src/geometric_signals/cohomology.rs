//! Sheaf cohomology on the exchange graph: the coboundary operator.
//!
//! For a directed graph, the simplicial coboundary `δ: C⁰ → C¹` maps a
//! potential on vertices to its differences along edges: the row of edge
//! `(i, j)` has `-1` in column `i` and `+1` in column `j`.  Constant
//! potentials are exactly what `δ` cannot see, which is why the
//! Laplacian `δᵀδ` of a connected graph has a zero eigenvalue.
use vstd::prelude::*;

verus! {

/// Entry of the coboundary row of edge `i → j` in column `v`.
pub open spec fn edge_sign(i: int, j: int, v: int) -> int {
    if v == j { 1 } else if v == i { -1 } else { 0 }
}

/// Every entry that the construction writes for the edges lies inside the
/// `n_edges × n_vertices` table (the row-major index of vertex `v` of edge
/// `e` is `e * n_vertices + v`).
pub open spec fn writes_in_range(edges: Seq<usize>, n_vertices: nat) -> bool {
    forall|e: int|
        0 <= e < edges.len() / 2 ==> e * n_vertices + #[trigger] edges[2 * e] < (edges.len() / 2) * n_vertices
            && e * n_vertices + edges[2 * e + 1] < (edges.len() / 2) * n_vertices
}

/// The table after writing the first `k` edges into a zero table, each
/// edge `(i, j)` writing `-1` at its index for `i`, then `+1` at its index
/// for `j`.
pub open spec fn coboundary_after(edges: Seq<usize>, n_vertices: nat, k: nat) -> Seq<i8>
    decreases k,
{
    if k == 0 {
        Seq::new((edges.len() / 2) * n_vertices, |p: int| 0i8)
    } else {
        let e = (k - 1) as int;
        coboundary_after(edges, n_vertices, (k - 1) as nat)
            .update(e * n_vertices + edges[2 * e], -1i8)
            .update(e * n_vertices + edges[2 * e + 1], 1i8)
    }
}

/// Every edge of the flat list names vertices below `n_vertices`.
pub open spec fn vertices_in_range(edges: Seq<usize>, n_vertices: nat) -> bool {
    forall|p: int| 0 <= p < 2 * (edges.len() / 2) ==> #[trigger] edges[p] < n_vertices
}

/// Coboundary matrix δ of a directed graph, row-major `n_edges × n_vertices`.
///
/// `edges` lists the directed edges flat, `[i₀, j₀, i₁, j₁, …]` (a trailing
/// unpaired entry is ignored).  The row of edge `(i, j)` has `-1` in column
/// `i` and `+1` in column `j` (a self-loop keeps only the `+1`), and zeros
/// elsewhere.
pub fn coboundary_signs(edges: &[usize], n_vertices: usize) -> (delta: Vec<i8>)
    requires
        (edges@.len() / 2) * n_vertices <= usize::MAX,
        writes_in_range(edges@, n_vertices as nat),
    ensures
        delta@ == coboundary_after(edges@, n_vertices as nat, (edges@.len() / 2) as nat),
        delta@.len() == (edges@.len() / 2) * n_vertices,
        vertices_in_range(edges@, n_vertices as nat) ==> forall|e: int, v: int|
            0 <= e < edges@.len() / 2 && 0 <= v < n_vertices ==> #[trigger] delta@[e * n_vertices + v]
                == edge_sign(edges@[2 * e] as int, edges@[2 * e + 1] as int, v),
{
    let n_edges = edges.len() / 2;
    let size = n_edges * n_vertices;
    let mut delta: Vec<i8> = Vec::new();
    let mut p: usize = 0;
    while p < size
        invariant
            p <= size,
            delta@ =~= Seq::new(p as nat, |q: int| 0i8),
        decreases size - p,
    {
        delta.push(0);
        p = p + 1;
    }
    for e in 0..n_edges
        invariant
            n_edges == edges@.len() / 2,
            edges@.len() <= usize::MAX,
            size == n_edges * n_vertices,
            writes_in_range(edges@, n_vertices as nat),
            delta@ == coboundary_after(edges@, n_vertices as nat, e as nat),
            delta@.len() == size,
    {
        assert(2 * e + 1 < edges@.len());
        let i = edges[2 * e];
        let j = edges[2 * e + 1];
        assert(e * n_vertices + edges@[2 * e] < size);
        delta.set(e * n_vertices + i, -1);
        delta.set(e * n_vertices + j, 1);
    }
    proof {
        if vertices_in_range(edges@, n_vertices as nat) {
            lemma_coboundary_rows(edges@, n_vertices as nat, n_edges as nat);
        }
    }
    delta
}

/// After writing the first `k` edges of in-range edges, rows below `k` hold
/// their edge's signs and rows from `k` on are still zero.
proof fn lemma_coboundary_rows(edges: Seq<usize>, n: nat, k: nat)
    requires
        vertices_in_range(edges, n),
        k <= edges.len() / 2,
    ensures
        coboundary_after(edges, n, k).len() == (edges.len() / 2) * n,
        forall|e: int, v: int|
            0 <= e < edges.len() / 2 && 0 <= v < n ==> #[trigger] coboundary_after(edges, n, k)[e * n + v] == if e
                < k {
                edge_sign(edges[2 * e] as int, edges[2 * e + 1] as int, v)
            } else {
                0
            },
    decreases k,
{
    let m = edges.len() / 2;
    if k == 0 {
        assert forall|e: int, v: int| 0 <= e < m && 0 <= v < n implies #[trigger] coboundary_after(edges, n, k)[e * n + v]
            == 0 by {
            lemma_row_index(n as int, m as int, e, v);
        }
    } else {
        lemma_coboundary_rows(edges, n, (k - 1) as nat);
        let w = (k - 1) as int;
        assert(edges[2 * w] < n);
        assert(edges[2 * w + 1] < n);
        lemma_row_index(n as int, m as int, w, edges[2 * w] as int);
        lemma_row_index(n as int, m as int, w, edges[2 * w + 1] as int);
        assert forall|e: int, v: int| 0 <= e < m && 0 <= v < n implies #[trigger] coboundary_after(edges, n, k)[e * n + v]
            == if e < k { edge_sign(edges[2 * e] as int, edges[2 * e + 1] as int, v) } else { 0 } by {
            lemma_row_index(n as int, m as int, e, v);
            lemma_row_index(n as int, m as int, w, edges[2 * w] as int);
            lemma_row_index(n as int, m as int, w, edges[2 * w + 1] as int);
            lemma_index_unique(n as int, e, v, w, edges[2 * w] as int);
            lemma_index_unique(n as int, e, v, w, edges[2 * w + 1] as int);
        }
    }
}

/// The index of a cell of an `m × n` row-major table lies inside the table.
proof fn lemma_row_index(n: int, m: int, e: int, v: int)
    requires
        0 <= e < m,
        0 <= v < n,
    ensures
        0 <= e * n + v < m * n,
{
    assert(0 <= e * n + v < m * n) by (nonlinear_arith)
        requires
            0 <= e < m,
            0 <= v < n,
    ;
}

/// Cells of a row-major table with `n` columns share an index only if they
/// are the same cell.
proof fn lemma_index_unique(n: int, e: int, v: int, f: int, u: int)
    requires
        0 <= e,
        0 <= f,
        0 <= v < n,
        0 <= u < n,
    ensures
        e * n + v == f * n + u <==> e == f && v == u,
{
    if e < f {
        assert(e * n + v < f * n + u) by (nonlinear_arith)
            requires
                e < f,
                0 <= v < n,
                0 <= u,
        ;
    } else if f < e {
        assert(f * n + u < e * n + v) by (nonlinear_arith)
            requires
                f < e,
                0 <= u < n,
                0 <= v,
        ;
    }
}

/// Sum of the signs of the row of edge `i → j` over the columns below `k`.
pub open spec fn row_sign_sum(i: int, j: int, k: int) -> int
    decreases k,
{
    if k <= 0 { 0 } else { row_sign_sum(i, j, k - 1) + edge_sign(i, j, k - 1) }
}

/// Constant potentials have zero coboundary: for an edge between two
/// distinct vertices, the entries of its row of δ add up to zero.
pub proof fn lemma_coboundary_kills_constants(edges: Seq<usize>, n_vertices: nat, e: int)
    requires
        vertices_in_range(edges, n_vertices),
        0 <= e < edges.len() / 2,
        edges[2 * e] != edges[2 * e + 1],
    ensures
        row_sign_sum(edges[2 * e] as int, edges[2 * e + 1] as int, n_vertices as int) == 0,
{
    assert(edges[2 * e] < n_vertices);
    assert(edges[2 * e + 1] < n_vertices);
    lemma_row_sign_prefix(edges[2 * e] as int, edges[2 * e + 1] as int, n_vertices as int);
}

/// The partial row sum counts `+1` once the column of `j` is passed and
/// `-1` once the column of `i` is passed.
proof fn lemma_row_sign_prefix(i: int, j: int, k: int)
    requires
        i != j,
    ensures
        row_sign_sum(i, j, k) == (if 0 <= j < k { 1int } else { 0int }) - (if 0 <= i < k { 1int } else { 0int }),
    decreases k,
{
    if k > 0 {
        lemma_row_sign_prefix(i, j, k - 1);
    }
}

} // verus!
