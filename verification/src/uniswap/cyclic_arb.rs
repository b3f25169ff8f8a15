//! # Cyclic arbitrage: recovering the cycle found by Bellman-Ford
//!
//! The Bellman-Ford search over a token graph (edge weight
//! `-log(γ · R_out / R_in)`) leaves, for every token, the index of the
//! edge that last relaxed it.  When the final pass still relaxes some
//! token, walking predecessor edges from it `num_tokens` times lands on a
//! negative cycle; this module walks that cycle and returns its edges in
//! travel order.
use vstd::prelude::*;

verus! {

/// The predecessor table is well formed: it has one slot per token, every
/// predecessor names an existing edge, and every edge starts at a token.
pub open spec fn pred_table_ok(num_tokens: nat, edge_from: Seq<usize>, pred_edge: Seq<Option<usize>>) -> bool {
    &&& pred_edge.len() == num_tokens
    &&& forall|v: int| 0 <= v < num_tokens ==> match #[trigger] pred_edge[v] {
        Some(k) => k < edge_from.len(),
        None => true,
    }
    &&& forall|k: int| 0 <= k < edge_from.len() ==> #[trigger] edge_from[k] < num_tokens
}

/// The token reached from `node` by following predecessor edges `steps`
/// times, or `None` when a token on the way has no predecessor.
pub open spec fn walk_back(
    edge_from: Seq<usize>,
    pred_edge: Seq<Option<usize>>,
    node: usize,
    steps: nat,
) -> Option<usize>
    decreases steps,
{
    if steps == 0 {
        Some(node)
    } else {
        match pred_edge[node as int] {
            None => None,
            Some(k) => walk_back(edge_from, pred_edge, edge_from[k as int], (steps - 1) as nat),
        }
    }
}

/// The predecessor edges met when walking back from `cur` until `start` is
/// reached again, most recent edge first; `None` when a token has no
/// predecessor or more than `bound` edges would be needed.
pub open spec fn back_edges(
    edge_from: Seq<usize>,
    pred_edge: Seq<Option<usize>>,
    start: usize,
    cur: usize,
    bound: nat,
) -> Option<Seq<usize>>
    decreases bound,
{
    if bound == 0 {
        None
    } else {
        match pred_edge[cur as int] {
            None => None,
            Some(k) => if edge_from[k as int] == start {
                Some(seq![k])
            } else {
                match back_edges(edge_from, pred_edge, start, edge_from[k as int], (bound - 1) as nat) {
                    Some(rest) => Some(seq![k] + rest),
                    None => None,
                }
            },
        }
    }
}

/// The cycle reported for a search whose last pass relaxed `last_updated`:
/// walk back `num_tokens` steps to land on the cycle, then collect the
/// cycle's edges (at most `num_tokens + 2`) and put them in travel order.
pub open spec fn traced_cycle(
    num_tokens: nat,
    edge_from: Seq<usize>,
    pred_edge: Seq<Option<usize>>,
    last_updated: usize,
) -> Option<Seq<usize>> {
    match walk_back(edge_from, pred_edge, last_updated, num_tokens) {
        None => None,
        Some(start) => match back_edges(edge_from, pred_edge, start, start, num_tokens + 2) {
            None => None,
            Some(edges) => Some(edges.reverse()),
        },
    }
}

/// `nodes` is a walk along predecessor edges: from each token, the edge
/// recorded for it departs from the next token of `nodes`.
pub open spec fn walks_back_along(edge_from: Seq<usize>, pred_edge: Seq<Option<usize>>, nodes: Seq<usize>) -> bool {
    forall|k: int|
        0 <= k < nodes.len() - 1 ==> (#[trigger] pred_edge[nodes[k] as int]) is Some
            && edge_from[pred_edge[nodes[k] as int]->Some_0 as int] == nodes[k + 1]
}

/// `c` lists, in travel order, a cycle of predecessor edges through
/// `start`: it leaves `start`, each edge is the one recorded for the token
/// it enters, the last one enters `start`, and `start` is not passed in
/// between.
pub open spec fn is_pred_cycle(edge_from: Seq<usize>, pred_edge: Seq<Option<usize>>, start: usize, c: Seq<usize>) -> bool {
    &&& c.len() > 0
    &&& edge_from[c[0] as int] == start
    &&& forall|i: int| 0 < i < c.len() ==> edge_from[#[trigger] c[i] as int] != start
    &&& forall|i: int| 0 <= i < c.len() - 1 ==> pred_edge[edge_from[#[trigger] c[i + 1] as int] as int] == Some(c[i])
    &&& pred_edge[start as int] == Some(c.last())
}

/// Following a predecessor walk of `num_tokens` steps ends where the walk
/// ends.
proof fn lemma_walk_back_follows(
    edge_from: Seq<usize>,
    pred_edge: Seq<Option<usize>>,
    nodes: Seq<usize>,
    k: int,
)
    requires
        nodes.len() > 0,
        0 <= k < nodes.len(),
        walks_back_along(edge_from, pred_edge, nodes),
    ensures
        walk_back(edge_from, pred_edge, nodes[k], (nodes.len() - 1 - k) as nat) == Some(nodes.last()),
    decreases nodes.len() - 1 - k,
{
    if k < nodes.len() - 1 {
        assert(pred_edge[nodes[k] as int] is Some);
        lemma_walk_back_follows(edge_from, pred_edge, nodes, k + 1);
    }
}

/// Walking back from the token entered by edge `c[j]` (from `start` once
/// `j` is the cycle's length) collects `c[j - 1], …, c[0]`.
proof fn lemma_back_edges_collects(
    edge_from: Seq<usize>,
    pred_edge: Seq<Option<usize>>,
    start: usize,
    c: Seq<usize>,
    j: int,
    bound: nat,
)
    requires
        is_pred_cycle(edge_from, pred_edge, start, c),
        1 <= j <= c.len(),
        bound >= j,
    ensures
        back_edges(
            edge_from,
            pred_edge,
            start,
            if j == c.len() { start } else { edge_from[c[j] as int] },
            bound,
        ) == Some(c.subrange(0, j).reverse()),
    decreases j,
{
    let cur = if j == c.len() { start } else { edge_from[c[j] as int] };
    if j < c.len() {
        assert(pred_edge[edge_from[c[(j - 1) + 1] as int] as int] == Some(c[j - 1]));
    }
    assert(pred_edge[cur as int] == Some(c[j - 1]));
    if j == 1 {
        assert(c.subrange(0, 1).reverse() =~= seq![c[0]]);
    } else {
        assert(edge_from[c[j - 1] as int] != start);
        lemma_back_edges_collects(edge_from, pred_edge, start, c, j - 1, (bound - 1) as nat);
        assert(seq![c[j - 1]] + c.subrange(0, j - 1).reverse() =~= c.subrange(0, j).reverse());
    }
}

/// Cycle recovery law: if walking back `num_tokens` predecessor steps from
/// `last_updated` lands on a token that lies on a predecessor cycle of at
/// most `num_tokens + 2` edges, that cycle is what is recovered, in travel
/// order.
pub proof fn lemma_trace_recovers_pred_cycle(
    num_tokens: nat,
    edge_from: Seq<usize>,
    pred_edge: Seq<Option<usize>>,
    last_updated: usize,
    nodes: Seq<usize>,
    c: Seq<usize>,
)
    requires
        nodes.len() == num_tokens + 1,
        nodes[0] == last_updated,
        walks_back_along(edge_from, pred_edge, nodes),
        is_pred_cycle(edge_from, pred_edge, nodes.last(), c),
        c.len() <= num_tokens + 2,
    ensures
        traced_cycle(num_tokens, edge_from, pred_edge, last_updated) == Some(c),
{
    lemma_walk_back_follows(edge_from, pred_edge, nodes, 0);
    let start = nodes.last();
    lemma_back_edges_collects(edge_from, pred_edge, start, c, c.len() as int, num_tokens + 2);
    assert(c.subrange(0, c.len() as int) =~= c);
    assert(c.reverse().reverse() =~= c);
}

/// The tokens met when walking back `steps` predecessor edges from `node`,
/// `node` first (cut short where a token has no predecessor).
pub open spec fn walk_nodes(edge_from: Seq<usize>, pred_edge: Seq<Option<usize>>, node: usize, steps: nat) -> Seq<usize>
    decreases steps,
{
    if steps == 0 {
        seq![node]
    } else {
        match pred_edge[node as int] {
            None => seq![node],
            Some(k) => seq![node] + walk_nodes(edge_from, pred_edge, edge_from[k as int], (steps - 1) as nat),
        }
    }
}

/// A walk back that does not break is a predecessor walk of `steps + 1`
/// tokens from `node` to where it lands.
proof fn lemma_walk_nodes(edge_from: Seq<usize>, pred_edge: Seq<Option<usize>>, node: usize, steps: nat)
    requires
        walk_back(edge_from, pred_edge, node, steps) is Some,
    ensures
        walk_nodes(edge_from, pred_edge, node, steps).len() == steps + 1,
        walk_nodes(edge_from, pred_edge, node, steps)[0] == node,
        walk_nodes(edge_from, pred_edge, node, steps).last() == walk_back(edge_from, pred_edge, node, steps)->Some_0,
        walks_back_along(edge_from, pred_edge, walk_nodes(edge_from, pred_edge, node, steps)),
    decreases steps,
{
    if steps > 0 {
        let k = pred_edge[node as int]->Some_0;
        let next = edge_from[k as int];
        lemma_walk_nodes(edge_from, pred_edge, next, (steps - 1) as nat);
        let rest = walk_nodes(edge_from, pred_edge, next, (steps - 1) as nat);
        let w = seq![node] + rest;
        assert forall|i: int| 0 <= i < w.len() - 1 implies (#[trigger] pred_edge[w[i] as int]) is Some
            && edge_from[pred_edge[w[i] as int]->Some_0 as int] == w[i + 1] by {
            if i > 0 {
                assert(w[i] == rest[i - 1]);
                assert(w[i + 1] == rest[i]);
                assert(pred_edge[rest[i - 1] as int] is Some);
            }
        }
    }
}

/// What walking back from `cur` to `start` collects: the edges recorded
/// for the tokens passed, most recent first, the last one leaving `start`
/// and no earlier one leaving it.
proof fn lemma_back_edges_sound(
    edge_from: Seq<usize>,
    pred_edge: Seq<Option<usize>>,
    start: usize,
    cur: usize,
    bound: nat,
)
    requires
        back_edges(edge_from, pred_edge, start, cur, bound) is Some,
    ensures
        ({
            let s = back_edges(edge_from, pred_edge, start, cur, bound)->Some_0;
            &&& 0 < s.len() <= bound
            &&& pred_edge[cur as int] == Some(s[0])
            &&& forall|i: int| 0 <= i < s.len() - 1 ==> pred_edge[edge_from[#[trigger] s[i] as int] as int] == Some(s[i + 1])
            &&& forall|i: int| 0 <= i < s.len() - 1 ==> edge_from[#[trigger] s[i] as int] != start
            &&& edge_from[s.last() as int] == start
        }),
    decreases bound,
{
    let k = pred_edge[cur as int]->Some_0;
    if edge_from[k as int] != start {
        let next = edge_from[k as int];
        lemma_back_edges_sound(edge_from, pred_edge, start, next, (bound - 1) as nat);
        let rest = back_edges(edge_from, pred_edge, start, next, (bound - 1) as nat)->Some_0;
        let s = seq![k] + rest;
        assert forall|i: int| 0 <= i < s.len() - 1 implies pred_edge[edge_from[#[trigger] s[i] as int] as int] == Some(s[i + 1]) by {
            if i > 0 {
                assert(s[i] == rest[i - 1]);
                assert(s[i + 1] == rest[i]);
            }
        }
        assert forall|i: int| 0 <= i < s.len() - 1 implies edge_from[#[trigger] s[i] as int] != start by {
            if i > 0 {
                assert(s[i] == rest[i - 1]);
            }
        }
    }
}

/// Cycle soundness law: a recovered cycle is a predecessor cycle of at
/// most `num_tokens + 2` edges, in travel order, through the token reached
/// by walking back `num_tokens` predecessor steps from `last_updated`.
pub proof fn lemma_traced_cycle_is_pred_cycle(
    num_tokens: nat,
    edge_from: Seq<usize>,
    pred_edge: Seq<Option<usize>>,
    last_updated: usize,
)
    requires
        traced_cycle(num_tokens, edge_from, pred_edge, last_updated) is Some,
    ensures
        ({
            let nodes = walk_nodes(edge_from, pred_edge, last_updated, num_tokens);
            let c = traced_cycle(num_tokens, edge_from, pred_edge, last_updated)->Some_0;
            &&& nodes.len() == num_tokens + 1
            &&& nodes[0] == last_updated
            &&& walks_back_along(edge_from, pred_edge, nodes)
            &&& is_pred_cycle(edge_from, pred_edge, nodes.last(), c)
            &&& c.len() <= num_tokens + 2
        }),
{
    lemma_walk_nodes(edge_from, pred_edge, last_updated, num_tokens);
    let start = walk_back(edge_from, pred_edge, last_updated, num_tokens)->Some_0;
    lemma_back_edges_sound(edge_from, pred_edge, start, start, num_tokens + 2);
    let s = back_edges(edge_from, pred_edge, start, start, num_tokens + 2)->Some_0;
    let c = s.reverse();
    let n = s.len();
    assert(c[0] == s[n - 1]);
    assert(c.last() == s[0]);
    assert forall|i: int| 0 < i < c.len() implies edge_from[#[trigger] c[i] as int] != start by {
        assert(c[i] == s[n - 1 - i]);
    }
    assert forall|i: int| 0 <= i < c.len() - 1 implies pred_edge[edge_from[#[trigger] c[i + 1] as int] as int] == Some(c[i]) by {
        assert(c[i + 1] == s[n - 2 - i]);
        assert(c[i] == s[n - 1 - i]);
    }
}

/// Recover the negative cycle after a Bellman-Ford search.
///
/// `edge_from[k]` is the source token of edge `k`, `pred_edge[v]` the edge
/// that last relaxed token `v`, and `last_updated` a token relaxed in the
/// final pass.  Returns the cycle's edge indices in travel order, or
/// `None` if the predecessor chain breaks or does not close within
/// `num_tokens + 2` edges.
pub fn trace_negative_cycle(
    num_tokens: usize,
    edge_from: &[usize],
    pred_edge: &[Option<usize>],
    last_updated: usize,
) -> (r: Option<Vec<usize>>)
    requires
        pred_table_ok(num_tokens as nat, edge_from@, pred_edge@),
        last_updated < num_tokens,
    ensures
        r matches Some(c) ==> traced_cycle(num_tokens as nat, edge_from@, pred_edge@, last_updated) == Some(c@),
        r is None ==> traced_cycle(num_tokens as nat, edge_from@, pred_edge@, last_updated) is None,
        forall|nodes: Seq<usize>, c: Seq<usize>|
            #![trigger walks_back_along(edge_from@, pred_edge@, nodes), is_pred_cycle(edge_from@, pred_edge@, nodes.last(), c)]
            nodes.len() == num_tokens + 1 && nodes[0] == last_updated && walks_back_along(edge_from@, pred_edge@, nodes)
                && is_pred_cycle(edge_from@, pred_edge@, nodes.last(), c) && c.len() <= num_tokens + 2
                ==> (r matches Some(v) && v@ == c),
        r matches Some(v) ==> exists|nodes: Seq<usize>|
            #![trigger walks_back_along(edge_from@, pred_edge@, nodes)]
            nodes.len() == num_tokens + 1 && nodes[0] == last_updated && walks_back_along(edge_from@, pred_edge@, nodes)
                && is_pred_cycle(edge_from@, pred_edge@, nodes.last(), v@) && v@.len() <= num_tokens + 2,
{
    let r = trace_cycle_edges(num_tokens, edge_from, pred_edge, last_updated);
    assert forall|nodes: Seq<usize>, c: Seq<usize>|
        #![trigger walks_back_along(edge_from@, pred_edge@, nodes), is_pred_cycle(edge_from@, pred_edge@, nodes.last(), c)]
        nodes.len() == num_tokens + 1 && nodes[0] == last_updated && walks_back_along(edge_from@, pred_edge@, nodes)
            && is_pred_cycle(edge_from@, pred_edge@, nodes.last(), c) && c.len() <= num_tokens + 2
            implies (r matches Some(v) && v@ == c) by {
        lemma_trace_recovers_pred_cycle(num_tokens as nat, edge_from@, pred_edge@, last_updated, nodes, c);
    }
    if let Some(v) = &r {
        proof {
            lemma_traced_cycle_is_pred_cycle(num_tokens as nat, edge_from@, pred_edge@, last_updated);
            let nodes = walk_nodes(edge_from@, pred_edge@, last_updated, num_tokens as nat);
            assert(walks_back_along(edge_from@, pred_edge@, nodes));
        }
    }
    r
}

/// The walk itself: its result is the cycle that [`traced_cycle`]
/// describes.
fn trace_cycle_edges(
    num_tokens: usize,
    edge_from: &[usize],
    pred_edge: &[Option<usize>],
    last_updated: usize,
) -> (r: Option<Vec<usize>>)
    requires
        pred_table_ok(num_tokens as nat, edge_from@, pred_edge@),
        last_updated < num_tokens,
    ensures
        r matches Some(c) ==> traced_cycle(num_tokens as nat, edge_from@, pred_edge@, last_updated) == Some(c@),
        r is None ==> traced_cycle(num_tokens as nat, edge_from@, pred_edge@, last_updated) is None,
{
    let mut node = last_updated;
    for i in 0..num_tokens
        invariant
            pred_table_ok(num_tokens as nat, edge_from@, pred_edge@),
            node < num_tokens,
            walk_back(edge_from@, pred_edge@, last_updated, num_tokens as nat)
                == walk_back(edge_from@, pred_edge@, node, (num_tokens - i) as nat),
    {
        let edge_idx = match pred_edge[node] {
            Some(k) => k,
            None => return None,
        };
        node = edge_from[edge_idx];
    }
    let start = node;
    let mut cycle_edges: Vec<usize> = Vec::new();
    let mut cur = start;
    loop
        invariant_except_break
            pred_table_ok(num_tokens as nat, edge_from@, pred_edge@),
            start < num_tokens,
            cur < num_tokens,
            walk_back(edge_from@, pred_edge@, last_updated, num_tokens as nat) == Some(start),
            cycle_edges@.len() <= num_tokens + 1,
            back_edges(edge_from@, pred_edge@, start, start, num_tokens as nat + 2) == match back_edges(
                edge_from@,
                pred_edge@,
                start,
                cur,
                (num_tokens + 2 - cycle_edges@.len()) as nat,
            ) {
                Some(rest) => Some(cycle_edges@ + rest),
                None => None::<Seq<usize>>,
            },
            cycle_edges@.len() > 0 ==> cur != start,
        ensures
            back_edges(edge_from@, pred_edge@, start, start, num_tokens as nat + 2) == Some(cycle_edges@),
        decreases num_tokens + 2 - cycle_edges@.len(),
    {
        let edge_idx = match pred_edge[cur] {
            Some(k) => k,
            None => return None,
        };
        cycle_edges.push(edge_idx);
        cur = edge_from[edge_idx];
        if cur == start {
            break;
        }
        if cycle_edges.len() - 1 > num_tokens {
            return None;
        }
    }
    Some(reversed(&cycle_edges))
}

/// The elements of `v` in reverse order.
fn reversed(v: &Vec<usize>) -> (r: Vec<usize>)
    ensures
        r@ == v@.reverse(),
{
    let mut r: Vec<usize> = Vec::new();
    let mut i = v.len();
    while i > 0
        invariant
            i <= v.len(),
            r@ == v@.subrange(i as int, v.len() as int).reverse(),
        decreases i,
    {
        i = i - 1;
        r.push(v[i]);
        assert(v@.subrange(i as int, v.len() as int).reverse() =~= v@.subrange(
            i + 1,
            v.len() as int,
        ).reverse().push(v@[i as int]));
    }
    assert(v@.subrange(0, v.len() as int) =~= v@);
    r
}

/// Every predecessor edge arrives at the token it is recorded for (the
/// relaxation step records `pred_edge[to] = k` for an edge `k` into `to`).
pub open spec fn pred_edges_arrive(edge_to: Seq<usize>, pred_edge: Seq<Option<usize>>) -> bool {
    forall|v: int| 0 <= v < pred_edge.len() ==> match #[trigger] pred_edge[v] {
        Some(k) => k < edge_to.len() && edge_to[k as int] == v,
        None => true,
    }
}

/// `c` is a closed walk in the token graph: each edge ends where the next
/// one starts, and the last edge ends where the first one starts.
pub open spec fn is_closed_walk(edge_from: Seq<usize>, edge_to: Seq<usize>, c: Seq<usize>) -> bool {
    &&& c.len() > 0
    &&& forall|i: int| 0 <= i < c.len() ==> #[trigger] c[i] < edge_from.len() && c[i] < edge_to.len()
    &&& forall|i: int| 0 <= i < c.len() - 1 ==> edge_to[#[trigger] c[i] as int] == edge_from[c[i + 1] as int]
    &&& edge_to[c.last() as int] == edge_from[c[0] as int]
}

/// Walking back from `cur` to `start` yields edges in reverse travel order:
/// the first one arrives at `cur`, each one arrives where the one before it
/// in the list departs, and the last one departs from `start`.
proof fn lemma_back_edges_chain(
    num_tokens: nat,
    edge_from: Seq<usize>,
    edge_to: Seq<usize>,
    pred_edge: Seq<Option<usize>>,
    start: usize,
    cur: usize,
    bound: nat,
)
    requires
        pred_table_ok(num_tokens, edge_from, pred_edge),
        edge_to.len() == edge_from.len(),
        pred_edges_arrive(edge_to, pred_edge),
        cur < num_tokens,
    ensures
        back_edges(edge_from, pred_edge, start, cur, bound) matches Some(s) ==> {
            &&& s.len() > 0
            &&& forall|i: int| 0 <= i < s.len() ==> #[trigger] s[i] < edge_from.len()
            &&& edge_to[s[0] as int] == cur
            &&& forall|i: int| 0 <= i < s.len() - 1 ==> edge_from[#[trigger] s[i] as int] == edge_to[s[i + 1] as int]
            &&& edge_from[s.last() as int] == start
        },
    decreases bound,
{
    if bound > 0 {
        match pred_edge[cur as int] {
            None => {},
            Some(k) => {
                if edge_from[k as int] != start {
                    lemma_back_edges_chain(num_tokens, edge_from, edge_to, pred_edge, start, edge_from[k as int], (bound - 1) as nat);
                    match back_edges(edge_from, pred_edge, start, edge_from[k as int], (bound - 1) as nat) {
                        Some(rest) => {
                            let s = seq![k] + rest;
                            assert forall|i: int| 0 <= i < s.len() - 1 implies edge_from[#[trigger] s[i] as int] == edge_to[s[i + 1] as int] by {
                                if i > 0 {
                                    assert(s[i] == rest[i - 1]);
                                    assert(s[i + 1] == rest[i]);
                                }
                            }
                            assert forall|i: int| 0 <= i < s.len() implies #[trigger] s[i] < edge_from.len() by {
                                if i > 0 {
                                    assert(s[i] == rest[i - 1]);
                                }
                            }
                        },
                        None => {},
                    }
                }
            },
        }
    }
}

/// A cycle recovered from a consistent predecessor table is a closed walk
/// in the token graph: following its edges in the returned order leads
/// back to the token it started from.
pub proof fn lemma_traced_cycle_is_closed(
    num_tokens: nat,
    edge_from: Seq<usize>,
    edge_to: Seq<usize>,
    pred_edge: Seq<Option<usize>>,
    last_updated: usize,
)
    requires
        pred_table_ok(num_tokens, edge_from, pred_edge),
        edge_to.len() == edge_from.len(),
        pred_edges_arrive(edge_to, pred_edge),
        last_updated < num_tokens,
    ensures
        traced_cycle(num_tokens, edge_from, pred_edge, last_updated) matches Some(c)
            ==> is_closed_walk(edge_from, edge_to, c),
{
    lemma_walk_back_stays(num_tokens, edge_from, pred_edge, last_updated, num_tokens);
    match walk_back(edge_from, pred_edge, last_updated, num_tokens) {
        None => {},
        Some(start) => {
            lemma_back_edges_chain(num_tokens, edge_from, edge_to, pred_edge, start, start, num_tokens + 2);
            match back_edges(edge_from, pred_edge, start, start, num_tokens + 2) {
                None => {},
                Some(s) => {
                    let c = s.reverse();
                    let n = s.len();
                    assert forall|i: int| 0 <= i < c.len() implies #[trigger] c[i] < edge_from.len() && c[i] < edge_to.len() by {
                        assert(c[i] == s[n - 1 - i]);
                    }
                    assert forall|i: int| 0 <= i < c.len() - 1 implies edge_to[#[trigger] c[i] as int] == edge_from[c[i + 1] as int] by {
                        assert(c[i] == s[n - 1 - i]);
                        assert(c[i + 1] == s[n - 2 - i]);
                        assert(edge_from[s[n - 2 - i] as int] == edge_to[s[n - 1 - i] as int]);
                    }
                    assert(c.last() == s[0]);
                    assert(c[0] == s.last());
                },
            }
        },
    }
}

/// Walking back from a token only ever reaches tokens.
proof fn lemma_walk_back_stays(
    num_tokens: nat,
    edge_from: Seq<usize>,
    pred_edge: Seq<Option<usize>>,
    node: usize,
    steps: nat,
)
    requires
        pred_table_ok(num_tokens, edge_from, pred_edge),
        node < num_tokens,
    ensures
        walk_back(edge_from, pred_edge, node, steps) matches Some(v) ==> v < num_tokens,
    decreases steps,
{
    if steps > 0 {
        match pred_edge[node as int] {
            None => {},
            Some(k) => lemma_walk_back_stays(num_tokens, edge_from, pred_edge, edge_from[k as int], (steps - 1) as nat),
        }
    }
}

} // verus!
