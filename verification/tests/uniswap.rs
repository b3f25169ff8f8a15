use hfthot_lab_core::uniswap::cyclic_arb::trace_negative_cycle;
use hfthot_lab_core::uniswap::pool_state::read_snapshot;
use hfthot_lab_core::uniswap::quoter::quote_exact_input;
use hfthot_lab_core::uniswap::subgraph::top_pools_by_volume;
use hfthot_lab_core::uniswap::UniswapError;

#[test]
fn read_snapshot_is_not_implemented() {
    let r = read_snapshot("0x8ad599c3a0ff1de082011efddc58f1908eb6e6d8");
    assert!(matches!(r, Err(UniswapError::NotImplemented)));
}

#[test]
fn quote_exact_input_is_not_implemented() {
    let r = quote_exact_input("WETH", "USDC", 1_000_000_000_000_000_000, 500);
    assert!(matches!(r, Err(UniswapError::NotImplemented)));
}

#[test]
fn top_pools_by_volume_is_not_implemented() {
    assert!(matches!(top_pools_by_volume(10), Err(UniswapError::NotImplemented)));
}

#[test]
fn trace_cycle_on_triangle() {
    // Edges 0: 0→1, 1: 1→2, 2: 2→0; each token was last relaxed by its incoming edge.
    let edge_from = vec![0, 1, 2];
    let pred = vec![Some(2), Some(0), Some(1)];
    let cycle = trace_negative_cycle(3, &edge_from, &pred, 1).expect("cycle");
    assert_eq!(cycle.len(), 3);
    // Travel order: each edge starts where the previous one ended.
    let edge_to = [1, 2, 0];
    for w in 0..cycle.len() {
        let next = cycle[(w + 1) % cycle.len()];
        assert_eq!(edge_to[cycle[w]], edge_from[next]);
    }
}

#[test]
fn trace_cycle_starts_from_landing_token() {
    // Walking back 3 steps from token 1 lands on token 1 again (0 ← 2 ← 1 ← 0 …):
    // 1 → pred 0 → token 0 → pred 2 → token 2 → pred 1 → token 1.
    let edge_from = vec![0, 1, 2];
    let pred = vec![Some(2), Some(0), Some(1)];
    let cycle = trace_negative_cycle(3, &edge_from, &pred, 1).unwrap();
    // Collected backwards from token 1: edges 0, 2, 1; reversed: 1, 2, 0.
    assert_eq!(cycle, vec![1, 2, 0]);
}

#[test]
fn trace_cycle_through_tail() {
    // Tokens 0,1 form a 2-cycle (edges 0: 0→1, 1: 1→0); token 2 hangs off it (edge 2: 1→2).
    let edge_from = vec![0, 1, 1];
    let pred = vec![Some(1), Some(0), Some(2)];
    let cycle = trace_negative_cycle(3, &edge_from, &pred, 2).unwrap();
    assert_eq!(cycle.len(), 2);
    assert!(cycle.contains(&0) && cycle.contains(&1));
}

#[test]
fn trace_cycle_broken_chain_is_none() {
    // Token 0 has no predecessor, so the walk back breaks.
    let edge_from = vec![0];
    let pred = vec![None, Some(0)];
    assert_eq!(trace_negative_cycle(2, &edge_from, &pred, 1), None);
}
