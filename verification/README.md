# hfthot_lab_core

Quantitative-finance research primitives: limit-order-book and portfolio
analytics, AMM (Uniswap v2/v3) math, geometric and topological market
signals, agent-based simulation, path signatures and estimation
algorithms, with Python bindings.

## Layout

- `src/` — the library checked by Verus. It holds the parts whose
  behaviour is decided on integers, indices and values that are only moved
  around, each with a contract:
  - `functional::compose` — `identity`, `pipe`, `pipe3`, `compose`,
    `chain`, `chain3`, `tap`, `tap_ok`, `tap_err`, `retry`, described by
    the `requires`/`ensures` of the functions they combine;
  - `uniswap` — the error type, the pool snapshot and the (not yet wired)
    chain connectors, plus the recovery of the negative cycle found by
    Bellman-Ford (`cyclic_arb::trace_negative_cycle`), proved to be a
    closed walk;
  - `signature::lead_lag_transform`;
  - `optimization` — Viterbi backtracking, histogram and joint histogram
    counts, quantile segmentation for HMM initialisation, and the donor
    draw of differential evolution (through `rand`);
  - `portfolio` — window sizes and window layout of the rescaled-range
    Hurst estimator;
  - `meanrev` — the rebalance schedule of the multi-period CARA optimiser;
  - `geometric_signals` — triangle enumeration and cycle edges for gauge
    curvature, and the coboundary operator of a directed graph.
- `app/` — the floating-point models (analytics, backtesting, AMM pricing,
  spectral and optimal-transport signals, Chiarella simulation, HMM
  fitting, Rough Heston pricing, mean-reversion portfolios) and the PyO3
  bindings, calling into `src/` for the index-level steps.
- `tests/` — tests of the library.
