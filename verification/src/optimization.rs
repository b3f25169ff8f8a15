//! # Discrete pieces of the estimation algorithms
//!
//! Viterbi decoding ends by following the back-pointer table from the
//! most likely final state; the histogram estimators of entropy and mutual
//! information count how many observations fall in each bin.  The
//! floating-point parts (likelihoods, bin edges, logarithms) are outside
//! this module; what is here works on state and bin indices.
use vstd::prelude::*;

verus! {

/// The back-pointer table is well formed for `n_states` states: one row
/// per time step, one entry per state, every entry a state.
pub open spec fn psi_table_ok(psi: Seq<Seq<usize>>, n_states: nat) -> bool {
    forall|t: int|
        0 <= t < psi.len() ==> (#[trigger] psi[t]).len() == n_states && forall|s: int|
            0 <= s < n_states ==> #[trigger] psi[t][s] < n_states
}

/// Backtrack the most likely state path from the Viterbi back-pointers.
///
/// `psi[t][s]` is the best predecessor of state `s` at time `t`, and
/// `last_state` the most likely state at the final step.  The path ends
/// in `last_state` and each state is the back-pointer of the next one.
pub fn viterbi_backtrack(psi: &Vec<Vec<usize>>, n_states: usize, last_state: usize) -> (path: Vec<usize>)
    requires
        psi@.len() > 0,
        psi_table_ok(psi@.map_values(|row: Vec<usize>| row@), n_states as nat),
        last_state < n_states,
    ensures
        path@.len() == psi@.len(),
        path@.last() == last_state,
        forall|t: int| 0 <= t < path@.len() - 1 ==> #[trigger] path@[t] == psi@[t + 1]@[path@[t + 1] as int],
        forall|t: int| 0 <= t < path@.len() ==> #[trigger] path@[t] < n_states,
{
    let n_obs = psi.len();
    let ghost rows = psi@.map_values(|row: Vec<usize>| row@);
    let mut path: Vec<usize> = Vec::new();
    let mut i: usize = 0;
    while i < n_obs
        invariant
            i <= n_obs,
            path@.len() == i,
            forall|t: int| 0 <= t < i ==> #[trigger] path@[t] == 0,
        decreases n_obs - i,
    {
        path.push(0);
        i = i + 1;
    }
    path.set(n_obs - 1, last_state);
    let mut t = n_obs - 1;
    while t > 0
        invariant
            n_obs == psi@.len(),
            path@.len() == n_obs,
            rows == psi@.map_values(|row: Vec<usize>| row@),
            psi_table_ok(rows, n_states as nat),
            t < n_obs,
            path@[n_obs - 1] == last_state,
            last_state < n_states,
            forall|k: int| t <= k < n_obs ==> #[trigger] path@[k] < n_states,
            forall|k: int| t <= k < n_obs - 1 ==> #[trigger] path@[k] == psi@[k + 1]@[path@[k + 1] as int],
        decreases t,
    {
        assert(rows[t as int] == psi@[t as int]@);
        let prev = psi[t][path[t]];
        t = t - 1;
        path.set(t, prev);
    }
    path
}

/// The bin an index falls in when everything past the last bin is put in it.
pub open spec fn clamp_bin(b: usize, n_bins: nat) -> nat {
    if b < n_bins { b as nat } else { (n_bins - 1) as nat }
}

/// How many of `bins` fall in bin `b` (after clamping to `n_bins` bins).
pub open spec fn bin_count(bins: Seq<usize>, n_bins: nat, b: nat) -> nat
    decreases bins.len(),
{
    if bins.len() == 0 {
        0
    } else {
        bin_count(bins.drop_last(), n_bins, b) + if clamp_bin(bins.last(), n_bins) == b { 1nat } else { 0nat }
    }
}

/// How many positions `k` put `xs[k]` in bin `i` and `ys[k]` in bin `j`.
pub open spec fn joint_bin_count(xs: Seq<usize>, ys: Seq<usize>, n_bins: nat, i: nat, j: nat) -> nat
    decreases xs.len(),
{
    if xs.len() == 0 || ys.len() == 0 {
        0
    } else {
        joint_bin_count(xs.drop_last(), ys.drop_last(), n_bins, i, j) + if clamp_bin(xs.last(), n_bins) == i
            && clamp_bin(ys.last(), n_bins) == j { 1nat } else { 0nat }
    }
}

/// Index `x` belongs to bin `b` of `n_bins`: an inner bin holds exactly its
/// own index, the last bin holds its index and every index past it.
pub open spec fn lands_in(x: usize, b: nat, n_bins: nat) -> bool {
    if b + 1 < n_bins { x == b } else { x >= b }
}

/// The paired indices `(xs[k], ys[k])`.
pub open spec fn paired(xs: Seq<usize>, ys: Seq<usize>) -> Seq<(usize, usize)> {
    Seq::new(xs.len(), |k: int| (xs[k], ys[k]))
}

/// Histogram law: bin `b < n_bins` counts the indices equal to `b`, except
/// the last bin, which counts every index at or past it.
pub proof fn lemma_bin_count_is_occurrences(bins: Seq<usize>, n_bins: nat, b: nat)
    requires
        b < n_bins,
    ensures
        bin_count(bins, n_bins, b) == bins.filter(|x: usize| lands_in(x, b, n_bins)).len(),
    decreases bins.len(),
{
    reveal(Seq::filter);
    if bins.len() > 0 {
        lemma_bin_count_is_occurrences(bins.drop_last(), n_bins, b);
    }
}

/// Joint histogram law: cell `(i, j)` counts the pairs whose first index
/// belongs to bin `i` and second index to bin `j`, the last bin of each
/// axis taking every index at or past it.
pub proof fn lemma_joint_bin_count_is_occurrences(xs: Seq<usize>, ys: Seq<usize>, n_bins: nat, i: nat, j: nat)
    requires
        xs.len() == ys.len(),
        i < n_bins,
        j < n_bins,
    ensures
        joint_bin_count(xs, ys, n_bins, i, j) == paired(xs, ys).filter(
            |q: (usize, usize)| lands_in(q.0, i, n_bins) && lands_in(q.1, j, n_bins),
        ).len(),
    decreases xs.len(),
{
    reveal(Seq::filter);
    if xs.len() > 0 {
        lemma_joint_bin_count_is_occurrences(xs.drop_last(), ys.drop_last(), n_bins, i, j);
        assert(paired(xs, ys).drop_last() =~= paired(xs.drop_last(), ys.drop_last()));
    }
}

/// Sum of a sequence of counts.
pub open spec fn total(s: Seq<usize>) -> nat
    decreases s.len(),
{
    if s.len() == 0 { 0 } else { total(s.drop_last()) + s.last() as nat }
}

/// Adding one to an entry adds one to the total.
proof fn lemma_total_bump(s: Seq<usize>, j: int)
    requires
        0 <= j < s.len(),
        s[j] < usize::MAX,
    ensures
        total(s.update(j, (s[j] + 1) as usize)) == total(s) + 1,
    decreases s.len(),
{
    let t = s.update(j, (s[j] + 1) as usize);
    if j == s.len() - 1 {
        assert(t.drop_last() =~= s.drop_last());
    } else {
        lemma_total_bump(s.drop_last(), j);
        assert(t.drop_last() =~= s.drop_last().update(j, (s[j] + 1) as usize));
    }
}

/// Histogram of bin indices: entry `b` counts the indices that fall in bin
/// `b`, an index past the last bin being counted in the last bin.
///
/// The counts add up to the number of indices.
pub fn bin_counts(bins: &[usize], n_bins: usize) -> (counts: Vec<usize>)
    requires
        n_bins > 0,
    ensures
        counts@.len() == n_bins,
        forall|b: int| 0 <= b < n_bins ==> #[trigger] counts@[b] == bin_count(bins@, n_bins as nat, b as nat),
        forall|b: int| 0 <= b < n_bins ==> #[trigger] counts@[b] == bins@.filter(
            |x: usize| lands_in(x, b as nat, n_bins as nat),
        ).len(),
        total(counts@) == bins@.len(),
{
    let mut counts: Vec<usize> = Vec::new();
    let mut b: usize = 0;
    while b < n_bins
        invariant
            b <= n_bins,
            counts@.len() == b,
            forall|c: int| 0 <= c < b ==> #[trigger] counts@[c] == 0,
            total(counts@) == 0,
        decreases n_bins - b,
    {
        assert(counts@.push(0).drop_last() =~= counts@);
        counts.push(0);
        b = b + 1;
    }
    assert(bins@.subrange(0, 0) =~= Seq::<usize>::empty());
    for k in 0..bins.len()
        invariant
            n_bins > 0,
            counts@.len() == n_bins,
            forall|c: int| 0 <= c < n_bins ==> #[trigger] counts@[c] == bin_count(bins@.subrange(0, k as int), n_bins as nat, c as nat),
            total(counts@) == k,
    {
        let bin = if bins[k] < n_bins { bins[k] } else { n_bins - 1 };
        let ghost prefix = bins@.subrange(0, k as int);
        let ghost next = bins@.subrange(0, k + 1);
        assert(next.drop_last() =~= prefix);
        proof {
            lemma_count_bounded(prefix, n_bins as nat, bin as nat);
            lemma_total_bump(counts@, bin as int);
        }
        let c = counts[bin];
        counts.set(bin, c + 1);
    }
    assert(bins@.subrange(0, bins@.len() as int) =~= bins@);
    assert forall|b: int| 0 <= b < n_bins implies #[trigger] counts@[b] == bins@.filter(
        |x: usize| lands_in(x, b as nat, n_bins as nat),
    ).len() by {
        lemma_bin_count_is_occurrences(bins@, n_bins as nat, b as nat);
    }
    counts
}

/// A bin never holds more indices than there are.
proof fn lemma_count_bounded(bins: Seq<usize>, n_bins: nat, b: nat)
    ensures
        bin_count(bins, n_bins, b) <= bins.len(),
    decreases bins.len(),
{
    if bins.len() > 0 {
        lemma_count_bounded(bins.drop_last(), n_bins, b);
    }
}

/// Joint histogram of paired bin indices, row-major: entry
/// `i * n_bins + j` counts the positions `k` whose `xs[k]` falls in bin `i`
/// and whose `ys[k]` falls in bin `j` (indices past the last bin count in
/// the last bin).
///
/// The counts add up to the number of pairs.
pub fn joint_bin_counts(xs: &[usize], ys: &[usize], n_bins: usize) -> (counts: Vec<usize>)
    requires
        n_bins > 0,
        n_bins * n_bins <= usize::MAX,
        xs.len() == ys.len(),
    ensures
        counts@.len() == n_bins * n_bins,
        forall|i: int, j: int|
            0 <= i < n_bins && 0 <= j < n_bins ==> #[trigger] counts@[i * n_bins + j] == joint_bin_count(
                xs@,
                ys@,
                n_bins as nat,
                i as nat,
                j as nat,
            ),
        forall|i: int, j: int|
            0 <= i < n_bins && 0 <= j < n_bins ==> #[trigger] counts@[i * n_bins + j] == paired(xs@, ys@).filter(
                |q: (usize, usize)| lands_in(q.0, i as nat, n_bins as nat) && lands_in(q.1, j as nat, n_bins as nat),
            ).len(),
        total(counts@) == xs@.len(),
{
    let size = n_bins * n_bins;
    let mut counts: Vec<usize> = Vec::new();
    let mut c: usize = 0;
    while c < size
        invariant
            c <= size,
            counts@.len() == c,
            forall|d: int| 0 <= d < c ==> #[trigger] counts@[d] == 0,
            total(counts@) == 0,
        decreases size - c,
    {
        assert(counts@.push(0).drop_last() =~= counts@);
        counts.push(0);
        c = c + 1;
    }
    assert forall|i: int, j: int|
        0 <= i < n_bins && 0 <= j < n_bins implies #[trigger] counts@[i * n_bins + j] == joint_bin_count(
            xs@.subrange(0, 0),
            ys@.subrange(0, 0),
            n_bins as nat,
            i as nat,
            j as nat,
        ) by {
        lemma_cell_index(n_bins as int, i, j);
    }
    for k in 0..xs.len()
        invariant
            n_bins > 0,
            size == n_bins * n_bins,
            xs.len() == ys.len(),
            counts@.len() == size,
            forall|i: int, j: int|
                0 <= i < n_bins && 0 <= j < n_bins ==> #[trigger] counts@[i * n_bins + j] == joint_bin_count(
                    xs@.subrange(0, k as int),
                    ys@.subrange(0, k as int),
                    n_bins as nat,
                    i as nat,
                    j as nat,
                ),
            total(counts@) == k,
    {
        let bx = if xs[k] < n_bins { xs[k] } else { n_bins - 1 };
        let by = if ys[k] < n_bins { ys[k] } else { n_bins - 1 };
        proof {
            lemma_cell_index(n_bins as int, bx as int, by as int);
        }
        let cell = bx * n_bins + by;
        let ghost xp = xs@.subrange(0, k as int);
        let ghost yp = ys@.subrange(0, k as int);
        assert(xs@.subrange(0, k + 1).drop_last() =~= xp);
        assert(ys@.subrange(0, k + 1).drop_last() =~= yp);
        proof {
            lemma_joint_count_bounded(xp, yp, n_bins as nat, bx as nat, by as nat);
            lemma_total_bump(counts@, cell as int);
        }
        assert forall|i: int, j: int|
            #![trigger counts@[i * n_bins + j]]
            0 <= i < n_bins && 0 <= j < n_bins && (i != bx || j != by) implies i * n_bins + j
            != cell by {
            lemma_cell_distinct(n_bins as int, i, j, bx as int, by as int);
        }
        let old = counts[cell];
        counts.set(cell, old + 1);
        assert forall|i: int, j: int|
            0 <= i < n_bins && 0 <= j < n_bins implies #[trigger] counts@[i * n_bins + j] == joint_bin_count(
                xs@.subrange(0, k + 1),
                ys@.subrange(0, k + 1),
                n_bins as nat,
                i as nat,
                j as nat,
            ) by {
            lemma_cell_index(n_bins as int, i, j);
        }
    }
    assert(xs@.subrange(0, xs@.len() as int) =~= xs@);
    assert(ys@.subrange(0, ys@.len() as int) =~= ys@);
    assert forall|i: int, j: int|
        0 <= i < n_bins && 0 <= j < n_bins implies #[trigger] counts@[i * n_bins + j] == paired(xs@, ys@).filter(
            |q: (usize, usize)| lands_in(q.0, i as nat, n_bins as nat) && lands_in(q.1, j as nat, n_bins as nat),
        ).len() by {
        lemma_joint_bin_count_is_occurrences(xs@, ys@, n_bins as nat, i as nat, j as nat);
    }
    counts
}

/// A cell index of an `n × n` row-major table lies inside the table.
proof fn lemma_cell_index(n: int, i: int, j: int)
    requires
        0 <= i < n,
        0 <= j < n,
    ensures
        0 <= i * n + j < n * n,
{
    assert(i * n + j < n * n) by (nonlinear_arith)
        requires
            0 <= i < n,
            0 <= j < n,
    ;
    assert(0 <= i * n) by (nonlinear_arith)
        requires
            0 <= i,
            0 <= n,
    ;
}

/// Distinct cells of an `n × n` row-major table have distinct indices.
proof fn lemma_cell_distinct(n: int, i: int, j: int, a: int, b: int)
    requires
        0 <= i < n,
        0 <= j < n,
        0 <= a < n,
        0 <= b < n,
        i != a || j != b,
    ensures
        i * n + j != a * n + b,
{
    if i == a {
    } else if i < a {
        assert(i * n + j < a * n + b) by (nonlinear_arith)
            requires
                0 <= j < n,
                0 <= b,
                i < a,
        ;
    } else {
        assert(a * n + b < i * n + j) by (nonlinear_arith)
            requires
                0 <= b < n,
                0 <= j,
                a < i,
        ;
    }
}

/// A joint cell never holds more pairs than there are.
proof fn lemma_joint_count_bounded(xs: Seq<usize>, ys: Seq<usize>, n_bins: nat, i: nat, j: nat)
    ensures
        joint_bin_count(xs, ys, n_bins, i, j) <= xs.len(),
    decreases xs.len(),
{
    if xs.len() > 0 && ys.len() > 0 {
        lemma_joint_count_bounded(xs.drop_last(), ys.drop_last(), n_bins, i, j);
    }
}

/// The population indices other than `target`, in increasing order.
pub open spec fn others(pop_size: nat, target: nat) -> Seq<usize> {
    Seq::new((pop_size - 1) as nat, |k: int| if k < target { k as usize } else { (k + 1) as usize })
}

/// The donors of one differential-evolution mutation, from three uniform
/// draws over `0..pop_size - 1`: `a` is the `draws.0`-th index other than
/// the target, `b` is drawn (modulo the remaining count) from the indices
/// left once `a` is removed, and `c` likewise once `b` is removed too.
pub open spec fn donors_spec(pop_size: nat, target: nat, draws: (usize, usize, usize)) -> (usize, usize, usize) {
    let o = others(pop_size, target);
    let o1 = o.remove(draws.0 as int);
    let p1 = (draws.1 as nat) % ((pop_size - 2) as nat);
    let o2 = o1.remove(p1 as int);
    let p2 = (draws.2 as nat) % ((pop_size - 3) as nat);
    (o[draws.0 as int], o1[p1 as int], o2[p2 as int])
}

/// Pick the three donor individuals `(a, b, c)` of a differential-evolution
/// mutation of individual `target` (`v = a + f · (b − c)`).
///
/// `draws` are three uniform samples over `0..pop_size - 1`.  The donors
/// are three distinct individuals, none of them the target.
pub fn pick_donors(pop_size: usize, target: usize, draws: (usize, usize, usize)) -> (r: (usize, usize, usize))
    requires
        pop_size >= 4,
        target < pop_size,
        draws.0 < pop_size - 1,
    ensures
        r == donors_spec(pop_size as nat, target as nat, draws),
        r.0 < pop_size && r.1 < pop_size && r.2 < pop_size,
        r.0 != target && r.1 != target && r.2 != target,
        r.0 != r.1 && r.1 != r.2 && r.0 != r.2,
{
    let ghost o = others(pop_size as nat, target as nat);
    let mut indices: Vec<usize> = Vec::new();
    for idx in 0..pop_size
        invariant
            target < pop_size,
            o == others(pop_size as nat, target as nat),
            indices@.len() == if idx <= target { idx as int } else { idx - 1 },
            forall|k: int| 0 <= k < indices@.len() ==> #[trigger] indices@[k] == o[k],
    {
        if idx != target {
            indices.push(idx);
        }
    }
    assert(indices@ =~= o);
    let a = indices.remove(draws.0);
    let pb = draws.1 % indices.len();
    let b = indices.remove(pb);
    let pc = draws.2 % indices.len();
    let c = indices[pc];
    proof {
        lemma_donors_distinct(pop_size as nat, target as nat, draws.0 as int, pb as int, pc as int);
    }
    (a, b, c)
}

/// rand's `ThreadRng`, the generator the mutation draws from.  Opaque: its
/// state is not modelled.
#[verifier::external_type_specification]
#[verifier::external_body]
pub struct ExThreadRng(rand::rngs::ThreadRng);

/// `Uniform::new(0, n).sample(rng)` from rand: a uniform draw from `0..n`.
/// rand documents the half-open range and panics on an empty one, hence
/// `n > 0`.  Which index comes, and how `rng` advances, is left to chance
/// and is not stated.
#[verifier::external_body]
fn uniform_index(rng: &mut rand::rngs::ThreadRng, n: usize) -> (r: usize)
    requires
        n > 0,
    ensures
        r < n,
{
    rand::distributions::Distribution::sample(&rand::distributions::Uniform::new(0, n), rng)
}

/// Draw the three donors `(a, b, c)` of the mutation of individual
/// `target`: three uniform draws over `0..pop_size - 1`, in that order,
/// turned into donors by [`pick_donors`].
///
/// Whatever the draws, the donors are three distinct individuals, none of
/// them the target.
pub fn select_donors(rng: &mut rand::rngs::ThreadRng, pop_size: usize, target: usize) -> (r: (
    usize,
    usize,
    usize,
))
    requires
        pop_size >= 4,
        target < pop_size,
    ensures
        exists|d: (usize, usize, usize)|
            #![trigger donors_spec(pop_size as nat, target as nat, d)]
            d.0 < pop_size - 1 && d.1 < pop_size - 1 && d.2 < pop_size - 1 && r == donors_spec(
                pop_size as nat,
                target as nat,
                d,
            ),
        r.0 < pop_size && r.1 < pop_size && r.2 < pop_size,
        r.0 != target && r.1 != target && r.2 != target,
        r.0 != r.1 && r.1 != r.2 && r.0 != r.2,
{
    let n = pop_size - 1;
    let draw_a = uniform_index(rng, n);
    let draw_b = uniform_index(rng, n);
    let draw_c = uniform_index(rng, n);
    pick_donors(pop_size, target, (draw_a, draw_b, draw_c))
}

/// The other indices are below `pop_size`, differ from `target`, and
/// increase strictly.
proof fn lemma_others_increasing(pop_size: nat, target: nat, k: int, l: int)
    requires
        target < pop_size,
        pop_size <= usize::MAX,
        0 <= k < pop_size - 1,
        0 <= l < pop_size - 1,
    ensures
        others(pop_size, target)[k] < pop_size,
        others(pop_size, target)[k] != target,
        k < l ==> others(pop_size, target)[k] < others(pop_size, target)[l],
{
}

/// Removing entries at positions `at`, then `pb`, then reading position
/// `pc` of the other indices gives three distinct non-target indices.
proof fn lemma_donors_distinct(pop_size: nat, target: nat, at: int, pb: int, pc: int)
    requires
        pop_size >= 4,
        pop_size <= usize::MAX,
        target < pop_size,
        0 <= at < pop_size - 1,
        0 <= pb < pop_size - 2,
        0 <= pc < pop_size - 3,
    ensures ({
        let o = others(pop_size, target);
        let o1 = o.remove(at);
        let o2 = o1.remove(pb);
        let (a, b, c) = (o[at], o1[pb], o2[pc]);
        &&& a < pop_size && b < pop_size && c < pop_size
        &&& a != target && b != target && c != target
        &&& a != b && b != c && a != c
    }),
{
    let o = others(pop_size, target);
    let o1 = o.remove(at);
    let o2 = o1.remove(pb);
    // position of o1[pb] in o
    let ib = if pb < at { pb } else { pb + 1 };
    // position of o2[pc] in o1, then in o
    let jc1 = if pc < pb { pc } else { pc + 1 };
    let ic = if jc1 < at { jc1 } else { jc1 + 1 };
    assert(o1[pb] == o[ib]);
    assert(o2[pc] == o1[jc1]);
    assert(o1[jc1] == o[ic]);
    assert(ib != at);
    assert(ic != at);
    assert(ic != ib);
    lemma_others_increasing(pop_size, target, at, ib);
    lemma_others_increasing(pop_size, target, ib, at);
    lemma_others_increasing(pop_size, target, ib, ic);
    lemma_others_increasing(pop_size, target, ic, ib);
    lemma_others_increasing(pop_size, target, at, ic);
    lemma_others_increasing(pop_size, target, ic, at);
}

/// A strictly increasing sequence of indices.
pub open spec fn strictly_increasing(s: Seq<usize>) -> bool {
    forall|i: int, j: int| 0 <= i < j < s.len() ==> s[i] < s[j]
}

/// Removing one entry keeps a sequence strictly increasing.
proof fn lemma_remove_keeps_increasing(s: Seq<usize>, at: int)
    requires
        strictly_increasing(s),
        0 <= at < s.len(),
    ensures
        strictly_increasing(s.remove(at)),
        s.remove(at).len() == s.len() - 1,
{
    s.remove_ensures(at);
    let r = s.remove(at);
    assert forall|i: int, j: int| 0 <= i < j < r.len() implies r[i] < r[j] by {
        let si = if i < at { i } else { i + 1 };
        let sj = if j < at { j } else { j + 1 };
        assert(r[i] == s[si]);
        assert(r[j] == s[sj]);
    }
}

/// Each donor follows its draw in order: among the individuals still
/// available when it is drawn, a larger draw (for `b` and `c`, a larger
/// draw modulo the number left) picks a later individual, and a donor does
/// not depend on the draws made after it.  With the donors distinct and
/// never the target, this makes `c` exactly the
/// `(draws.2 mod (pop_size − 3))`-th individual left once the target, `a`
/// and `b` are taken out (likewise `b` and `a`), so every remaining
/// individual can be drawn.
pub proof fn lemma_donors_follow_draws(
    pop_size: nat,
    target: nat,
    d: (usize, usize, usize),
    e: (usize, usize, usize),
)
    requires
        pop_size >= 4,
        pop_size <= usize::MAX,
        target < pop_size,
        d.0 < pop_size - 1,
        e.0 < pop_size - 1,
    ensures
        d.0 < e.0 ==> donors_spec(pop_size, target, d).0 < donors_spec(pop_size, target, e).0,
        d.0 == e.0 && (d.1 as nat) % ((pop_size - 2) as nat) < (e.1 as nat) % ((pop_size - 2) as nat) ==> {
            &&& donors_spec(pop_size, target, d).0 == donors_spec(pop_size, target, e).0
            &&& donors_spec(pop_size, target, d).1 < donors_spec(pop_size, target, e).1
        },
        d.0 == e.0 && (d.1 as nat) % ((pop_size - 2) as nat) == (e.1 as nat) % ((pop_size - 2) as nat) && (d.2 as nat)
            % ((pop_size - 3) as nat) < (e.2 as nat) % ((pop_size - 3) as nat) ==> {
            &&& donors_spec(pop_size, target, d).0 == donors_spec(pop_size, target, e).0
            &&& donors_spec(pop_size, target, d).1 == donors_spec(pop_size, target, e).1
            &&& donors_spec(pop_size, target, d).2 < donors_spec(pop_size, target, e).2
        },
{
    let o = others(pop_size, target);
    assert(strictly_increasing(o)) by {
        assert forall|i: int, j: int| 0 <= i < j < o.len() implies o[i] < o[j] by {
            lemma_others_increasing(pop_size, target, i, j);
        }
    }
    if d.0 == e.0 {
        let o1 = o.remove(d.0 as int);
        lemma_remove_keeps_increasing(o, d.0 as int);
        let p1 = (d.1 as nat) % ((pop_size - 2) as nat);
        let q1 = (e.1 as nat) % ((pop_size - 2) as nat);
        if p1 == q1 {
            let o2 = o1.remove(p1 as int);
            lemma_remove_keeps_increasing(o1, p1 as int);
            let p2 = (d.2 as nat) % ((pop_size - 3) as nat);
            let q2 = (e.2 as nat) % ((pop_size - 3) as nat);
            if p2 < q2 {
                assert(o2[p2 as int] < o2[q2 as int]);
            }
        } else if p1 < q1 {
            assert(o1[p1 as int] < o1[q1 as int]);
        }
    } else if d.0 < e.0 {
        assert(o[d.0 as int] < o[e.0 as int]);
    }
}

/// Index ranges of the quantile segments that seed the HMM emission
/// parameters: segment `i` of the sorted observations,
/// `[i·n_obs / n_states, (i+1)·n_obs / n_states)`, initialises state `i`.
///
/// The segments tile `0..n_obs` in order: the first starts at 0, each
/// starts where the previous one ends, the last ends at `n_obs`.
pub fn quantile_segments(n_obs: usize, n_states: usize) -> (segs: Vec<(usize, usize)>)
    requires
        n_states * n_obs <= usize::MAX,
    ensures
        segs@.len() == n_states,
        forall|i: int| 0 <= i < n_states ==> #[trigger] segs@[i].0 == (i * n_obs) / (n_states as int),
        forall|i: int| 0 <= i < n_states ==> #[trigger] segs@[i].1 == ((i + 1) * n_obs) / (n_states as int),
        forall|i: int| 0 <= i < n_states ==> #[trigger] segs@[i].0 <= segs@[i].1 <= n_obs,
        n_states > 0 ==> segs@[0].0 == 0 && segs@.last().1 == n_obs,
        forall|i: int| 0 <= i < n_states - 1 ==> #[trigger] segs@[i].1 == segs@[i + 1].0,
{
    let mut segs: Vec<(usize, usize)> = Vec::new();
    for i in 0..n_states
        invariant
            n_states * n_obs <= usize::MAX,
            segs@.len() == i,
            forall|j: int| 0 <= j < i ==> {
                &&& (#[trigger] segs@[j]).0 == (j * n_obs) / (n_states as int)
                &&& segs@[j].1 == ((j + 1) * n_obs) / (n_states as int)
                &&& segs@[j].0 <= segs@[j].1
                &&& segs@[j].1 <= n_obs
            },
    {
        proof {
            lemma_segment_bounds(n_obs as nat, n_states as nat, i as nat);
        }
        let start_idx = (i * n_obs) / n_states;
        let end_idx = ((i + 1) * n_obs) / n_states;
        assert(start_idx <= end_idx <= n_obs);
        segs.push((start_idx, end_idx));
    }
    proof {
        if n_states > 0 {
            assert((0 * n_obs) / (n_states as int) == 0);
            assert((n_states as int * n_obs) / (n_states as int) == n_obs) by (nonlinear_arith)
                requires
                    n_states > 0,
            ;
            assert(segs@.last() == segs@[n_states - 1]);
        }
    }
    segs
}

/// Segment bounds are ordered, within `0..=n_obs`, and their products fit.
proof fn lemma_segment_bounds(n_obs: nat, n_states: nat, i: nat)
    requires
        i < n_states,
    ensures
        (i + 1) * n_obs <= n_states * n_obs,
        i * n_obs <= (i + 1) * n_obs,
        (i * n_obs) / n_states <= ((i + 1) * n_obs) / n_states <= n_obs,
{
    assert((i + 1) * n_obs <= n_states * n_obs) by (nonlinear_arith)
        requires
            i < n_states,
    ;
    assert(i * n_obs <= (i + 1) * n_obs) by (nonlinear_arith);
    vstd::arithmetic::div_mod::lemma_div_is_ordered((i * n_obs) as int, ((i + 1) * n_obs) as int, n_states as int);
    vstd::arithmetic::div_mod::lemma_div_is_ordered(((i + 1) * n_obs) as int, (n_states * n_obs) as int, n_states as int);
    assert((n_states as int * n_obs) / (n_states as int) == n_obs) by (nonlinear_arith)
        requires
            n_states > 0,
    ;
}

} // verus!
