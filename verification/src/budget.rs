//! Distributing the point budget over the bins by dynamic programming.
//!
//! Bin `b` may hold `2^p` points, `0 <= p <= 5`, at a cost `weights[b][p]`.
//! The table has one row per bin and one column per budget `0 ..= 256`; the
//! cell `(b, s)` holds the best cost found for spending `s` points on bins
//! `0 ..= b`, with the exponent chosen for bin `b`. Costs are combined with
//! the caller's `combine` and compared with the caller's `better`, so the
//! table never inspects a cost itself. A cell stays empty until a cost that
//! `better` prefers to the caller's `unreached` cost reaches it.
use vstd::prelude::*;
use crate::layout::{
    BINS, POINT_BUDGET, MAX_POW, bin_point_count, lemma_points_before_mono,
    points_before, two_pow, valid_npts,
};

verus! {

/// Columns of the table: the budgets `0 ..= 256`.
pub const BUDGET_COLUMNS: usize = 257;

/// Number of cells of the table.
pub const TABLE_CELLS: usize = 8224;

/// Position of cell `(b, s)` in the flat table.
pub open spec fn cell(b: int, s: int) -> int {
    b * BUDGET_COLUMNS + s
}

/// The budgets that bin `b >= 1` with exponent `p` fills: the `b` bins before
/// it hold at least one point each (`s - 2^p >= b`), at most 32 points each,
/// and the budget is never exceeded.
pub open spec fn in_window(b: int, p: int, s: int) -> bool {
    &&& b + two_pow(p) <= s
    &&& s <= 32 * (b + 1) + two_pow(p)
    &&& s <= POINT_BUDGET
}

/// The cost of giving bin `b` the exponent `p`.
pub open spec fn weight<T>(weights: Seq<[T; 6]>, b: int, p: int) -> T {
    weights[b]@[p]
}

/// A chain of costs for the exponents `npts`: it starts with the cost of the
/// first bin, and each next cost is what `combine` returned for the previous
/// cost and the cost of the next bin.
pub open spec fn is_cost_chain<T, F: Fn(T, T) -> T>(
    weights: Seq<[T; 6]>,
    npts: Seq<u8>,
    chain: Seq<T>,
    combine: F,
) -> bool {
    &&& chain.len() == npts.len()
    &&& npts.len() >= 1
    &&& chain[0] == weight(weights, 0, npts[0] as int)
    &&& forall|i: int|
        1 <= i < chain.len() ==> call_ensures(
            combine,
            (chain[i - 1], weight(weights, i, npts[i] as int)),
            #[trigger] chain[i],
        )
}

/// A cell is consistent: it is empty, or it holds an exponent of at most 5
/// and a cost, and either it is in the first row at the budget `2^p` with the
/// cost of bin 0, or its budget is in the window of `p` and the cost is what
/// `combine` returned for the cost of the filled cell it extends.
pub open spec fn cell_ok<T, F: Fn(T, T) -> T>(
    dp: Seq<Option<(T, u8)>>,
    weights: Seq<[T; 6]>,
    combine: F,
    b: int,
    s: int,
) -> bool {
    match dp[cell(b, s)] {
        None => true,
        Some((c, p)) => {
            &&& p <= MAX_POW
            &&& b == 0 ==> s == two_pow(p as int) && c == weight(weights, 0, p as int)
            &&& b > 0 ==> {
                &&& in_window(b, p as int, s)
                &&& dp[cell(b - 1, s - two_pow(p as int))] is Some
                &&& call_ensures(
                    combine,
                    ((dp[cell(b - 1, s - two_pow(p as int))]->0).0, weight(weights, b, p as int)),
                    c,
                )
            }
        },
    }
}

/// Every cell of the table is consistent, and the rows after `row` are empty.
pub open spec fn table_ok<T, F: Fn(T, T) -> T>(
    dp: Seq<Option<(T, u8)>>,
    weights: Seq<[T; 6]>,
    combine: F,
    row: int,
) -> bool {
    &&& dp.len() == TABLE_CELLS
    &&& forall|b: int, s: int|
        0 <= b < BINS && 0 <= s < BUDGET_COLUMNS ==> #[trigger] cell_ok(dp, weights, combine, b, s)
    &&& forall|b: int, s: int|
        row < b < BINS && 0 <= s < BUDGET_COLUMNS ==> #[trigger] dp[cell(b, s)] is None
}

/// The exponents read back from the filled cell `(b, s)`, bin 0 first.
pub open spec fn path_of<T>(dp: Seq<Option<(T, u8)>>, b: int, s: int) -> Seq<u8>
    decreases b + 1,
{
    if b < 0 {
        Seq::empty()
    } else {
        match dp[cell(b, s)] {
            Some((_, p)) => path_of(dp, b - 1, s - two_pow(p as int)).push(p),
            None => Seq::empty(),
        }
    }
}

/// The costs read back from the filled cell `(b, s)`, bin 0 first.
pub open spec fn costs_of<T>(dp: Seq<Option<(T, u8)>>, b: int, s: int) -> Seq<T>
    decreases b + 1,
{
    if b < 0 {
        Seq::empty()
    } else {
        match dp[cell(b, s)] {
            Some((c, p)) => costs_of(dp, b - 1, s - two_pow(p as int)).push(c),
            None => Seq::empty(),
        }
    }
}

/// Appending a bin does not change the points of the bins before it.
proof fn lemma_points_before_push(q: Seq<u8>, p: u8, j: int)
    requires
        0 <= j <= q.len(),
    ensures
        points_before(q.push(p), j) == points_before(q, j),
    decreases j,
{
    if j > 0 {
        lemma_points_before_push(q, p, j - 1);
        assert(q.push(p)[j - 1] == q[j - 1]);
    }
}

/// Reading back a filled cell of a consistent table gives exponents of at
/// most 5 that spend exactly its budget, and come with their chain of costs.
proof fn lemma_path_sound<T, F: Fn(T, T) -> T>(
    dp: Seq<Option<(T, u8)>>,
    weights: Seq<[T; 6]>,
    combine: F,
    row: int,
    b: int,
    s: int,
)
    requires
        table_ok(dp, weights, combine, row),
        0 <= b < BINS,
        0 <= s < BUDGET_COLUMNS,
        dp[cell(b, s)] is Some,
    ensures
        ({
            let path = path_of(dp, b, s);
            let costs = costs_of(dp, b, s);
            &&& path.len() == b + 1
            &&& forall|j: int| 0 <= j <= b ==> #[trigger] path[j] <= MAX_POW
            &&& points_before(path, b + 1) == s
            &&& is_cost_chain(weights, path, costs, combine)
            &&& costs.last() == (dp[cell(b, s)]->0).0
        }),
    decreases b,
{
    assert(cell_ok(dp, weights, combine, b, s));
    let (c, p) = dp[cell(b, s)]->0;
    if b == 0 {
        let path = path_of(dp, b, s);
        assert(path_of(dp, -1, s - two_pow(p as int)) =~= Seq::<u8>::empty());
        assert(costs_of(dp, -1, s - two_pow(p as int)) =~= Seq::<T>::empty());
        assert(path =~= seq![p]);
        assert(points_before(path, 0) == 0);
    } else {
        let s0 = s - two_pow(p as int);
        lemma_path_sound(dp, weights, combine, row, b - 1, s0);
        let prev = path_of(dp, b - 1, s0);
        let prev_costs = costs_of(dp, b - 1, s0);
        let path = path_of(dp, b, s);
        let costs = costs_of(dp, b, s);
        assert(path == prev.push(p));
        assert(costs == prev_costs.push(c));
        lemma_points_before_push(prev, p, b);
        assert forall|j: int| 0 <= j <= b implies #[trigger] path[j] <= MAX_POW by {
            if j < b {
                assert(path[j] == prev[j]);
            }
        }
        assert forall|i: int| 1 <= i < costs.len() implies call_ensures(
            combine,
            (costs[i - 1], weight(weights, i, path[i] as int)),
            #[trigger] costs[i],
        ) by {
            if i < b {
                assert(costs[i] == prev_costs[i]);
                assert(costs[i - 1] == prev_costs[i - 1]);
                assert(path[i] == prev[i]);
            }
        }
        assert(costs[0] == prev_costs[0]);
        assert(path[0] == prev[0]);
    }
}

/// Writing a consistent cell into a table whose later rows are empty keeps
/// the table consistent.
proof fn lemma_write_cell<T, F: Fn(T, T) -> T>(
    dp: Seq<Option<(T, u8)>>,
    weights: Seq<[T; 6]>,
    combine: F,
    row: int,
    s: int,
    v: Option<(T, u8)>,
)
    requires
        table_ok(dp, weights, combine, row),
        0 <= row < BINS,
        0 <= s < BUDGET_COLUMNS,
        cell_ok(dp.update(cell(row, s), v), weights, combine, row, s),
    ensures
        table_ok(dp.update(cell(row, s), v), weights, combine, row),
{
    let nd = dp.update(cell(row, s), v);
    assert forall|b: int, t: int|
        0 <= b < BINS && 0 <= t < BUDGET_COLUMNS implies #[trigger] cell_ok(
        nd,
        weights,
        combine,
        b,
        t,
    ) by {
        if b != row || t != s {
            assert(cell_ok(dp, weights, combine, b, t));
            assert(nd[cell(b, t)] == dp[cell(b, t)]);
            if b > 0 && b != row + 1 {
                match dp[cell(b, t)] {
                    Some((c, p)) => {
                        if b - 1 == row {
                        } else {
                            assert(cell(b - 1, t - two_pow(p as int)) != cell(row, s));
                        }
                    },
                    None => {},
                }
            }
            if b == row + 1 {
                assert(dp[cell(b, t)] is None);
            }
        }
    }
    assert forall|b: int, t: int| row < b < BINS && 0 <= t < BUDGET_COLUMNS implies #[trigger] nd[cell(
        b,
        t,
    )] is None by {
        assert(dp[cell(b, t)] is None);
    }
}

/// The total cost of the exponents `q` under the sum `plus`: the cost of bin
/// 0, then each next bin's cost added on the right.
pub open spec fn split_cost<T>(plus: spec_fn(T, T) -> T, weights: Seq<[T; 6]>, q: Seq<u8>) -> T
    decreases q.len(),
{
    if q.len() <= 1 {
        weight(weights, 0, q[0] as int)
    } else {
        plus(
            split_cost(plus, weights, q.drop_last()),
            weight(weights, q.len() - 1, q.last() as int),
        )
    }
}

/// `combine` computes `plus` and `better` computes `less`, and on the costs of
/// `dom` these behave like a sum and a strict order that respects it:
/// - every total cost of up to 32 bins of at most 5 lies in `dom`, and is
///   preferred to `unreached`;
/// - on `dom`, `less` is asymmetric and "not less" is transitive;
/// - adding the same bin cost to two costs of `dom` keeps them in order.
///
/// Non-negative floats whose sums stay below `f32::MAX`, added with `+` and
/// compared with `<`, with `f32::MAX` as `unreached`, form such a model.
pub open spec fn cost_model<T, F: Fn(T, T) -> T, G: Fn(T, T) -> bool>(
    plus: spec_fn(T, T) -> T,
    less: spec_fn(T, T) -> bool,
    dom: spec_fn(T) -> bool,
    unreached: T,
    weights: Seq<[T; 6]>,
    combine: F,
    better: G,
) -> bool {
    &&& forall|x: T, y: T, r: T| #[trigger] call_ensures(combine, (x, y), r) ==> r == plus(x, y)
    &&& forall|x: T, y: T, r: bool| #[trigger] call_ensures(better, (x, y), r) ==> r == less(x, y)
    &&& forall|q: Seq<u8>|
        1 <= q.len() <= BINS && (forall|j: int| 0 <= j < q.len() ==> q[j] <= MAX_POW) ==> dom(
            #[trigger] split_cost(plus, weights, q),
        )
    &&& forall|x: T| #[trigger] dom(x) ==> less(x, unreached)
    &&& forall|x: T, y: T| dom(x) && dom(y) && #[trigger] less(x, y) ==> !less(y, x)
    &&& forall|x: T, y: T, z: T|
        #![trigger less(y, x), less(z, y)]
        dom(x) && dom(y) && dom(z) && !less(y, x) && !less(z, y) ==> !less(z, x)
    &&& forall|x: T, y: T, b: int, p: int|
        #![trigger plus(y, weight(weights, b, p)), plus(x, weight(weights, b, p))]
        0 <= b < BINS && 0 <= p < 6 && dom(x) && dom(y) && !less(y, x) ==> !less(
            plus(y, weight(weights, b, p)),
            plus(x, weight(weights, b, p)),
        )
}

/// Exponents for the bins `0 ..= b`: at most 5 each, within the budget.
pub open spec fn prefix_ok(q: Seq<u8>, b: int) -> bool {
    &&& q.len() == b + 1
    &&& forall|j: int| 0 <= j <= b ==> #[trigger] q[j] <= MAX_POW
    &&& points_before(q, b + 1) <= POINT_BUDGET
}

/// The cost held by the filled cell `(b, s)`.
pub open spec fn cost_at<T>(dp: Seq<Option<(T, u8)>>, b: int, s: int) -> T {
    (dp[cell(b, s)]->0).0
}

/// Row `r` is optimal: the cell of every choice of exponents for the bins
/// `0 ..= r` is filled, with a cost that the choice's total is not less than.
pub open spec fn row_optimal<T>(
    dp: Seq<Option<(T, u8)>>,
    weights: Seq<[T; 6]>,
    plus: spec_fn(T, T) -> T,
    less: spec_fn(T, T) -> bool,
    r: int,
) -> bool {
    forall|q: Seq<u8>|
        #[trigger] prefix_ok(q, r) ==> {
            &&& dp[cell(r, points_before(q, r + 1))] is Some
            &&& !less(split_cost(plus, weights, q), cost_at(dp, r, points_before(q, r + 1)))
        }
}

/// The choices the row `b` has already tried: a smaller exponent for bin `b`,
/// or the exponent `p` at a budget below `budget`.
pub open spec fn covered(q: Seq<u8>, b: int, p: int, budget: int) -> bool {
    q[b] < p || (q[b] == p && points_before(q, b + 1) < budget)
}

/// Row `b` is optimal for the choices it has already tried.
pub open spec fn row_partial<T>(
    dp: Seq<Option<(T, u8)>>,
    weights: Seq<[T; 6]>,
    plus: spec_fn(T, T) -> T,
    less: spec_fn(T, T) -> bool,
    b: int,
    p: int,
    budget: int,
) -> bool {
    forall|q: Seq<u8>|
        #![trigger prefix_ok(q, b), covered(q, b, p, budget)]
        prefix_ok(q, b) && covered(q, b, p, budget) ==> {
            &&& dp[cell(b, points_before(q, b + 1))] is Some
            &&& !less(split_cost(plus, weights, q), cost_at(dp, b, points_before(q, b + 1)))
        }
}

/// In row `b`, exponent `p` covers the budgets `b + 2^p ..= window_end(b, p)`.
pub open spec fn window_end(b: int, p: int) -> int {
    if 32 * (b + 1) + two_pow(p) < POINT_BUDGET {
        32 * (b + 1) + two_pow(p)
    } else {
        POINT_BUDGET as int
    }
}

/// The prefix sums of a sequence only depend on its first elements.
proof fn lemma_points_before_prefix(q: Seq<u8>, n: int, j: int)
    requires
        0 <= j <= n <= q.len(),
    ensures
        points_before(q.subrange(0, n), j) == points_before(q, j),
    decreases j,
{
    if j > 0 {
        lemma_points_before_prefix(q, n, j - 1);
    }
}

/// Bins of at most 32 points each hold at most `32 j` points.
proof fn lemma_points_before_at_most(q: Seq<u8>, j: int)
    requires
        0 <= j <= q.len(),
        forall|i: int| 0 <= i < j ==> #[trigger] q[i] <= MAX_POW,
    ensures
        points_before(q, j) <= 32 * j,
    decreases j,
{
    if j > 0 {
        lemma_points_before_at_most(q, j - 1);
        assert(q[j - 1] <= MAX_POW);
    }
}

/// Cutting the last bin off a choice of exponents.
proof fn lemma_prefix_step<T>(
    weights: Seq<[T; 6]>,
    plus: spec_fn(T, T) -> T,
    q: Seq<u8>,
    b: int,
)
    requires
        1 <= b < BINS,
        prefix_ok(q, b),
    ensures
        prefix_ok(q.subrange(0, b), b - 1),
        points_before(q.subrange(0, b), b) == points_before(q, b),
        points_before(q, b + 1) == points_before(q, b) + two_pow(q[b] as int),
        in_window(b, q[b] as int, points_before(q, b + 1)),
        split_cost(plus, weights, q) == plus(
            split_cost(plus, weights, q.subrange(0, b)),
            weight(weights, b, q[b] as int),
        ),
{
    let q0 = q.subrange(0, b);
    lemma_points_before_prefix(q, b, b);
    assert forall|j: int| 0 <= j <= b - 1 implies #[trigger] q0[j] <= MAX_POW by {
        assert(q[j] <= MAX_POW);
    }
    assert(q[b] <= MAX_POW);
    lemma_points_before_at_most(q, b);
    lemma_points_before_mono(q, 0, b);
    lemma_points_before_mono(q, 0, b + 1);
    assert(q.drop_last() =~= q0);
}

/// A chain of `combine` results is the total cost under `plus` when `combine`
/// computes `plus`.
proof fn lemma_chain_is_split_cost<T, F: Fn(T, T) -> T>(
    weights: Seq<[T; 6]>,
    combine: F,
    plus: spec_fn(T, T) -> T,
    q: Seq<u8>,
    chain: Seq<T>,
)
    requires
        forall|x: T, y: T, r: T| #[trigger] call_ensures(combine, (x, y), r) ==> r == plus(x, y),
        is_cost_chain(weights, q, chain, combine),
    ensures
        chain.last() == split_cost(plus, weights, q),
    decreases q.len(),
{
    if q.len() > 1 {
        let n = q.len() - 1;
        let q0 = q.drop_last();
        let c0 = chain.drop_last();
        assert forall|i: int| 1 <= i < c0.len() implies call_ensures(
            combine,
            (c0[i - 1], weight(weights, i, q0[i] as int)),
            #[trigger] c0[i],
        ) by {
            assert(call_ensures(combine, (chain[i - 1], weight(weights, i, q[i] as int)), chain[i]));
        }
        lemma_chain_is_split_cost(weights, combine, plus, q0, c0);
        assert(call_ensures(combine, (chain[n - 1], weight(weights, n, q[n] as int)), chain[n]));
    }
}

/// Under a cost model, a filled cell holds the total cost of the exponents
/// read back from it, which lies in the model's domain.
proof fn lemma_cell_cost<T, F: Fn(T, T) -> T, G: Fn(T, T) -> bool>(
    dp: Seq<Option<(T, u8)>>,
    weights: Seq<[T; 6]>,
    combine: F,
    better: G,
    plus: spec_fn(T, T) -> T,
    less: spec_fn(T, T) -> bool,
    dom: spec_fn(T) -> bool,
    unreached: T,
    row: int,
    b: int,
    s: int,
)
    requires
        cost_model(plus, less, dom, unreached, weights, combine, better),
        table_ok(dp, weights, combine, row),
        0 <= b < BINS,
        0 <= s < BUDGET_COLUMNS,
        dp[cell(b, s)] is Some,
    ensures
        cost_at(dp, b, s) == split_cost(plus, weights, path_of(dp, b, s)),
        dom(cost_at(dp, b, s)),
{
    lemma_path_sound(dp, weights, combine, row, b, s);
    let path = path_of(dp, b, s);
    lemma_chain_is_split_cost(weights, combine, plus, path, costs_of(dp, b, s));
    assert(forall|j: int| 0 <= j < path.len() ==> path[j] <= MAX_POW);
    assert(dom(split_cost(plus, weights, path)));
}

/// A row whose cells did not change stays optimal.
proof fn lemma_row_optimal_frame<T>(
    dp: Seq<Option<(T, u8)>>,
    dp2: Seq<Option<(T, u8)>>,
    weights: Seq<[T; 6]>,
    plus: spec_fn(T, T) -> T,
    less: spec_fn(T, T) -> bool,
    r: int,
)
    requires
        row_optimal(dp, weights, plus, less, r),
        forall|s: int| 0 <= s < BUDGET_COLUMNS ==> #[trigger] dp2[cell(r, s)] == dp[cell(r, s)],
    ensures
        row_optimal(dp2, weights, plus, less, r),
{
    assert forall|q: Seq<u8>| #[trigger] prefix_ok(q, r) implies {
        &&& dp2[cell(r, points_before(q, r + 1))] is Some
        &&& !less(split_cost(plus, weights, q), cost_at(dp2, r, points_before(q, r + 1)))
    } by {
        lemma_points_before_mono(q, 0, r + 1);
        assert(dp2[cell(r, points_before(q, r + 1))] == dp[cell(r, points_before(q, r + 1))]);
    }
}

/// Nothing is covered before the row starts.
proof fn lemma_partial_start<T>(
    dp: Seq<Option<(T, u8)>>,
    weights: Seq<[T; 6]>,
    plus: spec_fn(T, T) -> T,
    less: spec_fn(T, T) -> bool,
    b: int,
)
    requires
        1 <= b < BINS,
    ensures
        row_partial(dp, weights, plus, less, b, 0, b + two_pow(0)),
{
    assert forall|q: Seq<u8>| prefix_ok(q, b) && covered(q, b, 0, b + two_pow(0)) implies {
        &&& dp[cell(b, points_before(q, b + 1))] is Some
        &&& !less(split_cost(plus, weights, q), cost_at(dp, b, points_before(q, b + 1)))
    } by {
        lemma_prefix_step(weights, plus, q, b);
    }
}

/// Once every budget of exponent `p` is tried, the row moves to `p + 1`.
proof fn lemma_partial_next<T>(
    dp: Seq<Option<(T, u8)>>,
    weights: Seq<[T; 6]>,
    plus: spec_fn(T, T) -> T,
    less: spec_fn(T, T) -> bool,
    b: int,
    p: int,
)
    requires
        1 <= b < BINS,
        0 <= p < 6,
        row_partial(dp, weights, plus, less, b, p, window_end(b, p) + 1),
    ensures
        row_partial(dp, weights, plus, less, b, p + 1, b + two_pow(p + 1)),
{
    assert forall|q: Seq<u8>| prefix_ok(q, b) && covered(q, b, p + 1, b + two_pow(p + 1)) implies {
        &&& dp[cell(b, points_before(q, b + 1))] is Some
        &&& !less(split_cost(plus, weights, q), cost_at(dp, b, points_before(q, b + 1)))
    } by {
        lemma_prefix_step(weights, plus, q, b);
        assert(covered(q, b, p, window_end(b, p) + 1));
    }
}

/// A row that tried every exponent is optimal.
proof fn lemma_partial_done<T>(
    dp: Seq<Option<(T, u8)>>,
    weights: Seq<[T; 6]>,
    plus: spec_fn(T, T) -> T,
    less: spec_fn(T, T) -> bool,
    b: int,
    budget: int,
)
    requires
        1 <= b < BINS,
        row_partial(dp, weights, plus, less, b, 6, budget),
    ensures
        row_optimal(dp, weights, plus, less, b),
{
    assert forall|q: Seq<u8>| #[trigger] prefix_ok(q, b) implies {
        &&& dp[cell(b, points_before(q, b + 1))] is Some
        &&& !less(split_cost(plus, weights, q), cost_at(dp, b, points_before(q, b + 1)))
    } by {
        assert(q[b] <= MAX_POW);
        assert(covered(q, b, 6, budget));
    }
}

/// Trying exponent `p` at `budget` when the cell it extends is empty: no
/// choice ends there.
proof fn lemma_step_skip<T>(
    dp: Seq<Option<(T, u8)>>,
    weights: Seq<[T; 6]>,
    plus: spec_fn(T, T) -> T,
    less: spec_fn(T, T) -> bool,
    b: int,
    p: int,
    budget: int,
)
    requires
        1 <= b < BINS,
        0 <= p < 6,
        row_optimal(dp, weights, plus, less, b - 1),
        row_partial(dp, weights, plus, less, b, p, budget),
        budget - two_pow(p) >= 0,
        dp[cell(b - 1, budget - two_pow(p))] is None,
    ensures
        row_partial(dp, weights, plus, less, b, p, budget + 1),
{
    assert forall|q: Seq<u8>| prefix_ok(q, b) && covered(q, b, p, budget + 1) implies {
        &&& dp[cell(b, points_before(q, b + 1))] is Some
        &&& !less(split_cost(plus, weights, q), cost_at(dp, b, points_before(q, b + 1)))
    } by {
        lemma_prefix_step(weights, plus, q, b);
        if !covered(q, b, p, budget) {
            assert(prefix_ok(q.subrange(0, b), b - 1));
            assert(false);
        }
    }
}

/// The facts of a step of row `b`: the choice ending at `budget` with
/// exponent `p` costs at least the new cost, and every cost involved lies in
/// the model's domain.
proof fn lemma_step_facts<T, F: Fn(T, T) -> T, G: Fn(T, T) -> bool>(
    dp: Seq<Option<(T, u8)>>,
    weights: Seq<[T; 6]>,
    combine: F,
    better: G,
    plus: spec_fn(T, T) -> T,
    less: spec_fn(T, T) -> bool,
    dom: spec_fn(T) -> bool,
    unreached: T,
    b: int,
    p: int,
    budget: int,
    new_cost: T,
)
    requires
        cost_model(plus, less, dom, unreached, weights, combine, better),
        table_ok(dp, weights, combine, b),
        1 <= b < BINS,
        0 <= p < 6,
        0 <= budget < BUDGET_COLUMNS,
        in_window(b, p, budget),
        row_optimal(dp, weights, plus, less, b - 1),
        dp[cell(b - 1, budget - two_pow(p))] is Some,
        call_ensures(
            combine,
            (cost_at(dp, b - 1, budget - two_pow(p)), weight(weights, b, p)),
            new_cost,
        ),
    ensures
        dom(new_cost),
        less(new_cost, unreached),
        dp[cell(b, budget)] is Some ==> dom(cost_at(dp, b, budget)),
        forall|q: Seq<u8>|
            prefix_ok(q, b) && q[b] == p && points_before(q, b + 1) == budget ==> dom(
                split_cost(plus, weights, q),
            ) && !less(#[trigger] split_cost(plus, weights, q), new_cost),
{
    let s0 = budget - two_pow(p);
    let prev = cost_at(dp, b - 1, s0);
    lemma_cell_cost(dp, weights, combine, better, plus, less, dom, unreached, b, b - 1, s0);
    lemma_path_sound(dp, weights, combine, b, b - 1, s0);
    let path = path_of(dp, b - 1, s0);
    let ext = path.push(p as u8);
    assert(ext.drop_last() =~= path);
    assert(new_cost == plus(prev, weight(weights, b, p)));
    assert(split_cost(plus, weights, ext) == new_cost);
    assert(forall|j: int| 0 <= j < ext.len() ==> ext[j] <= MAX_POW);
    assert(dom(split_cost(plus, weights, ext)));
    if dp[cell(b, budget)] is Some {
        lemma_cell_cost(dp, weights, combine, better, plus, less, dom, unreached, b, b, budget);
    }
    assert forall|q: Seq<u8>|
        prefix_ok(q, b) && q[b] == p && points_before(q, b + 1) == budget implies dom(
        split_cost(plus, weights, q),
    ) && !less(#[trigger] split_cost(plus, weights, q), new_cost) by {
        lemma_prefix_step(weights, plus, q, b);
        let q0 = q.subrange(0, b);
        assert(prefix_ok(q0, b - 1));
        let c0 = split_cost(plus, weights, q0);
        assert(!less(c0, prev));
        assert(forall|j: int| 0 <= j < q0.len() ==> q0[j] <= MAX_POW);
        assert(forall|j: int| 0 <= j < q.len() ==> q[j] <= MAX_POW);
        assert(dom(c0));
        assert(dom(split_cost(plus, weights, q)));
        assert(!less(plus(c0, weight(weights, b, p)), plus(prev, weight(weights, b, p))));
    }
}

/// Trying exponent `p` at `budget` and keeping the held cost, because
/// `better` did not prefer the new one.
proof fn lemma_step_keep<T, F: Fn(T, T) -> T, G: Fn(T, T) -> bool>(
    dp: Seq<Option<(T, u8)>>,
    weights: Seq<[T; 6]>,
    combine: F,
    better: G,
    plus: spec_fn(T, T) -> T,
    less: spec_fn(T, T) -> bool,
    dom: spec_fn(T) -> bool,
    unreached: T,
    b: int,
    p: int,
    budget: int,
    new_cost: T,
)
    requires
        cost_model(plus, less, dom, unreached, weights, combine, better),
        table_ok(dp, weights, combine, b),
        1 <= b < BINS,
        0 <= p < 6,
        0 <= budget < BUDGET_COLUMNS,
        in_window(b, p, budget),
        row_optimal(dp, weights, plus, less, b - 1),
        row_partial(dp, weights, plus, less, b, p, budget),
        dp[cell(b - 1, budget - two_pow(p))] is Some,
        call_ensures(
            combine,
            (cost_at(dp, b - 1, budget - two_pow(p)), weight(weights, b, p)),
            new_cost,
        ),
        dp[cell(b, budget)] is Some,
        call_ensures(better, (new_cost, cost_at(dp, b, budget)), false),
    ensures
        row_partial(dp, weights, plus, less, b, p, budget + 1),
{
    lemma_step_facts(dp, weights, combine, better, plus, less, dom, unreached, b, p, budget, new_cost);
    let held = cost_at(dp, b, budget);
    assert(!less(new_cost, held));
    assert forall|q: Seq<u8>| prefix_ok(q, b) && covered(q, b, p, budget + 1) implies {
        &&& dp[cell(b, points_before(q, b + 1))] is Some
        &&& !less(split_cost(plus, weights, q), cost_at(dp, b, points_before(q, b + 1)))
    } by {
        lemma_prefix_step(weights, plus, q, b);
        if !covered(q, b, p, budget) {
            let c = split_cost(plus, weights, q);
            assert(dom(c) && !less(c, new_cost));
            assert(dom(held) && dom(new_cost));
            assert(!less(c, held));
        }
    }
}

/// Trying exponent `p` at `budget` and writing the new cost, into an empty
/// cell or because `better` preferred it to the held one.
proof fn lemma_step_write<T, F: Fn(T, T) -> T, G: Fn(T, T) -> bool>(
    dp: Seq<Option<(T, u8)>>,
    weights: Seq<[T; 6]>,
    combine: F,
    better: G,
    plus: spec_fn(T, T) -> T,
    less: spec_fn(T, T) -> bool,
    dom: spec_fn(T) -> bool,
    unreached: T,
    b: int,
    p: int,
    budget: int,
    new_cost: T,
)
    requires
        cost_model(plus, less, dom, unreached, weights, combine, better),
        table_ok(dp, weights, combine, b),
        1 <= b < BINS,
        0 <= p < 6,
        0 <= budget < BUDGET_COLUMNS,
        in_window(b, p, budget),
        row_optimal(dp, weights, plus, less, b - 1),
        row_partial(dp, weights, plus, less, b, p, budget),
        dp[cell(b - 1, budget - two_pow(p))] is Some,
        call_ensures(
            combine,
            (cost_at(dp, b - 1, budget - two_pow(p)), weight(weights, b, p)),
            new_cost,
        ),
        dp[cell(b, budget)] is Some ==> call_ensures(
            better,
            (new_cost, cost_at(dp, b, budget)),
            true,
        ),
    ensures
        row_partial(
            dp.update(cell(b, budget), Some((new_cost, p as u8))),
            weights,
            plus,
            less,
            b,
            p,
            budget + 1,
        ),
        row_optimal(dp.update(cell(b, budget), Some((new_cost, p as u8))), weights, plus, less, b - 1),
{
    lemma_step_facts(dp, weights, combine, better, plus, less, dom, unreached, b, p, budget, new_cost);
    let nd = dp.update(cell(b, budget), Some((new_cost, p as u8)));
    assert forall|q: Seq<u8>| prefix_ok(q, b) && covered(q, b, p, budget + 1) implies {
        &&& nd[cell(b, points_before(q, b + 1))] is Some
        &&& !less(split_cost(plus, weights, q), cost_at(nd, b, points_before(q, b + 1)))
    } by {
        lemma_prefix_step(weights, plus, q, b);
        let s = points_before(q, b + 1);
        let c = split_cost(plus, weights, q);
        if s != budget {
            assert(covered(q, b, p, budget));
            assert(nd[cell(b, s)] == dp[cell(b, s)]);
        } else if covered(q, b, p, budget) {
            // An earlier choice at the same budget: the held cost was not more
            // than it, and the new cost is less than the held one.
            let held = cost_at(dp, b, budget);
            assert(dp[cell(b, budget)] is Some);
            assert(!less(c, held));
            assert(less(new_cost, held));
            assert(dom(held) && dom(new_cost));
            assert(forall|j: int| 0 <= j < q.len() ==> q[j] <= MAX_POW);
            assert(dom(c));
            assert(!less(held, new_cost));
            assert(!less(c, new_cost));
        } else {
            assert(!less(c, new_cost));
        }
    }
    assert forall|s: int| 0 <= s < BUDGET_COLUMNS implies #[trigger] nd[cell(b - 1, s)] == dp[cell(
        b - 1,
        s,
    )] by {}
    lemma_row_optimal_frame(dp, nd, weights, plus, less, b - 1);
}

/// The first row holds bin 0 alone: its cell `2^p` is its own cost.
proof fn lemma_row_zero<T, F: Fn(T, T) -> T, G: Fn(T, T) -> bool>(
    dp: Seq<Option<(T, u8)>>,
    weights: Seq<[T; 6]>,
    combine: F,
    better: G,
    plus: spec_fn(T, T) -> T,
    less: spec_fn(T, T) -> bool,
    dom: spec_fn(T) -> bool,
    unreached: T,
)
    requires
        cost_model(plus, less, dom, unreached, weights, combine, better),
        table_ok(dp, weights, combine, 0),
        forall|p: int|
            0 <= p < 6 ==> #[trigger] dp[cell(0, two_pow(p))] is Some || call_ensures(
                better,
                (weight(weights, 0, p), unreached),
                false,
            ),
    ensures
        row_optimal(dp, weights, plus, less, 0),
{
    assert forall|p: int| 0 <= p < 6 implies #[trigger] dp[cell(0, two_pow(p))] is Some by {
        let q = seq![p as u8];
        assert(q.len() == 1 && q[0] <= MAX_POW);
        assert(split_cost(plus, weights, q) == weight(weights, 0, p));
        assert(dom(weight(weights, 0, p)));
        assert(less(weight(weights, 0, p), unreached));
    }
    assert forall|q: Seq<u8>| #[trigger] prefix_ok(q, 0) implies {
        &&& dp[cell(0, points_before(q, 1))] is Some
        &&& !less(split_cost(plus, weights, q), cost_at(dp, 0, points_before(q, 1)))
    } by {
        let p = q[0] as int;
        assert(q[0] <= MAX_POW);
        assert(points_before(q, 0) == 0);
        assert(points_before(q, 1) == two_pow(p));
        assert(dp[cell(0, two_pow(p))] is Some);
        assert(cell_ok(dp, weights, combine, 0, two_pow(p)));
        let (c, p2) = dp[cell(0, two_pow(p))]->0;
        assert(two_pow(p2 as int) == two_pow(p));
        assert(p2 == p) by {
            if p2 != p {
                assert(two_pow(p2 as int) != two_pow(p));
            }
        }
        assert(forall|j: int| 0 <= j < q.len() ==> q[j] <= MAX_POW);
        assert(dom(split_cost(plus, weights, q)));
        assert(split_cost(plus, weights, q) == c);
        assert(!less(c, c));
    }
}

/// Under a cost model, an empty cell always takes the new cost: every total
/// cost is preferred to `unreached`.
proof fn lemma_step_fills_empty<T, F: Fn(T, T) -> T, G: Fn(T, T) -> bool>(
    dp: Seq<Option<(T, u8)>>,
    weights: Seq<[T; 6]>,
    combine: F,
    better: G,
    plus: spec_fn(T, T) -> T,
    less: spec_fn(T, T) -> bool,
    dom: spec_fn(T) -> bool,
    unreached: T,
    b: int,
    p: int,
    budget: int,
    new_cost: T,
)
    requires
        cost_model(plus, less, dom, unreached, weights, combine, better),
        table_ok(dp, weights, combine, b),
        1 <= b < BINS,
        0 <= p < 6,
        0 <= budget < BUDGET_COLUMNS,
        in_window(b, p, budget),
        row_optimal(dp, weights, plus, less, b - 1),
        dp[cell(b - 1, budget - two_pow(p))] is Some,
        call_ensures(
            combine,
            (cost_at(dp, b - 1, budget - two_pow(p)), weight(weights, b, p)),
            new_cost,
        ),
    ensures
        !call_ensures(better, (new_cost, unreached), false),
{
    lemma_step_facts(dp, weights, combine, better, plus, less, dom, unreached, b, p, budget, new_cost);
}

/// Row `r` is optimal under every cost model.
pub open spec fn optimal_in_models<T, F: Fn(T, T) -> T, G: Fn(T, T) -> bool>(
    dp: Seq<Option<(T, u8)>>,
    weights: Seq<[T; 6]>,
    unreached: T,
    combine: F,
    better: G,
    r: int,
) -> bool {
    forall|plus: spec_fn(T, T) -> T, less: spec_fn(T, T) -> bool, dom: spec_fn(T) -> bool|
        #[trigger] cost_model(plus, less, dom, unreached, weights, combine, better) ==> row_optimal(
            dp,
            weights,
            plus,
            less,
            r,
        )
}

/// Row `b` is optimal for the choices it has tried, under every cost model.
pub open spec fn partial_in_models<T, F: Fn(T, T) -> T, G: Fn(T, T) -> bool>(
    dp: Seq<Option<(T, u8)>>,
    weights: Seq<[T; 6]>,
    unreached: T,
    combine: F,
    better: G,
    b: int,
    p: int,
    budget: int,
) -> bool {
    forall|plus: spec_fn(T, T) -> T, less: spec_fn(T, T) -> bool, dom: spec_fn(T) -> bool|
        #[trigger] cost_model(plus, less, dom, unreached, weights, combine, better) ==> row_partial(
            dp,
            weights,
            plus,
            less,
            b,
            p,
            budget,
        )
}

/// Distributes the 256 points over the 32 bins at the least total cost.
///
/// Bin 0 starts the table at the budgets `2^p` with its own costs, for those
/// costs that `better` prefers to `unreached`; every later
/// bin `b` extends each filled cell of the row before by each exponent `p`,
/// over the budgets of `in_window(b, p, s)`. A new cost enters an empty cell
/// when `better(new, unreached)`, and replaces a held cost when
/// `better(new, held)`. The exponents are then read back from the cell
/// `(31, 256)`; an empty cell reads as exponent 0.
///
/// Whenever the cell `(31, 256)` was reached, the result is a valid
/// distribution (at most 5 per bin, 256 points in total) and the returned
/// cost is the last of a chain of `combine` calls over the chosen costs, bin
/// 0 first; otherwise the returned cost is `unreached`. Under a cost model
/// (`combine` computes `plus`, `better` computes `less`, see `cost_model`), the
/// cell is always reached, the returned cost is the total of the returned
/// distribution, and no valid distribution has a total less than it.
pub fn get_bin_npts<T: Copy, F: Fn(T, T) -> T, G: Fn(T, T) -> bool>(
    weights: &[[T; 6]; 32],
    unreached: T,
    combine: F,
    better: G,
) -> (res: ([u8; 32], T))
    requires
        forall|x: T, y: T| call_requires(combine, (x, y)),
        forall|x: T, y: T| call_requires(better, (x, y)),
    ensures
        (valid_npts(res.0@) && exists|chain: Seq<T>|
            is_cost_chain(weights@, res.0@, chain, combine) && chain.last() == res.1)
            || res.1 == unreached,
        forall|plus: spec_fn(T, T) -> T, less: spec_fn(T, T) -> bool, dom: spec_fn(T) -> bool|
            #[trigger] cost_model(plus, less, dom, unreached, weights@, combine, better) ==> {
                &&& valid_npts(res.0@)
                &&& res.1 == split_cost(plus, weights@, res.0@)
                &&& forall|q: Seq<u8>|
                    valid_npts(q) ==> !less(#[trigger] split_cost(plus, weights@, q), res.1)
            },
{
    let ghost w = weights@;
    let mut dp: Vec<Option<(T, u8)>> = Vec::new();
    let mut i: usize = 0;
    while i < TABLE_CELLS
        invariant
            0 <= i <= TABLE_CELLS,
            dp@.len() == i,
            forall|j: int| 0 <= j < i ==> #[trigger] dp@[j] is None,
        decreases TABLE_CELLS - i,
    {
        dp.push(None);
        i = i + 1;
    }
    proof {
        assert forall|b: int, s: int|
            0 <= b < BINS && 0 <= s < BUDGET_COLUMNS implies #[trigger] cell_ok(
            dp@,
            w,
            combine,
            b,
            s,
        ) by {
            assert(dp@[cell(b, s)] is None);
        }
        assert forall|b: int, s: int|
            0 < b < BINS && 0 <= s < BUDGET_COLUMNS implies #[trigger] dp@[cell(b, s)] is None by {
            assert(dp@[cell(b, s)] is None);
        }
    }
    // The first bin: `2^p` points at its own cost.
    let mut p: usize = 0;
    while p < 6
        invariant
            0 <= p <= 6,
            w == weights@,
            forall|x: T, y: T| call_requires(better, (x, y)),
            table_ok(dp@, w, combine, 0),
            forall|p2: int|
                0 <= p2 < p ==> #[trigger] dp@[cell(0, two_pow(p2))] is Some || call_ensures(
                    better,
                    (weight(w, 0, p2), unreached),
                    false,
                ),
        decreases 6 - p,
    {
        let n = bin_point_count(p as u8);
        let cost = weights[0][p];
        if better(cost, unreached) {
            let v = Some((cost, p as u8));
            proof {
                lemma_write_cell(dp@, w, combine, 0, n as int, v);
            }
            dp.set(n, v);
        }
        proof {
            assert forall|p2: int|
                0 <= p2 < p + 1 implies #[trigger] dp@[cell(0, two_pow(p2))] is Some || call_ensures(
                better,
                (weight(w, 0, p2), unreached),
                false,
            ) by {
                if p2 < p {
                    assert(two_pow(p2) != two_pow(p as int));
                }
            }
        }
        p = p + 1;
    }
    proof {
        assert forall|plus: spec_fn(T, T) -> T, less: spec_fn(T, T) -> bool, dom: spec_fn(T) -> bool|
            #[trigger] cost_model(plus, less, dom, unreached, w, combine, better) implies row_optimal(
            dp@,
            w,
            plus,
            less,
            0,
        ) by {
            lemma_row_zero(dp@, w, combine, better, plus, less, dom, unreached);
        }
    }
    // The other bins, each extending the row before.
    let mut b: usize = 1;
    while b < BINS
        invariant
            1 <= b <= BINS,
            w == weights@,
            forall|x: T, y: T| call_requires(combine, (x, y)),
            forall|x: T, y: T| call_requires(better, (x, y)),
            table_ok(dp@, w, combine, b - 1),
            optimal_in_models(dp@, w, unreached, combine, better, b - 1),
        decreases BINS - b,
    {
        proof {
            assert forall|plus: spec_fn(T, T) -> T, less: spec_fn(T, T) -> bool, dom: spec_fn(T) -> bool|
                #[trigger] cost_model(plus, less, dom, unreached, w, combine, better) implies row_partial(dp@, w, plus, less, b as int, 0, b + two_pow(0)) by {
                lemma_partial_start(dp@, w, plus, less, b as int);
            }
        }
        let mut p: usize = 0;
        while p < 6
            invariant
                1 <= b < BINS,
                0 <= p <= 6,
                w == weights@,
                    forall|x: T, y: T| call_requires(combine, (x, y)),
                forall|x: T, y: T| call_requires(better, (x, y)),
                table_ok(dp@, w, combine, b as int),
                optimal_in_models(dp@, w, unreached, combine, better, b - 1),
                partial_in_models(dp@, w, unreached, combine, better, b as int, p as int, b + two_pow(p as int)),
            decreases 6 - p,
        {
            let npts = bin_point_count(p as u8);
            let min_budget = b + npts;
            let max_budget = if (b + 1) * 32 + npts < POINT_BUDGET {
                (b + 1) * 32 + npts
            } else {
                POINT_BUDGET
            };
            let mut budget = min_budget;
            while budget <= max_budget
                invariant
                    1 <= b < BINS,
                    0 <= p < 6,
                    npts == two_pow(p as int),
                    min_budget == b + npts,
                    max_budget == window_end(b as int, p as int),
                    max_budget <= POINT_BUDGET,
                    max_budget <= 32 * (b + 1) + npts,
                    min_budget <= budget <= max_budget + 1,
                    w == weights@,
                            forall|x: T, y: T| call_requires(combine, (x, y)),
                    forall|x: T, y: T| call_requires(better, (x, y)),
                    table_ok(dp@, w, combine, b as int),
                    optimal_in_models(dp@, w, unreached, combine, better, b - 1),
                    partial_in_models(dp@, w, unreached, combine, better, b as int, p as int, budget as int),
                decreases max_budget + 1 - budget,
            {
                let from = (b - 1) * BUDGET_COLUMNS + budget - npts;
                let at = b * BUDGET_COLUMNS + budget;
                let ghost (bi, pi, si) = (b as int, p as int, budget as int);
                proof {
                    assert(from == cell(b - 1, budget - npts));
                    assert(at == cell(bi, si));
                }
                match dp[from] {
                    None => {
                        proof {
                            assert forall|plus: spec_fn(T, T) -> T, less: spec_fn(T, T) -> bool, dom: spec_fn(T) -> bool|
                                #[trigger] cost_model(plus, less, dom, unreached, w, combine, better) implies row_partial(dp@, w, plus, less, bi, pi, si + 1) by {
                                lemma_step_skip(dp@, w, plus, less, bi, pi, si);
                            }
                        }
                    },
                    Some((prev, _)) => {
                        let new_cost = combine(prev, weights[b][p]);
                        let v = Some((new_cost, p as u8));
                        proof {
                            assert(in_window(bi, pi, si));
                            assert(prev == cost_at(dp@, b - 1, budget - npts));
                        }
                        let write = match dp[at] {
                            None => better(new_cost, unreached),
                            Some((held, _)) => better(new_cost, held),
                        };
                        let ghost c = new_cost;
                        if write {
                            proof {
                                lemma_write_cell(dp@, w, combine, bi, si, v);
                                let nd = dp@.update(cell(bi, si), v);
                                assert forall|plus: spec_fn(T, T) -> T, less: spec_fn(T, T) -> bool, dom: spec_fn(T) -> bool|
                                    #[trigger] cost_model(plus, less, dom, unreached, w, combine, better) implies row_partial(nd, w, plus, less, bi, pi, si + 1) && row_optimal(nd, w, plus, less, bi - 1) by {
                                    lemma_step_write(
                                        dp@, w, combine, better, plus, less, dom, unreached, bi, pi,
                                        si, c,
                                    );
                                }

                            }
                            dp.set(at, v);
                        } else {
                            proof {
                                assert forall|plus: spec_fn(T, T) -> T, less: spec_fn(T, T) -> bool, dom: spec_fn(T) -> bool|
                                    #[trigger] cost_model(plus, less, dom, unreached, w, combine, better) implies row_partial(dp@, w, plus, less, bi, pi, si + 1) by {
                                    if dp@[cell(bi, si)] is None {
                                        lemma_step_fills_empty(
                                            dp@, w, combine, better, plus, less, dom, unreached, bi,
                                            pi, si, c,
                                        );
                                    } else {
                                        lemma_step_keep(
                                            dp@, w, combine, better, plus, less, dom, unreached, bi,
                                            pi, si, c,
                                        );
                                    }
                                }

                            }
                        }
                    },
                }
                budget = budget + 1;
            }
            proof {
                assert forall|plus: spec_fn(T, T) -> T, less: spec_fn(T, T) -> bool, dom: spec_fn(T) -> bool|
                    #[trigger] cost_model(plus, less, dom, unreached, w, combine, better) implies row_partial(dp@, w, plus, less, b as int, p + 1, b + two_pow(p + 1)) by {
                    lemma_partial_next(dp@, w, plus, less, b as int, p as int);
                }
            }
            p = p + 1;
        }
        proof {
            assert forall|plus: spec_fn(T, T) -> T, less: spec_fn(T, T) -> bool, dom: spec_fn(T) -> bool|
                #[trigger] cost_model(plus, less, dom, unreached, w, combine, better) implies row_optimal(dp@, w, plus, less, b as int) by {
                lemma_partial_done(dp@, w, plus, less, b as int, b + two_pow(6));
            }
        }
        b = b + 1;
    }
    // Read the exponents back from the full budget of the last bin.
    let ghost table = dp@;
    let ghost filled = table[cell(31, 256)] is Some;
    let ghost path = path_of(table, 31, 256);
    proof {
        if filled {
            lemma_path_sound(table, w, combine, 31, 31, 256);
        }
    }
    let total = match dp[31 * BUDGET_COLUMNS + POINT_BUDGET] {
        Some((c, _)) => c,
        None => unreached,
    };
    let mut bin_npts: [u8; 32] = [0u8; 32];
    let mut budget: usize = POINT_BUDGET;
    let mut b: usize = BINS;
    while b > 0
        invariant
            0 <= b <= BINS,
            table == dp@,
            table_ok(table, w, combine, 31),
            filled == (table[cell(31, 256)] is Some),
            path == path_of(table, 31, 256),
            filled ==> path.len() == BINS,
            b <= budget < BUDGET_COLUMNS,
            filled && b > 0 ==> table[cell(b - 1, budget as int)] is Some,
            filled && b > 0 ==> path_of(table, b - 1, budget as int) == path.subrange(0, b as int),
            filled ==> forall|j: int| b <= j < BINS ==> #[trigger] bin_npts@[j] == path[j],
            bin_npts@.len() == BINS,
        decreases b,
    {
        b = b - 1;
        proof {
            assert(b * BUDGET_COLUMNS + budget == cell(b as int, budget as int));
            assert(cell_ok(table, w, combine, b as int, budget as int));
        }
        let pw = match dp[b * BUDGET_COLUMNS + budget] {
            Some((_, pw)) => pw,
            None => 0,
        };
        proof {
            if filled {
                let sub = path_of(table, b as int, budget as int);
                assert(sub == path_of(table, b - 1, budget - two_pow(pw as int)).push(pw));
                assert(sub[b as int] == pw);
                assert(path.subrange(0, b as int + 1)[b as int] == pw);
                if b > 0 {
                    assert(path.subrange(0, b as int) =~= path.subrange(0, b as int + 1).drop_last());
                    assert(sub.drop_last() =~= path_of(table, b - 1, budget - two_pow(pw as int)));
                }
            }
        }
        bin_npts[b] = pw;
        if b > 0 {
            budget = budget - bin_point_count(pw);
        }
    }
    proof {
        if filled {
            assert(bin_npts@ =~= path);
            assert(points_before(path, 32) == 256);
        }
        assert forall|plus: spec_fn(T, T) -> T, less: spec_fn(T, T) -> bool, dom: spec_fn(T) -> bool|
            #[trigger] cost_model(plus, less, dom, unreached, w, combine, better) implies {
            &&& valid_npts(bin_npts@)
            &&& total == split_cost(plus, w, bin_npts@)
            &&& forall|q: Seq<u8>| valid_npts(q) ==> !less(#[trigger] split_cost(plus, w, q), total)
        } by {
            // Every valid distribution, among them the one with 8 points per
            // bin, reaches the last cell.
            let eight = Seq::new(32, |j: int| 3u8);
            lemma_eight_per_bin(eight);
            assert(prefix_ok(eight, 31));
            assert(row_optimal(table, w, plus, less, 31));
            assert(filled);
            lemma_cell_cost(table, w, combine, better, plus, less, dom, unreached, 31, 31, 256);
            assert(bin_npts@ =~= path);
            assert forall|q: Seq<u8>| valid_npts(q) implies !less(
                #[trigger] split_cost(plus, w, q),
                total,
            ) by {
                assert(forall|j: int| 0 <= j <= 31 ==> #[trigger] q[j] <= MAX_POW);
                assert(prefix_ok(q, 31));
            }
        }
    }
    (bin_npts, total)
}

/// Eight points in every bin spend the budget.
proof fn lemma_eight_per_bin(q: Seq<u8>)
    requires
        q.len() == BINS,
        forall|j: int| 0 <= j < BINS ==> #[trigger] q[j] == 3,
    ensures
        forall|j: int| 0 <= j <= BINS ==> #[trigger] points_before(q, j) == 8 * j,
{
    assert forall|j: int| 0 <= j <= BINS implies #[trigger] points_before(q, j) == 8 * j by {
        lemma_eight_prefix(q, j);
    }
}

/// The prefix sums of the all-8 distribution.
proof fn lemma_eight_prefix(q: Seq<u8>, j: int)
    requires
        q.len() == BINS,
        forall|i: int| 0 <= i < BINS ==> #[trigger] q[i] == 3,
        0 <= j <= BINS,
    ensures
        points_before(q, j) == 8 * j,
    decreases j,
{
    if j > 0 {
        lemma_eight_prefix(q, j - 1);
        assert(q[j - 1] == 3);
    }
}

} // verus!
