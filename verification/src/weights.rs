//! The cost of thinning each bin of the uniform grid.
//!
//! A bin holding `2^p` points keeps every `step = 2^(5 - p)`-th of its grid
//! points, so its 32 grid intervals fall into `2^p` windows of `step`
//! intervals. In each window the `step - 1` grid points between the two kept
//! ends are lost; each contributes `point_err(f0, f1, step, t, grid[t])`,
//! the error of its interpolation between the ends `f0` and `f1` at position
//! `t`. The errors are summed with `sum`, window by window, from `zero`.
use vstd::prelude::*;
use vstd::arithmetic::div_mod::lemma_fundamental_div_mod_converse;
use crate::binned::{
    is_thinning_of, lemma_bin_stride, lemma_segment_on_grid, lemma_stride_in_bin, segment_hi,
    segment_lo,
};
use crate::layout::{BINS, BIN_WIDTH, GRID_LEN, bin_point_count, two_pow, valid_npts};
use crate::table::{interp_bits_of, is_layout_of, lookup_idx, lookup_interp, probe_bin};

verus! {

/// `sum` computes `plus` and `point_err` computes `perr`.
pub open spec fn error_model<T, E: Fn(T, T, usize, usize, T) -> T, S: Fn(T, T) -> T>(
    plus: spec_fn(T, T) -> T,
    perr: spec_fn(T, T, usize, usize, T) -> T,
    point_err: E,
    sum: S,
) -> bool {
    &&& forall|x: T, y: T, r: T| #[trigger] call_ensures(sum, (x, y), r) ==> r == plus(x, y)
    &&& forall|f0: T, f1: T, step: usize, t: usize, v: T, r: T|
        #[trigger] call_ensures(point_err, (f0, f1, step, t, v), r) ==> r == perr(f0, f1, step, t, v)
}

/// The grid index where window `k` of bin `b` starts, for `2^p` points.
pub open spec fn window_start(b: int, p: int, k: int) -> int {
    BIN_WIDTH * b + k * two_pow(5 - p)
}

/// The errors of the first `m` lost points of window `k` of bin `b`, summed
/// from `zero`.
pub open spec fn window_error<T>(
    plus: spec_fn(T, T) -> T,
    perr: spec_fn(T, T, usize, usize, T) -> T,
    zero: T,
    grid: Seq<T>,
    b: int,
    p: int,
    k: int,
    m: int,
) -> T
    decreases m,
{
    if m <= 0 {
        zero
    } else {
        let step = two_pow(5 - p);
        let base = window_start(b, p, k);
        plus(
            window_error(plus, perr, zero, grid, b, p, k, m - 1),
            perr(grid[base], grid[base + step], step as usize, m as usize, grid[base + m]),
        )
    }
}

/// The errors of the first `n` windows of bin `b`, window by window, summed
/// from `zero`.
pub open spec fn bin_error<T>(
    plus: spec_fn(T, T) -> T,
    perr: spec_fn(T, T, usize, usize, T) -> T,
    zero: T,
    grid: Seq<T>,
    b: int,
    p: int,
    n: int,
) -> T
    decreases n,
{
    if n <= 0 {
        zero
    } else {
        plus(
            bin_error(plus, perr, zero, grid, b, p, n - 1),
            window_error(plus, perr, zero, grid, b, p, n - 1, two_pow(5 - p) - 1),
        )
    }
}

/// The cost of holding `2^p` points in bin `b`: the errors of all its
/// windows.
pub open spec fn thinning_error<T>(
    plus: spec_fn(T, T) -> T,
    perr: spec_fn(T, T, usize, usize, T) -> T,
    zero: T,
    grid: Seq<T>,
    b: int,
    p: int,
) -> T {
    bin_error(plus, perr, zero, grid, b, p, two_pow(p))
}

/// The costs of every bin with every number of points: `weights[b][p]` is the
/// error of thinning bin `b` to `2^p` points. With 32 points nothing is lost
/// and every window sums no error at all.
pub fn get_error_weights<T: Copy, E: Fn(T, T, usize, usize, T) -> T, S: Fn(T, T) -> T>(
    grid: &[T],
    zero: T,
    point_err: E,
    sum: S,
) -> (weights: [[T; 6]; 32])
    requires
        grid@.len() == GRID_LEN,
        forall|f0: T, f1: T, step: usize, t: usize, v: T|
            call_requires(point_err, (f0, f1, step, t, v)),
        forall|x: T, y: T| call_requires(sum, (x, y)),
    ensures
        forall|plus: spec_fn(T, T) -> T, perr: spec_fn(T, T, usize, usize, T) -> T|
            #[trigger] error_model(plus, perr, point_err, sum) ==> forall|b: int, p: int|
                0 <= b < BINS && 0 <= p < 6 ==> #[trigger] weights@[b]@[p] == thinning_error(
                    plus,
                    perr,
                    zero,
                    grid@,
                    b,
                    p,
                ),
{
    let mut weights: [[T; 6]; 32] = [[zero; 6]; 32];
    let mut b: usize = 0;
    while b < BINS
        invariant
            0 <= b <= BINS,
            grid@.len() == GRID_LEN,
            forall|f0: T, f1: T, step: usize, t: usize, v: T|
                call_requires(point_err, (f0, f1, step, t, v)),
            forall|x: T, y: T| call_requires(sum, (x, y)),
            forall|plus: spec_fn(T, T) -> T, perr: spec_fn(T, T, usize, usize, T) -> T|
                #[trigger] error_model(plus, perr, point_err, sum) ==> forall|c: int, p: int|
                    0 <= c < b && 0 <= p < 6 ==> #[trigger] weights@[c]@[p] == thinning_error(
                        plus,
                        perr,
                        zero,
                        grid@,
                        c,
                        p,
                    ),
        decreases BINS - b,
    {
        let mut row: [T; 6] = [zero; 6];
        let mut p: usize = 0;
        while p < 6
            invariant
                0 <= b < BINS,
                0 <= p <= 6,
                grid@.len() == GRID_LEN,
                forall|f0: T, f1: T, step: usize, t: usize, v: T|
                    call_requires(point_err, (f0, f1, step, t, v)),
                forall|x: T, y: T| call_requires(sum, (x, y)),
                forall|plus: spec_fn(T, T) -> T, perr: spec_fn(T, T, usize, usize, T) -> T|
                    #[trigger] error_model(plus, perr, point_err, sum) ==> forall|q: int|
                        0 <= q < p ==> #[trigger] row@[q] == thinning_error(
                            plus,
                            perr,
                            zero,
                            grid@,
                            b as int,
                            q,
                        ),
            decreases 6 - p,
        {
            let step = bin_point_count(5 - p as u8);
            let windows = bin_point_count(p as u8);
            proof {
                lemma_bin_stride(p as int);
            }
            let mut weight = zero;
            let mut k: usize = 0;
            let mut base: usize = BIN_WIDTH * b;
            while k < windows
                invariant
                    0 <= b < BINS,
                    0 <= p < 6,
                    0 <= k <= windows,
                    windows == two_pow(p as int),
                    step == two_pow(5 - p as int),
                    base == window_start(b as int, p as int, k as int),
                    grid@.len() == GRID_LEN,
                    forall|f0: T, f1: T, step: usize, t: usize, v: T|
                        call_requires(point_err, (f0, f1, step, t, v)),
                    forall|x: T, y: T| call_requires(sum, (x, y)),
                    forall|plus: spec_fn(T, T) -> T, perr: spec_fn(T, T, usize, usize, T) -> T|
                        #[trigger] error_model(plus, perr, point_err, sum) ==> weight == bin_error(
                            plus,
                            perr,
                            zero,
                            grid@,
                            b as int,
                            p as int,
                            k as int,
                        ),
                decreases windows - k,
            {
                proof {
                    lemma_stride_in_bin(p as int, k as int);
                }
                let f0 = grid[base];
                let f1 = grid[base + step];
                let mut err = zero;
                let mut t: usize = 1;
                while t < step
                    invariant
                        0 <= b < BINS,
                        0 <= p < 6,
                        0 <= k < windows,
                        1 <= t <= step,
                        windows == two_pow(p as int),
                        step == two_pow(5 - p as int),
                        base == window_start(b as int, p as int, k as int),
                        base + step < GRID_LEN,
                        grid@.len() == GRID_LEN,
                        f0 == grid@[base as int],
                        f1 == grid@[base + step],
                        forall|f0: T, f1: T, step: usize, t: usize, v: T|
                            call_requires(point_err, (f0, f1, step, t, v)),
                        forall|x: T, y: T| call_requires(sum, (x, y)),
                        forall|plus: spec_fn(T, T) -> T, perr: spec_fn(T, T, usize, usize, T) -> T|
                            #[trigger] error_model(plus, perr, point_err, sum) ==> err
                                == window_error(
                                plus,
                                perr,
                                zero,
                                grid@,
                                b as int,
                                p as int,
                                k as int,
                                t - 1,
                            ),
                    decreases step - t,
                {
                    let e = point_err(f0, f1, step, t, grid[base + t]);
                    let ghost before = err;
                    err = sum(err, e);
                    proof {
                        assert forall|
                            plus: spec_fn(T, T) -> T,
                            perr: spec_fn(T, T, usize, usize, T) -> T,
                        | #[trigger] error_model(plus, perr, point_err, sum) implies err
                            == window_error(
                            plus,
                            perr,
                            zero,
                            grid@,
                            b as int,
                            p as int,
                            k as int,
                            t as int,
                        ) by {
                            assert(e == perr(f0, f1, step, t, grid@[base + t]));
                            assert(err == plus(before, e));
                        }
                    }
                    t = t + 1;
                }
                let ghost before = weight;
                weight = sum(weight, err);
                proof {
                    assert forall|
                        plus: spec_fn(T, T) -> T,
                        perr: spec_fn(T, T, usize, usize, T) -> T,
                    | #[trigger] error_model(plus, perr, point_err, sum) implies weight == bin_error(
                        plus,
                        perr,
                        zero,
                        grid@,
                        b as int,
                        p as int,
                        k + 1,
                    ) by {
                        assert(weight == plus(before, err));
                    }
                }
                k = k + 1;
                base = base + step;
            }
            let ghost row_before = row@;
            row[p] = weight;
            proof {
                assert forall|
                    plus: spec_fn(T, T) -> T,
                    perr: spec_fn(T, T, usize, usize, T) -> T,
                | #[trigger] error_model(plus, perr, point_err, sum) implies forall|q: int|
                    0 <= q < p + 1 ==> #[trigger] row@[q] == thinning_error(
                        plus,
                        perr,
                        zero,
                        grid@,
                        b as int,
                        q,
                    ) by {
                    assert forall|q: int| 0 <= q < p + 1 implies #[trigger] row@[q] == thinning_error(
                        plus,
                        perr,
                        zero,
                        grid@,
                        b as int,
                        q,
                    ) by {
                        if q < p {
                            assert(row@[q] == row_before[q]);
                        }
                    }
                }
            }
            p = p + 1;
        }
        let ghost weights_before = weights@;
        weights[b] = row;
        proof {
            assert forall|
                plus: spec_fn(T, T) -> T,
                perr: spec_fn(T, T, usize, usize, T) -> T,
            | #[trigger] error_model(plus, perr, point_err, sum) implies forall|c: int, p: int|
                0 <= c < b + 1 && 0 <= p < 6 ==> #[trigger] weights@[c]@[p] == thinning_error(
                    plus,
                    perr,
                    zero,
                    grid@,
                    c,
                    p,
                ) by {
                assert forall|c: int, p: int| 0 <= c < b + 1 && 0 <= p < 6 implies #[trigger] weights@[
                    c
                ]@[p] == thinning_error(plus, perr, zero, grid@, c, p) by {
                    if c < b {
                        assert(weights@[c] == weights_before[c]);
                    }
                }
            }
        }
        b = b + 1;
    }
    weights
}

/// The probe of a lost grid point: bin `b` at `2^p` points, window `k`,
/// offset `m`. It lies in bin `b`, and the low `11 - p` bits of the probe are
/// `64 m`.
proof fn lemma_lost_probe(b: int, p: int, k: int, m: int)
    requires
        0 <= b < BINS,
        0 <= p <= 5,
        0 <= k < two_pow(p),
        0 <= m < two_pow(5 - p),
    ensures
        ({
            let step = two_pow(5 - p);
            let probe = 64 * ((BIN_WIDTH * b + k * two_pow(5 - p)) + m);
            &&& 0 <= probe < 65536
            &&& probe / 2048 == b
            &&& probe % two_pow(11 - p) == 64 * m
            &&& probe / 64 == (BIN_WIDTH * b + k * two_pow(5 - p)) + m
            &&& two_pow(11 - p) == 64 * step
        }),
{
    let probe = 64 * ((BIN_WIDTH * b + k * two_pow(5 - p)) + m);
    lemma_fundamental_div_mod_converse(probe, 64, (BIN_WIDTH * b + k * two_pow(5 - p)) + m, 0);
    if p == 0 {
        assert(two_pow(5 - p) == 32 && two_pow(p) == 1);
        lemma_fundamental_div_mod_converse(probe, 2048, b, 64 * m);
    } else if p == 1 {
        assert(two_pow(5 - p) == 16 && two_pow(p) == 2);
        lemma_fundamental_div_mod_converse(probe, 2048, b, 1024 * k + 64 * m);
        lemma_fundamental_div_mod_converse(probe, 1024, 2 * b + k, 64 * m);
    } else if p == 2 {
        assert(two_pow(5 - p) == 8 && two_pow(p) == 4);
        lemma_fundamental_div_mod_converse(probe, 2048, b, 512 * k + 64 * m);
        lemma_fundamental_div_mod_converse(probe, 512, 4 * b + k, 64 * m);
    } else if p == 3 {
        assert(two_pow(5 - p) == 4 && two_pow(p) == 8);
        lemma_fundamental_div_mod_converse(probe, 2048, b, 256 * k + 64 * m);
        lemma_fundamental_div_mod_converse(probe, 256, 8 * b + k, 64 * m);
    } else if p == 4 {
        assert(two_pow(5 - p) == 2 && two_pow(p) == 16);
        lemma_fundamental_div_mod_converse(probe, 2048, b, 128 * k + 64 * m);
        lemma_fundamental_div_mod_converse(probe, 128, 16 * b + k, 64 * m);
    } else {
        assert(two_pow(5 - p) == 1 && two_pow(p) == 32);
        lemma_fundamental_div_mod_converse(probe, 2048, b, 64 * k + 64 * m);
        lemma_fundamental_div_mod_converse(probe, 64, 32 * b + k, 64 * m);
    }
}

/// Law: every lost grid point is weighed against the segment the sampler
/// reads for it. Take any table laid out from a distribution giving bin `b`
/// the exponent `p`, and the values thinned from `grid` by it. For the probe
/// `q` of the `m`-th grid point of window `k`, the error added for that point
/// is `perr(f0, f1, s, t, v)` where `f0` and `f1` are the two stored values the
/// lookup of `q` interpolates between, `s` is its interpolation span and `t`
/// its interpolation weight in grid units, and `v` is the grid value at `q`.
pub proof fn lemma_lost_point_on_segment<T>(
    plus: spec_fn(T, T) -> T,
    perr: spec_fn(T, T, usize, usize, T) -> T,
    zero: T,
    grid: Seq<T>,
    vals: Seq<T>,
    ix: Seq<u8>,
    npts: Seq<u8>,
    b: int,
    k: int,
    m: int,
)
    requires
        valid_npts(npts),
        is_layout_of(ix, npts),
        grid.len() == GRID_LEN,
        is_thinning_of(vals, grid, npts),
        0 <= b < BINS,
        0 <= k < two_pow(npts[b] as int),
        1 <= m < two_pow(5 - npts[b]),
    ensures
        ({
            let p = npts[b] as int;
            let q = 64 * ((BIN_WIDTH * b + k * two_pow(5 - p)) + m);
            let idx = lookup_idx(ix, q);
            let span = two_pow(interp_bits_of(ix, probe_bin(q))) / 64;
            window_error(plus, perr, zero, grid, b, p, k, m) == plus(
                window_error(plus, perr, zero, grid, b, p, k, m - 1),
                perr(
                    vals[idx],
                    vals[idx + 1],
                    span as usize,
                    (lookup_interp(ix, q) / 64) as usize,
                    grid[q / 64],
                ),
            )
        }),
{
    let p = npts[b] as int;
    let q = 64 * ((BIN_WIDTH * b + k * two_pow(5 - p)) + m);
    assert(npts[b] <= 5);
    lemma_lost_probe(b, p, k, m);
    assert(crate::table::start_of(ix, b) == crate::layout::points_before(npts, b));
    assert(interp_bits_of(ix, b) == 11 - p);
    lemma_segment_on_grid(ix, vals, grid, npts, q);
    assert(probe_bin(q) == b);
    assert(lookup_interp(ix, q) == 64 * m);
    assert(segment_lo(ix, q) == (BIN_WIDTH * b + k * two_pow(5 - p)));
    assert(segment_hi(ix, q) == (BIN_WIDTH * b + k * two_pow(5 - p)) + two_pow(5 - p));
}

/// The sum of `grid[lo .. hi]`.
pub open spec fn grid_sum(grid: Seq<int>, lo: int, hi: int) -> int
    decreases hi - lo,
{
    if hi <= lo {
        0
    } else {
        grid_sum(grid, lo, hi - 1) + grid[hi - 1]
    }
}

/// The sum of the grid points that bin `b` keeps in its first `n` windows.
pub open spec fn kept_sum(grid: Seq<int>, b: int, p: int, n: int) -> int
    decreases n,
{
    if n <= 0 {
        0
    } else {
        kept_sum(grid, b, p, n - 1) + grid[BIN_WIDTH * b + (n - 1) * two_pow(5 - p)]
    }
}

/// Sums over adjacent ranges add up.
proof fn lemma_grid_sum_split(grid: Seq<int>, lo: int, mid: int, hi: int)
    requires
        lo <= mid <= hi,
    ensures
        grid_sum(grid, lo, mid) + grid_sum(grid, mid, hi) == grid_sum(grid, lo, hi),
    decreases hi - mid,
{
    if mid < hi {
        lemma_grid_sum_split(grid, lo, mid, hi - 1);
    }
}

/// With the point's own value as its error, a window sums its lost points.
proof fn lemma_window_sums_lost(
    plus: spec_fn(int, int) -> int,
    perr: spec_fn(int, int, usize, usize, int) -> int,
    grid: Seq<int>,
    b: int,
    p: int,
    k: int,
    m: int,
)
    requires
        forall|x: int, y: int| #[trigger] plus(x, y) == x + y,
        forall|f0: int, f1: int, s: usize, t: usize, v: int| #[trigger] perr(f0, f1, s, t, v) == v,
        m >= 0,
    ensures
        window_error(
            plus,
            perr,
            0,
            grid,
            b,
            p,
            k,
            m,
        ) == grid_sum(grid, (BIN_WIDTH * b + k * two_pow(5 - p)) + 1, (BIN_WIDTH * b + k * two_pow(5 - p)) + m + 1),
    decreases m,
{
    if m > 0 {
        lemma_window_sums_lost(plus, perr, grid, b, p, k, m - 1);
    }
}

/// With the point's own value as its error, the first `n` windows sum the
/// points they cover but do not keep.
proof fn lemma_bin_sums_lost(
    plus: spec_fn(int, int) -> int,
    perr: spec_fn(int, int, usize, usize, int) -> int,
    grid: Seq<int>,
    b: int,
    p: int,
    n: int,
)
    requires
        forall|x: int, y: int| #[trigger] plus(x, y) == x + y,
        forall|f0: int, f1: int, s: usize, t: usize, v: int| #[trigger] perr(f0, f1, s, t, v) == v,
        0 <= p <= 5,
        n >= 0,
    ensures
        bin_error(
            plus,
            perr,
            0,
            grid,
            b,
            p,
            n,
        ) == grid_sum(grid, window_start(b, p, 0), window_start(b, p, n)) - kept_sum(
            grid,
            b,
            p,
            n,
        ),
    decreases n,
{
    if n > 0 {
        lemma_bin_sums_lost(plus, perr, grid, b, p, n - 1);
        let step = two_pow(5 - p);
        let w = window_start(b, p, n - 1);
        lemma_window_sums_lost(plus, perr, grid, b, p, n - 1, step - 1);
        assert(window_start(b, p, n) == w + step) by {
            assert(n * step == (n - 1) * step + step) by (nonlinear_arith);
        }
        assert(window_start(b, p, 0) <= w) by {
            assert(0 <= (n - 1) * step) by (nonlinear_arith)
                requires
                    n >= 1,
                    step >= 1,
            ;
        }
        lemma_grid_sum_split(grid, window_start(b, p, 0), w, w + step);
        lemma_grid_sum_split(grid, w, w + 1, w + step);
        assert(grid_sum(grid, w, w) == 0);
        assert(grid_sum(grid, w, w + 1) == grid[w]);
    }
}

/// Law: every grid point of a bin that the bin does not keep is weighed
/// exactly once. With integer costs, `+` as the sum and the point's own grid
/// value as its error, the weight of bin `b` at `2^p` points is the sum of
/// the bin's 32 grid points minus the `2^p` it keeps.
pub proof fn lemma_each_lost_point_once(
    plus: spec_fn(int, int) -> int,
    perr: spec_fn(int, int, usize, usize, int) -> int,
    grid: Seq<int>,
    b: int,
    p: int,
)
    requires
        forall|x: int, y: int| #[trigger] plus(x, y) == x + y,
        forall|f0: int, f1: int, s: usize, t: usize, v: int| #[trigger] perr(f0, f1, s, t, v) == v,
        0 <= b < BINS,
        0 <= p <= 5,
    ensures
        thinning_error(
            plus,
            perr,
            0,
            grid,
            b,
            p,
        ) == grid_sum(grid, BIN_WIDTH * b, BIN_WIDTH * b + BIN_WIDTH) - kept_sum(
            grid,
            b,
            p,
            two_pow(p),
        ),
{
    lemma_bin_sums_lost(plus, perr, grid, b, p, two_pow(p));
    lemma_bin_stride(p);
    assert(two_pow(p) * two_pow(5 - p) == 32);
}

} // verus!
