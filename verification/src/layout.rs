//! The fixed geometry of the sampler: 32 bins over a uniform grid of
//! 32 * 32 + 1 points, thinned down to a budget of 256 points plus one
//! closing point.
use vstd::prelude::*;

verus! {

/// Number of bins the unit interval is split into.
pub const BINS: usize = 32;

/// Number of grid intervals inside one bin of the full grid.
pub const BIN_WIDTH: usize = 32;

/// Points of the full uniform grid: 32 bins of 32 intervals, plus the closing point.
pub const GRID_LEN: usize = 1025;

/// Number of points the thinned bins share between them.
pub const POINT_BUDGET: usize = 256;

/// Number of stored values: the budget plus the point closing the last bin.
pub const VALS_LEN: usize = 257;

/// Largest exponent a bin can have: a bin holds `2^p` points, `p <= 5`.
pub const MAX_POW: u8 = 5;

/// `2^e` for the small exponents the layout uses (`0 <= e <= 11`).
pub open spec fn two_pow(e: int) -> int
    recommends
        0 <= e <= 11,
{
    if e <= 0 {
        1
    } else if e == 1 {
        2
    } else if e == 2 {
        4
    } else if e == 3 {
        8
    } else if e == 4 {
        16
    } else if e == 5 {
        32
    } else if e == 6 {
        64
    } else if e == 7 {
        128
    } else if e == 8 {
        256
    } else if e == 9 {
        512
    } else if e == 10 {
        1024
    } else {
        2048
    }
}

/// Number of points held by a bin whose exponent is `p`.
pub open spec fn bin_points(p: int) -> int {
    two_pow(p)
}

/// Total number of points held by the bins `0 .. b`.
pub open spec fn points_before(npts: Seq<u8>, b: int) -> int
    decreases b,
{
    if b <= 0 {
        0
    } else {
        points_before(npts, b - 1) + bin_points(npts[b - 1] as int)
    }
}

/// A distribution of the point budget over the bins: one exponent per bin,
/// each at most 5, and `2^p` summed over all bins equal to the budget.
pub open spec fn valid_npts(npts: Seq<u8>) -> bool {
    &&& npts.len() == BINS
    &&& forall|b: int| 0 <= b < BINS ==> #[trigger] npts[b] <= MAX_POW
    &&& points_before(npts, BINS as int) == POINT_BUDGET
}

/// The prefix sums of the points only grow, one bin at a time.
pub proof fn lemma_points_before_mono(npts: Seq<u8>, a: int, b: int)
    requires
        0 <= a <= b,
    ensures
        points_before(npts, a) + (b - a) <= points_before(npts, b),
    decreases b - a,
{
    if a < b {
        lemma_points_before_mono(npts, a, b - 1);
        assert(bin_points(npts[b - 1] as int) >= 1);
    }
}

/// The shifts `1 << e` for `e <= 11`, one by one.
proof fn lemma_shl_values(e: u16)
    by (bit_vector)
    ensures
        e == 0 ==> (1u16 << e) == 1u16 && (1usize << e) == 1usize,
        e == 1 ==> (1u16 << e) == 2u16 && (1usize << e) == 2usize,
        e == 2 ==> (1u16 << e) == 4u16 && (1usize << e) == 4usize,
        e == 3 ==> (1u16 << e) == 8u16 && (1usize << e) == 8usize,
        e == 4 ==> (1u16 << e) == 16u16 && (1usize << e) == 16usize,
        e == 5 ==> (1u16 << e) == 32u16 && (1usize << e) == 32usize,
        e == 6 ==> (1u16 << e) == 64u16 && (1usize << e) == 64usize,
        e == 7 ==> (1u16 << e) == 128u16 && (1usize << e) == 128usize,
        e == 8 ==> (1u16 << e) == 256u16 && (1usize << e) == 256usize,
        e == 9 ==> (1u16 << e) == 512u16 && (1usize << e) == 512usize,
        e == 10 ==> (1u16 << e) == 1024u16 && (1usize << e) == 1024usize,
        e == 11 ==> (1u16 << e) == 2048u16 && (1usize << e) == 2048usize,
{
}

/// `1 << e` is `2^e` for the exponents the layout uses.
pub proof fn lemma_shl_is_two_pow(e: u16)
    requires
        e <= 11,
    ensures
        (1u16 << e) as int == two_pow(e as int),
        (1usize << e) as int == two_pow(e as int),
{
    lemma_shl_values(e);
}

/// The number of points a bin with exponent `p` holds.
pub fn bin_point_count(p: u8) -> (n: usize)
    requires
        p <= MAX_POW,
    ensures
        n == bin_points(p as int),
{
    proof {
        lemma_shl_is_two_pow(p as u16);
    }
    1usize << (p as u16)
}

/// Whether `npts` is a valid distribution of the point budget.
pub fn is_valid_npts(npts: &[u8; 32]) -> (r: bool)
    ensures
        r == valid_npts(npts@),
{
    let mut total: usize = 0;
    let mut b: usize = 0;
    while b < BINS
        invariant
            0 <= b <= BINS,
            total == points_before(npts@, b as int),
            total <= 32 * b,
            forall|c: int| 0 <= c < b ==> #[trigger] npts@[c] <= MAX_POW,
        decreases BINS - b,
    {
        if npts[b] > MAX_POW {
            return false;
        }
        total = total + bin_point_count(npts[b]);
        b = b + 1;
    }
    total == POINT_BUDGET
}

} // verus!
