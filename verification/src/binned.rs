//! The thinned inverse CDF: the 257 points kept from the uniform grid of
//! 1025 points, together with the index table that finds them.
use vstd::prelude::*;
use crate::layout::{
    BINS, BIN_WIDTH, GRID_LEN, POINT_BUDGET, VALS_LEN, bin_point_count, bin_points,
    lemma_points_before_mono, points_before, two_pow, valid_npts,
};
use crate::table::{
    IndexTable, interp_bits_of, is_layout_of, lemma_layout_wf, lemma_lookup_edges,
    lemma_probe_parts, lemma_span_split, lookup_idx, lookup_interp, pows_of, probe_bin, start_of,
    wf_indexing,
};

verus! {

/// Position among the stored values of the `k`-th point kept in bin `b`.
pub open spec fn slot(npts: Seq<u8>, b: int, k: int) -> int {
    points_before(npts, b) + k
}

/// Grid point copied into the `k`-th point kept in bin `b`: a bin holding
/// `2^p` points keeps every `2^(5 - p)`-th of its 32 grid points.
pub open spec fn source_index(npts: Seq<u8>, b: int, k: int) -> int {
    BIN_WIDTH * b + k * two_pow(5 - npts[b])
}

/// `vals` keeps, bin by bin, every `2^(5 - p)`-th point of `grid`, and closes
/// the last bin with the last grid point.
pub open spec fn is_thinning_of<T>(vals: Seq<T>, grid: Seq<T>, npts: Seq<u8>) -> bool {
    &&& vals.len() == VALS_LEN
    &&& vals[POINT_BUDGET as int] == grid[GRID_LEN - 1]
    &&& forall|b: int, k: int|
        0 <= b < BINS && 0 <= k < bin_points(npts[b] as int) ==> #[trigger] vals[slot(npts, b, k)]
            == grid[source_index(npts, b, k)]
}

/// Grid index where the interpolation segment of a probe starts: the probe
/// with its interpolation bits cleared, in units of the grid spacing (64).
pub open spec fn segment_lo(ix: Seq<u8>, probe: int) -> int {
    (probe - lookup_interp(ix, probe)) / 64
}

/// Grid index where the interpolation segment of a probe ends.
pub open spec fn segment_hi(ix: Seq<u8>, probe: int) -> int {
    (probe - lookup_interp(ix, probe) + two_pow(interp_bits_of(ix, probe_bin(probe)))) / 64
}

/// The two stored values a probe interpolates between, and the weight.
#[derive(Clone, Copy, Debug)]
pub struct Segment<T> {
    pub f0: T,
    pub f1: T,
    pub interp: u16,
    pub interp_bits: u8,
}

/// The thinned inverse CDF and its index table.
#[derive(Clone, Copy, Debug)]
pub struct BinnedIcdf<T> {
    table: IndexTable,
    vals: [T; 257],
}

/// A bin of `2^p` points keeps one grid point in `2^(5 - p)`, which covers
/// its 32 grid intervals exactly.
pub proof fn lemma_bin_stride(p: int)
    requires
        0 <= p <= 5,
    ensures
        two_pow(p) * two_pow(5 - p) == 32,
        two_pow(5 - p) >= 1,
        two_pow(p) >= 1,
{
}

/// `k` steps of a stride inside a bin stay inside it.
pub proof fn lemma_stride_in_bin(p: int, k: int)
    requires
        0 <= p <= 5,
        0 <= k < two_pow(p),
    ensures
        k * two_pow(5 - p) + two_pow(5 - p) <= 32,
        (k + 1) * two_pow(5 - p) == k * two_pow(5 - p) + two_pow(5 - p),
        0 <= k * two_pow(5 - p),
{
    lemma_bin_stride(p);
    let s = two_pow(5 - p);
    assert((k + 1) * s == k * s + s) by (nonlinear_arith);
    assert(k + 1 <= two_pow(p));
    assert((k + 1) * s <= two_pow(p) * s) by (nonlinear_arith)
        requires
            k + 1 <= two_pow(p),
            s >= 1,
    ;
    assert(0 <= k * s) by (nonlinear_arith)
        requires
            0 <= k,
            s >= 1,
    ;
}

/// Keeps every `2^(5 - p)`-th point of each bin of `grid`, in order, and
/// closes the last bin with the last grid point.
pub fn thin_grid<T: Copy>(grid: &[T], bin_npts: &[u8; 32]) -> (vals: [T; 257])
    requires
        grid@.len() == GRID_LEN,
        valid_npts(bin_npts@),
    ensures
        is_thinning_of(vals@, grid@, bin_npts@),
{
    let ghost npts = bin_npts@;
    // Every slot is written below but the last, which closes the last bin.
    let mut vals: [T; 257] = [grid[GRID_LEN - 1]; 257];
    let mut idx: usize = 0;
    let mut b: usize = 0;
    while b < BINS
        invariant
            0 <= b <= BINS,
            grid@.len() == GRID_LEN,
            valid_npts(npts),
            npts == bin_npts@,
            vals@.len() == VALS_LEN,
            vals@[POINT_BUDGET as int] == grid@[GRID_LEN - 1],
            idx == points_before(npts, b as int),
            forall|c: int, k: int|
                0 <= c < b && 0 <= k < bin_points(npts[c] as int) ==> #[trigger] vals@[slot(
                    npts,
                    c,
                    k,
                )] == grid@[source_index(npts, c, k)],
        decreases BINS - b,
    {
        let p = bin_npts[b];
        let count = bin_point_count(p);
        let step = bin_point_count(5 - p);
        proof {
            lemma_bin_stride(p as int);
            lemma_points_before_mono(npts, b as int + 1, BINS as int);
            lemma_points_before_mono(npts, 0, b as int);
        }
        let mut k: usize = 0;
        let mut src: usize = BIN_WIDTH * b;
        while k < count
            invariant
                0 <= b < BINS,
                0 <= k <= count,
                count == bin_points(p as int),
                step == two_pow(5 - p as int),
                p == npts[b as int],
                p <= 5,
                grid@.len() == GRID_LEN,
                vals@.len() == VALS_LEN,
                vals@[POINT_BUDGET as int] == grid@[GRID_LEN - 1],
                src == BIN_WIDTH * b + k * step,
                idx == points_before(npts, b as int) + k,
                points_before(npts, b as int + 1) <= POINT_BUDGET,
                points_before(npts, b as int) >= 0,
                points_before(npts, b as int + 1) == points_before(npts, b as int) + count,
                forall|c: int, j: int|
                    0 <= c < b && 0 <= j < bin_points(npts[c] as int) ==> #[trigger] vals@[slot(
                        npts,
                        c,
                        j,
                    )] == grid@[source_index(npts, c, j)],
                forall|j: int|
                    0 <= j < k ==> #[trigger] vals@[slot(npts, b as int, j)] == grid@[source_index(
                        npts,
                        b as int,
                        j,
                    )],
            decreases count - k,
        {
            proof {
                lemma_stride_in_bin(p as int, k as int);
            }
            let ghost before = vals@;
            vals[idx] = grid[src];
            proof {
                assert forall|c: int, j: int|
                    0 <= c < b && 0 <= j < bin_points(npts[c] as int) implies #[trigger] vals@[slot(
                    npts,
                    c,
                    j,
                )] == grid@[source_index(npts, c, j)] by {
                    lemma_points_before_mono(npts, c + 1, b as int);
                    lemma_points_before_mono(npts, 0, c);
                    assert(points_before(npts, c + 1) == points_before(npts, c) + bin_points(
                        npts[c] as int,
                    ));
                    assert(slot(npts, c, j) < idx);
                    assert(before[slot(npts, c, j)] == grid@[source_index(npts, c, j)]);
                    assert(vals@[slot(npts, c, j)] == before[slot(npts, c, j)]);
                }
                assert forall|j: int| 0 <= j < k + 1 implies #[trigger] vals@[slot(
                    npts,
                    b as int,
                    j,
                )] == grid@[source_index(npts, b as int, j)] by {
                    if j < k {
                        assert(before[slot(npts, b as int, j)] == grid@[source_index(
                            npts,
                            b as int,
                            j,
                        )]);
                        assert(vals@[slot(npts, b as int, j)] == before[slot(npts, b as int, j)]);
                    } else {
                        assert(slot(npts, b as int, j) == idx);
                        assert(source_index(npts, b as int, j) == src);
                    }
                }
            }
            idx = idx + 1;
            k = k + 1;
            src = src + step;
        }
        b = b + 1;
    }
    vals
}

impl<T: Copy> BinnedIcdf<T> {
    /// The bytes of the index table.
    pub closed spec fn table_view(&self) -> Seq<u8> {
        self.table@
    }

    /// The stored values.
    pub closed spec fn vals_view(&self) -> Seq<T> {
        self.vals@
    }

    /// Thins the uniform grid `grid` by the distribution `bin_npts` and lays
    /// out the index table that finds the kept points.
    pub fn new(grid: &[T], bin_npts: &[u8; 32]) -> (s: Self)
        requires
            grid@.len() == GRID_LEN,
            valid_npts(bin_npts@),
        ensures
            wf_indexing(s.table_view()),
            is_layout_of(s.table_view(), bin_npts@),
            pows_of(s.table_view()) == bin_npts@,
            is_thinning_of(s.vals_view(), grid@, bin_npts@),
    {
        let table = IndexTable::from_npts(bin_npts);
        let vals = thin_grid(grid, bin_npts);
        BinnedIcdf { table, vals }
    }

    /// The index table.
    pub fn table(&self) -> (t: IndexTable)
        ensures
            t@ == self.table_view(),
    {
        self.table
    }

    /// The 257 stored values.
    pub fn vals(&self) -> (v: &[T; 257])
        ensures
            v@ == self.vals_view(),
    {
        &self.vals
    }

    /// The stored values a probe interpolates between: `f0` at the located
    /// index and `f1` right after it, with the raw interpolation weight.
    pub fn fetch(&self, probe: u16) -> (seg: Segment<T>)
        ensures
            wf_indexing(self.table_view()),
            seg.f0 == self.vals_view()[lookup_idx(self.table_view(), probe as int)],
            seg.f1 == self.vals_view()[lookup_idx(self.table_view(), probe as int) + 1],
            seg.interp == lookup_interp(self.table_view(), probe as int),
            seg.interp_bits == interp_bits_of(self.table_view(), probe_bin(probe as int)),
            6 <= seg.interp_bits <= 11,
    {
        let l = self.table.locate(probe);
        Segment {
            f0: self.vals[l.idx],
            f1: self.vals[l.idx + 1],
            interp: l.interp,
            interp_bits: l.interp_bits,
        }
    }
}

/// Law: every lookup interpolates between two points of the uniform grid.
/// For a table laid out from `npts` and values thinned from `grid` by the
/// same `npts`, the value a probe starts from is the grid point at the probe
/// with its interpolation bits cleared, and the value it moves towards is the
/// grid point one interpolation span further on. In particular a probe with
/// no interpolation weight reads the grid point `probe / 64` exactly.
pub proof fn lemma_segment_on_grid<T>(
    ix: Seq<u8>,
    vals: Seq<T>,
    grid: Seq<T>,
    npts: Seq<u8>,
    probe: int,
)
    requires
        valid_npts(npts),
        is_layout_of(ix, npts),
        grid.len() == GRID_LEN,
        is_thinning_of(vals, grid, npts),
        0 <= probe < 65536,
    ensures
        vals[lookup_idx(ix, probe)] == grid[segment_lo(ix, probe)],
        vals[lookup_idx(ix, probe) + 1] == grid[segment_hi(ix, probe)],
        0 <= segment_lo(ix, probe) < segment_hi(ix, probe) <= 1024,
        lookup_interp(ix, probe) == 0 ==> segment_lo(ix, probe) == probe / 64,
{
    let b = probe_bin(probe);
    let e = interp_bits_of(ix, b);
    assert(start_of(ix, b) == points_before(npts, b));
    assert(e == 11 - npts[b]);
    lemma_probe_parts(probe, e);
    lemma_span_split(probe % 2048, e);
    lemma_points_before_mono(npts, b + 1, BINS as int);
    lemma_points_before_mono(npts, 0, b);
    let span = two_pow(e);
    let k = (probe % 2048) / span;
    let t = two_pow(e - 6);
    assert(two_pow(5 - npts[b]) == t);
    assert(vals[slot(npts, b, k)] == grid[source_index(npts, b, k)]);
    assert(lookup_idx(ix, probe) == slot(npts, b, k));
    lemma_stride_in_bin(npts[b] as int, k);
    if k + 1 < two_pow(11 - e) {
        assert(vals[slot(npts, b, k + 1)] == grid[source_index(npts, b, k + 1)]);
        lemma_stride_in_bin(npts[b] as int, k + 1);
    } else if b + 1 < BINS {
        lemma_points_before_mono(npts, b + 2, BINS as int);
        assert(bin_points(npts[b + 1] as int) >= 1);
        assert(vals[slot(npts, b + 1, 0)] == grid[source_index(npts, b + 1, 0)]);
        assert(slot(npts, b + 1, 0) == lookup_idx(ix, probe) + 1);
    } else {
        assert(points_before(npts, b + 1) == POINT_BUDGET);
    }
}

/// Law: the probe range spans the whole grid. Probe 0 reads the first grid
/// point with no interpolation weight; probe 65535 starts one span before the
/// end and moves with the full weight `2^interp_bits - 1` towards the last
/// grid point.
pub proof fn lemma_edges_on_grid<T>(ix: Seq<u8>, vals: Seq<T>, grid: Seq<T>, npts: Seq<u8>)
    requires
        valid_npts(npts),
        is_layout_of(ix, npts),
        grid.len() == GRID_LEN,
        is_thinning_of(vals, grid, npts),
    ensures
        lookup_interp(ix, 0) == 0,
        vals[lookup_idx(ix, 0)] == grid[0],
        lookup_interp(ix, 65535) == two_pow(interp_bits_of(ix, 31)) - 1,
        vals[lookup_idx(ix, 65535) + 1] == grid[GRID_LEN - 1],
{
    lemma_layout_wf(ix, npts);
    lemma_lookup_edges(ix);
    lemma_segment_on_grid(ix, vals, grid, npts, 0);
    lemma_segment_on_grid(ix, vals, grid, npts, 65535);
    assert(probe_bin(65535) == 31);
}

} // verus!
