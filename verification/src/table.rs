//! The 64-byte index table and the branch-free lookup of a `u16` probe.
//!
//! The table holds 32 consecutive pairs `[start_idx, interp_bits]`: bin `b`
//! keeps its points at `start_idx ..` of the stored values, and the low
//! `interp_bits` bits of a probe interpolate between two neighbouring points.
//! A bin holding `2^p` points has `interp_bits == 11 - p`.
use vstd::prelude::*;
use vstd::arithmetic::div_mod::{lemma_div_is_ordered, lemma_fundamental_div_mod_converse};
use crate::layout::{
    BINS, VALS_LEN, lemma_points_before_mono, lemma_shl_is_two_pow, points_before,
    two_pow, valid_npts, bin_point_count,
};

verus! {

/// Where bin `b` starts among the stored values.
pub open spec fn start_of(ix: Seq<u8>, b: int) -> int {
    ix[2 * b] as int
}

/// How many low bits of a probe in bin `b` interpolate.
pub open spec fn interp_bits_of(ix: Seq<u8>, b: int) -> int {
    ix[2 * b + 1] as int
}

/// The exponents encoded by a table: bin `b` holds `2^(11 - interp_bits)` points.
pub open spec fn pows_of(ix: Seq<u8>) -> Seq<u8> {
    Seq::new(BINS as nat, |b: int| (11 - interp_bits_of(ix, b)) as u8)
}

/// The table that a valid distribution of points lays out: bin starts are the
/// prefix sums of the bin sizes, and each bin interpolates on `11 - p` bits.
pub open spec fn is_layout_of(ix: Seq<u8>, npts: Seq<u8>) -> bool {
    &&& ix.len() == 2 * BINS
    &&& forall|b: int|
        0 <= b < BINS ==> {
            &&& #[trigger] start_of(ix, b) == points_before(npts, b)
            &&& interp_bits_of(ix, b) == 11 - npts[b]
        }
}

/// A well-formed table: it is the layout of some valid distribution, namely
/// the one it encodes.
pub open spec fn wf_indexing(ix: Seq<u8>) -> bool {
    &&& ix.len() == 2 * BINS
    &&& forall|b: int| 0 <= b < BINS ==> 6 <= #[trigger] interp_bits_of(ix, b) <= 11
    &&& valid_npts(pows_of(ix))
    &&& is_layout_of(ix, pows_of(ix))
}

/// The bin a probe falls in: its top 5 bits.
pub open spec fn probe_bin(probe: int) -> int {
    probe / 2048
}

/// The stored value a probe starts from.
pub open spec fn lookup_idx(ix: Seq<u8>, probe: int) -> int {
    let b = probe_bin(probe);
    start_of(ix, b) + (probe % 2048) / two_pow(interp_bits_of(ix, b))
}

/// The raw interpolation weight of a probe: its low `interp_bits` bits.
pub open spec fn lookup_interp(ix: Seq<u8>, probe: int) -> int {
    probe % two_pow(interp_bits_of(ix, probe_bin(probe)))
}

/// The result of locating a probe: interpolate from the stored value `idx`
/// towards `idx + 1` by `interp / (2^interp_bits - 1)`.
#[derive(Clone, Copy, Debug, PartialEq, Eq)]
pub struct Lookup {
    pub idx: usize,
    pub interp: u16,
    pub interp_bits: u8,
}

/// The index table of a sampler (64 bytes, one cache line).
#[derive(Clone, Copy, Debug)]
pub struct IndexTable {
    indexing: [u8; 64],
}

impl View for IndexTable {
    type V = Seq<u8>;

    closed spec fn view(&self) -> Seq<u8> {
        self.indexing@
    }
}

/// Bit-level facts behind the branch-free lookup.
proof fn lemma_probe_bits(p: u16, ib: u16)
    by (bit_vector)
    requires
        6 <= ib <= 11,
    ensures
        (p & 0xF800u16) >> 10u16 == 2 * (p / 2048),
        (p & 0x07FFu16) >> ib == (p % 2048) / (1u16 << ib),
        p & (((1u16 << ib) - 1u16) as u16) == p % (1u16 << ib),
        (1u16 << ib) >= 64,
        p / 2048 < 32,
{
}

/// Splitting the 11 low bits of a probe into `11 - e` index bits and `e`
/// interpolation bits.
pub proof fn lemma_span_split(x: int, e: int)
    requires
        0 <= x < 2048,
        6 <= e <= 11,
    ensures
        x / two_pow(e) < two_pow(11 - e),
        two_pow(e) * two_pow(11 - e) == 2048,
        x / two_pow(e) * two_pow(e) + x % two_pow(e) == x,
        0 <= x % two_pow(e) < two_pow(e),
{
    if e == 6 {
        assert(x / 64 < 32);
    } else if e == 7 {
        assert(x / 128 < 16);
    } else if e == 8 {
        assert(x / 256 < 8);
    } else if e == 9 {
        assert(x / 512 < 4);
    } else if e == 10 {
        assert(x / 1024 < 2);
    } else {
        assert(x / 2048 < 1);
    }
}

impl IndexTable {
    /// A table is always well formed: it is only built by `from_npts`.
    #[verifier::type_invariant]
    closed spec fn inv(self) -> bool {
        wf_indexing(self.indexing@)
    }

    /// Lays out the table of a valid distribution of points: bin `b` starts
    /// after the points of the bins before it and interpolates on `11 - p` bits.
    pub fn from_npts(bin_npts: &[u8; 32]) -> (t: IndexTable)
        requires
            valid_npts(bin_npts@),
        ensures
            is_layout_of(t@, bin_npts@),
            wf_indexing(t@),
            pows_of(t@) == bin_npts@,
    {
        let mut indexing: [u8; 64] = [0u8; 64];
        let mut idx: usize = 0;
        let mut b: usize = 0;
        while b < BINS
            invariant
                0 <= b <= BINS,
                valid_npts(bin_npts@),
                idx == points_before(bin_npts@, b as int),
                indexing@.len() == 64,
                forall|c: int|
                    0 <= c < b ==> {
                        &&& #[trigger] start_of(indexing@, c) == points_before(bin_npts@, c)
                        &&& interp_bits_of(indexing@, c) == 11 - bin_npts@[c]
                    },
            decreases BINS - b,
        {
            let p = bin_npts[b];
            proof {
                lemma_points_before_mono(bin_npts@, b as int + 1, BINS as int);
            }
            let ghost before = indexing@;
            indexing[2 * b] = idx as u8;
            indexing[2 * b + 1] = 11 - p;
            assert forall|c: int| 0 <= c <= b implies {
                &&& #[trigger] start_of(indexing@, c) == points_before(bin_npts@, c)
                &&& interp_bits_of(indexing@, c) == 11 - bin_npts@[c]
            } by {
                if c < b {
                    assert(start_of(before, c) == points_before(bin_npts@, c));
                    assert(indexing@[2 * c] == before[2 * c]);
                    assert(indexing@[2 * c + 1] == before[2 * c + 1]);
                }
            }
            idx = idx + bin_point_count(p);
            b = b + 1;
        }
        proof {
            let ix = indexing@;
            assert forall|c: int| 0 <= c < BINS implies pows_of(ix)[c] == bin_npts@[c] by {
                assert(start_of(ix, c) == points_before(bin_npts@, c));
            }
            assert(pows_of(ix) =~= bin_npts@);
            assert forall|c: int| 0 <= c < BINS implies 6 <= #[trigger] interp_bits_of(ix, c) <= 11 by {
                assert(start_of(ix, c) == points_before(bin_npts@, c));
            }
            assert(wf_indexing(ix));
        }
        IndexTable { indexing }
    }

    /// The raw 64 bytes of the table, which is well formed.
    pub fn bytes(&self) -> (r: [u8; 64])
        ensures
            r@ == self@,
            wf_indexing(r@),
    {
        proof {
            use_type_invariant(self);
        }
        self.indexing
    }

    /// Locates a probe: the top 5 bits pick the bin, the next
    /// `11 - interp_bits` bits the point inside it, and the low `interp_bits`
    /// bits are the interpolation weight. The point and its successor are
    /// always stored: `idx + 1 <= 256`.
    pub fn locate(&self, probe: u16) -> (r: Lookup)
        ensures
            wf_indexing(self@),
            r.idx == lookup_idx(self@, probe as int),
            r.interp == lookup_interp(self@, probe as int),
            r.interp_bits == interp_bits_of(self@, probe_bin(probe as int)),
            6 <= r.interp_bits <= 11,
            r.idx + 1 < VALS_LEN,
    {
        proof {
            use_type_invariant(self);
        }
        let ghost ix = self@;
        let ghost b = probe_bin(probe as int);
        let bin2: u16 = (probe & 0xF800) >> 10;
        let ghost ib0 = interp_bits_of(ix, b);
        proof {
            assert(6 <= ib0 <= 11);
            lemma_probe_bits(probe, ib0 as u16);
        }
        let start = self.indexing[bin2 as usize];
        let interp_bits = self.indexing[bin2 as usize + 1];
        let ib: u16 = interp_bits as u16;
        proof {
            lemma_shl_is_two_pow(ib);
            let npts = pows_of(ix);
            assert(start_of(ix, b) == points_before(npts, b));
            assert(start_of(ix, b) == start);
            assert(interp_bits_of(ix, b) == ib);
            assert(npts[b] == 11 - ib);
            lemma_points_before_mono(npts, b + 1, BINS as int);
            assert(points_before(npts, b + 1) == start + two_pow(11 - ib));
            lemma_span_split((probe % 2048) as int, ib as int);
        }
        let offset: u16 = (probe & 0x07FF) >> ib;
        let mask: u16 = (1u16 << ib) - 1;
        let interp: u16 = probe & mask;
        Lookup { idx: start as usize + offset as usize, interp, interp_bits }
    }
}

/// Splitting a whole probe into bin, index and interpolation parts.
pub proof fn lemma_probe_parts(p: int, e: int)
    requires
        0 <= p < 65536,
        6 <= e <= 11,
    ensures
        ({
            let span = two_pow(e);
            let k = (p % 2048) / span;
            &&& 0 <= p / 2048 < 32
            &&& p % span == (p % 2048) % span
            &&& 0 <= p % span < span
            &&& p == 2048 * (p / 2048) + k * span + p % span
            &&& (p - p % span) / 64 == 32 * (p / 2048) + k * two_pow(e - 6)
            &&& (p - p % span + span) / 64 == 32 * (p / 2048) + (k + 1) * two_pow(e - 6)
            &&& two_pow(e - 6) * two_pow(11 - e) == 32
        }),
{
    let q = p / 2048;
    let r = p % 2048;
    if e == 6 {
        let k = r / 64;
        let i = r % 64;
        lemma_fundamental_div_mod_converse(p, 64, 32 * q + k, i);
        lemma_fundamental_div_mod_converse(r, 64, k, i);
        lemma_fundamental_div_mod_converse(p - i, 64, 32 * q + 1 * k, 0);
        lemma_fundamental_div_mod_converse(p - i + 64, 64, 32 * q + 1 * k + 1, 0);
    } else if e == 7 {
        let k = r / 128;
        let i = r % 128;
        lemma_fundamental_div_mod_converse(p, 128, 16 * q + k, i);
        lemma_fundamental_div_mod_converse(r, 128, k, i);
        lemma_fundamental_div_mod_converse(p - i, 64, 32 * q + 2 * k, 0);
        lemma_fundamental_div_mod_converse(p - i + 128, 64, 32 * q + 2 * k + 2, 0);
    } else if e == 8 {
        let k = r / 256;
        let i = r % 256;
        lemma_fundamental_div_mod_converse(p, 256, 8 * q + k, i);
        lemma_fundamental_div_mod_converse(r, 256, k, i);
        lemma_fundamental_div_mod_converse(p - i, 64, 32 * q + 4 * k, 0);
        lemma_fundamental_div_mod_converse(p - i + 256, 64, 32 * q + 4 * k + 4, 0);
    } else if e == 9 {
        let k = r / 512;
        let i = r % 512;
        lemma_fundamental_div_mod_converse(p, 512, 4 * q + k, i);
        lemma_fundamental_div_mod_converse(r, 512, k, i);
        lemma_fundamental_div_mod_converse(p - i, 64, 32 * q + 8 * k, 0);
        lemma_fundamental_div_mod_converse(p - i + 512, 64, 32 * q + 8 * k + 8, 0);
    } else if e == 10 {
        let k = r / 1024;
        let i = r % 1024;
        lemma_fundamental_div_mod_converse(p, 1024, 2 * q + k, i);
        lemma_fundamental_div_mod_converse(r, 1024, k, i);
        lemma_fundamental_div_mod_converse(p - i, 64, 32 * q + 16 * k, 0);
        lemma_fundamental_div_mod_converse(p - i + 1024, 64, 32 * q + 16 * k + 16, 0);
    } else if e == 11 {
        let k = r / 2048;
        let i = r % 2048;
        lemma_fundamental_div_mod_converse(p, 2048, 1 * q + k, i);
        lemma_fundamental_div_mod_converse(r, 2048, k, i);
        lemma_fundamental_div_mod_converse(p - i, 64, 32 * q + 32 * k, 0);
        lemma_fundamental_div_mod_converse(p - i + 2048, 64, 32 * q + 32 * k + 32, 0);
    }
}

/// The facts about bin `b` of a well-formed table that the laws below use.
proof fn lemma_bin_facts(ix: Seq<u8>, b: int)
    requires
        wf_indexing(ix),
        0 <= b < BINS,
    ensures
        6 <= interp_bits_of(ix, b) <= 11,
        pows_of(ix)[b] == 11 - interp_bits_of(ix, b),
        start_of(ix, b) == points_before(pows_of(ix), b),
        points_before(pows_of(ix), b + 1) == start_of(ix, b) + two_pow(11 - interp_bits_of(ix, b)),
        points_before(pows_of(ix), b + 1) <= 256,
        0 <= start_of(ix, b),
{
    let npts = pows_of(ix);
    assert(start_of(ix, b) == points_before(npts, b));
    assert(6 <= interp_bits_of(ix, b) <= 11);
    lemma_points_before_mono(npts, b + 1, BINS as int);
    lemma_points_before_mono(npts, 0, b);
}

/// Law: the lookup covers the stored values edge to edge. The lowest probe
/// starts at the first stored value with no interpolation; the highest probe
/// starts at value 255 with the full interpolation weight, so it ends on the
/// closing value 256.
pub proof fn lemma_lookup_edges(ix: Seq<u8>)
    requires
        wf_indexing(ix),
    ensures
        lookup_idx(ix, 0) == 0,
        lookup_interp(ix, 0) == 0,
        lookup_idx(ix, 65535) == 255,
        lookup_interp(ix, 65535) == two_pow(interp_bits_of(ix, 31)) - 1,
{
    lemma_bin_facts(ix, 0);
    lemma_bin_facts(ix, 31);
    let e0 = interp_bits_of(ix, 0);
    let e = interp_bits_of(ix, 31);
    lemma_probe_parts(0, e0);
    lemma_probe_parts(65535, e);
    lemma_span_split(2047, e);
    assert(probe_bin(65535) == 31);
    assert((65535int % 2048) / two_pow(e) == two_pow(11 - e) - 1) by {
        lemma_span_split(2047, e);
        if e == 6 {
        } else if e == 7 {
        } else if e == 8 {
        } else if e == 9 {
        } else if e == 10 {
        } else {
        }
    }
    assert(65535int % two_pow(e) == two_pow(e) - 1) by {
        if e == 6 {
        } else if e == 7 {
        } else if e == 8 {
        } else if e == 9 {
        } else if e == 10 {
        } else {
        }
    }
}

/// Law: the lookup is monotone. A higher probe never goes back to an earlier
/// stored value, and on the same stored value it never interpolates less.
pub proof fn lemma_lookup_monotone(ix: Seq<u8>, p1: int, p2: int)
    requires
        wf_indexing(ix),
        0 <= p1 <= p2 < 65536,
    ensures
        lookup_idx(ix, p1) < lookup_idx(ix, p2) || (lookup_idx(ix, p1) == lookup_idx(ix, p2)
            && lookup_interp(ix, p1) <= lookup_interp(ix, p2)),
{
    let b1 = probe_bin(p1);
    let b2 = probe_bin(p2);
    lemma_bin_facts(ix, b1);
    lemma_bin_facts(ix, b2);
    let e1 = interp_bits_of(ix, b1);
    let e2 = interp_bits_of(ix, b2);
    lemma_probe_parts(p1, e1);
    lemma_probe_parts(p2, e2);
    lemma_span_split(p1 % 2048, e1);
    lemma_span_split(p2 % 2048, e2);
    if b1 < b2 {
        lemma_points_before_mono(pows_of(ix), b1 + 1, b2);
    } else {
        assert(b1 == b2);
        let span = two_pow(e1);
        let k1 = (p1 % 2048) / span;
        let k2 = (p2 % 2048) / span;
        assert(p1 % 2048 <= p2 % 2048);
        lemma_div_is_ordered(p1 % 2048, p2 % 2048, span);
    }
}

/// Every slot below the prefix sum of the first `n` bins lies in one of them.
proof fn lemma_slot_in_some_bin(npts: Seq<u8>, n: int, j: int) -> (b: int)
    requires
        0 <= n <= npts.len(),
        0 <= j < points_before(npts, n),
    ensures
        0 <= b < n,
        points_before(npts, b) <= j < points_before(npts, b + 1),
    decreases n,
{
    if j >= points_before(npts, n - 1) {
        n - 1
    } else {
        lemma_slot_in_some_bin(npts, n - 1, j)
    }
}

/// Law: no stored value is wasted. Every one of the 256 values a lookup can
/// start from is read, with no interpolation weight, by some probe.
pub proof fn lemma_lookup_covers_slots(ix: Seq<u8>, j: int)
    requires
        wf_indexing(ix),
        0 <= j < 256,
    ensures
        exists|probe: int|
            0 <= probe < 65536 && lookup_idx(ix, probe) == j && lookup_interp(ix, probe) == 0,
{
    let npts = pows_of(ix);
    let b = lemma_slot_in_some_bin(npts, BINS as int, j);
    lemma_bin_facts(ix, b);
    let e = interp_bits_of(ix, b);
    let k = j - start_of(ix, b);
    let span = two_pow(e);
    let probe = 2048 * b + k * span;
    assert(0 <= k < two_pow(11 - e));
    lemma_span_split(0, e);
    assert(k * span + span <= 2048) by {
        assert((k + 1) * span <= two_pow(11 - e) * span) by (nonlinear_arith)
            requires
                k + 1 <= two_pow(11 - e),
                span >= 0,
        ;
        assert((k + 1) * span == k * span + span) by (nonlinear_arith);
    }
    assert(0 <= k * span) by (nonlinear_arith)
        requires
            0 <= k,
            span >= 0,
    ;
    lemma_fundamental_div_mod_converse(probe, 2048, b, k * span);
    lemma_fundamental_div_mod_converse(k * span, span, k, 0);
    lemma_probe_parts(probe, e);
    assert(probe_bin(probe) == b);
    assert(lookup_idx(ix, probe) == j);
    assert(lookup_interp(ix, probe) == 0);
}

/// The layout of a valid distribution is a well-formed table encoding it.
pub proof fn lemma_layout_wf(ix: Seq<u8>, npts: Seq<u8>)
    requires
        valid_npts(npts),
        is_layout_of(ix, npts),
    ensures
        wf_indexing(ix),
        pows_of(ix) == npts,
{
    assert forall|b: int| 0 <= b < BINS implies pows_of(ix)[b] == npts[b] by {
        assert(start_of(ix, b) == points_before(npts, b));
        assert(npts[b] <= 5);
    }
    assert(pows_of(ix) =~= npts);
    assert forall|b: int| 0 <= b < BINS implies 6 <= #[trigger] interp_bits_of(ix, b) <= 11 by {
        assert(start_of(ix, b) == points_before(npts, b));
        assert(npts[b] <= 5);
    }
}

/// Law: the interpolation weight counts probes along a segment. It stays
/// below `2^interp_bits`; the next probe either stays on the same stored
/// value with a weight one higher, or, after the full weight
/// `2^interp_bits - 1`, moves on to the next stored value with weight 0.
pub proof fn lemma_lookup_steps(ix: Seq<u8>, p: int)
    requires
        wf_indexing(ix),
        0 <= p < 65535,
    ensures
        0 <= lookup_interp(ix, p) < two_pow(interp_bits_of(ix, probe_bin(p))),
        lookup_idx(ix, p + 1) == lookup_idx(ix, p) ==> lookup_interp(ix, p + 1) == lookup_interp(
            ix,
            p,
        ) + 1,
        lookup_idx(ix, p + 1) != lookup_idx(ix, p) ==> {
            &&& lookup_idx(ix, p + 1) == lookup_idx(ix, p) + 1
            &&& lookup_interp(ix, p + 1) == 0
            &&& lookup_interp(ix, p) == two_pow(interp_bits_of(ix, probe_bin(p))) - 1
        },
{
    let b = probe_bin(p);
    lemma_bin_facts(ix, b);
    let e = interp_bits_of(ix, b);
    let span = two_pow(e);
    lemma_probe_parts(p, e);
    lemma_span_split(p % 2048, e);
    let r = p % 2048;
    let k = r / span;
    let i = r % span;
    if r < 2047 {
        lemma_fundamental_div_mod_converse(p + 1, 2048, b, r + 1);
        assert(probe_bin(p + 1) == b);
        lemma_probe_parts(p + 1, e);
        lemma_span_split(r + 1, e);
        if i + 1 < span {
            lemma_fundamental_div_mod_converse(r + 1, span, k, i + 1);
        } else {
            assert((k + 1) * span == k * span + span) by (nonlinear_arith);
            lemma_fundamental_div_mod_converse(r + 1, span, k + 1, 0);
        }
    } else {
        lemma_fundamental_div_mod_converse(p + 1, 2048, b + 1, 0);
        assert(probe_bin(p + 1) == b + 1);
        lemma_bin_facts(ix, b + 1);
        let e1 = interp_bits_of(ix, b + 1);
        lemma_probe_parts(p + 1, e1);
        lemma_span_split(0, e1);
        assert(k == two_pow(11 - e) - 1 && i == span - 1) by {
            if e == 6 {
            } else if e == 7 {
            } else if e == 8 {
            } else if e == 9 {
            } else if e == 10 {
            } else {
            }
        }
    }
}

} // verus!
