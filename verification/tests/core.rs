//! Checks of the integer core on concrete layouts.

use icdf_sampler::binned::{thin_grid, BinnedIcdf};
use icdf_sampler::budget::get_bin_npts;
use icdf_sampler::error::{check_cumulative, check_lengths, DistributionError};
use icdf_sampler::layout::{bin_point_count, is_valid_npts};
use icdf_sampler::table::IndexTable;

fn eight_per_bin() -> [u8; 32] {
    [3u8; 32]
}

/// 8 bins of 16 points, 16 bins of 4 points, 8 bins of 8 points.
fn mixed() -> [u8; 32] {
    let mut npts = [0u8; 32];
    for (b, p) in npts.iter_mut().enumerate() {
        *p = if b < 8 {
            4
        } else if b < 24 {
            2
        } else {
            3
        };
    }
    npts
}

fn uniform_grid() -> Vec<u32> {
    (0..1025u32).collect()
}

#[test]
fn bin_point_counts() {
    let counts: Vec<usize> = (0..=5u8).map(bin_point_count).collect();
    assert_eq!(vec![1, 2, 4, 8, 16, 32], counts);
}

#[test]
fn table_of_eight_per_bin() {
    let table = IndexTable::from_npts(&eight_per_bin());
    let bytes = table.bytes();
    for b in 0..32 {
        assert_eq!((8 * b) as u8, bytes[2 * b]);
        assert_eq!(8, bytes[2 * b + 1]);
    }
    let first = table.locate(0);
    assert_eq!((0, 0, 8), (first.idx, first.interp, first.interp_bits));
    let last = table.locate(u16::MAX);
    assert_eq!((255, 255, 8), (last.idx, last.interp, last.interp_bits));
    assert_eq!(8, table.locate(2048).idx);
    assert_eq!((9, 1), {
        let l = table.locate(2048 + 256 + 1);
        (l.idx, l.interp)
    });
}

#[test]
fn table_of_mixed_bins() {
    let table = IndexTable::from_npts(&mixed());
    let bytes = table.bytes();
    let mut start = 0usize;
    for b in 0..32 {
        assert_eq!(start as u8, bytes[2 * b]);
        let p = mixed()[b];
        assert_eq!(11 - p, bytes[2 * b + 1]);
        start += 1 << p;
    }
    assert_eq!(256, start);
    let last = table.locate(u16::MAX);
    assert_eq!((255, 255, 8), (last.idx, last.interp, last.interp_bits));
    // Bin 8 starts after 8 bins of 16 points and interpolates on 9 bits.
    let l = table.locate(8 * 2048 + 3 * 512 + 7);
    assert_eq!((128 + 3, 7, 9), (l.idx, l.interp, l.interp_bits));
}

#[test]
fn lookup_is_monotone() {
    for npts in [eight_per_bin(), mixed()] {
        let table = IndexTable::from_npts(&npts);
        let mut prev = table.locate(0);
        for p in 1..=u16::MAX {
            let l = table.locate(p);
            assert!(prev.idx < l.idx || (prev.idx == l.idx && prev.interp <= l.interp));
            assert!(l.idx + 1 <= 256);
            prev = l;
        }
    }
}

#[test]
fn every_stored_value_is_read() {
    for npts in [eight_per_bin(), mixed()] {
        let table = IndexTable::from_npts(&npts);
        let mut hit = [false; 256];
        for p in 0..=u16::MAX {
            let l = table.locate(p);
            if l.interp == 0 {
                hit[l.idx] = true;
            }
        }
        assert!(hit.iter().all(|h| *h));
    }
}

#[test]
fn segments_lie_on_the_grid() {
    let grid = uniform_grid();
    for npts in [eight_per_bin(), mixed()] {
        let sampler = BinnedIcdf::new(&grid, &npts);
        for p in 0..=u16::MAX {
            let seg = sampler.fetch(p);
            let lo = (p as u32 - seg.interp as u32) / 64;
            let hi = (p as u32 - seg.interp as u32 + (1u32 << seg.interp_bits)) / 64;
            assert_eq!(lo, seg.f0);
            assert_eq!(hi, seg.f1);
            if seg.interp == 0 {
                assert_eq!(p as u32 / 64, seg.f0);
            }
        }
        let first = sampler.fetch(0);
        assert_eq!((0, 0), (first.f0, first.interp));
        let last = sampler.fetch(u16::MAX);
        assert_eq!(1024, last.f1);
        assert_eq!((1u16 << last.interp_bits) - 1, last.interp);
    }
}

#[test]
fn thinning_keeps_every_stride_point() {
    let grid = uniform_grid();
    let vals = thin_grid(&grid, &mixed());
    assert_eq!(257, vals.len());
    assert_eq!(1024, vals[256]);
    // 16 points in bin 0: every second grid point.
    assert_eq!(vec![0, 2, 4, 6], vals[0..4].to_vec());
    // Bin 8 starts at slot 128 with 4 points, every eighth grid point.
    assert_eq!(vec![256, 264, 272, 280, 288], vals[128..133].to_vec());
    // Bin 24 starts at slot 192 with 8 points, every fourth grid point.
    assert_eq!(vec![768, 772], vals[192..194].to_vec());
}

fn costs(f: impl Fn(usize, usize) -> u64) -> [[u64; 6]; 32] {
    let mut w = [[0u64; 6]; 32];
    for (b, row) in w.iter_mut().enumerate() {
        for (p, c) in row.iter_mut().enumerate() {
            *c = f(b, p);
        }
    }
    w
}

fn solve(w: &[[u64; 6]; 32]) -> ([u8; 32], u64) {
    get_bin_npts(w, u64::MAX, |acc: u64, c: u64| acc + c, |new: u64, held: u64| held > new)
}

fn is_valid(npts: &[u8; 32]) -> bool {
    let mut before = 0usize;
    for p in npts.iter() {
        if *p > 5 {
            return false;
        }
        before += 1 << *p;
    }
    before == 256
}

#[test]
fn even_spread_is_cheapest_for_concave_costs() {
    let w = costs(|_, p| (5 - p) as u64);
    let (npts, total) = solve(&w);
    assert!(is_valid(&npts));
    assert_eq!(64, total);
    let chained: u64 = npts.iter().enumerate().map(|(b, p)| w[b][*p as usize]).sum();
    assert_eq!(total, chained);
}

#[test]
fn first_bin_may_hold_a_single_point() {
    // Bin 0 is cheapest with one point, every other choice is free.
    let w = costs(|b, p| if b == 0 && p != 0 { 100 } else { 0 });
    let (npts, total) = solve(&w);
    assert!(is_valid(&npts));
    assert_eq!(0, npts[0]);
    assert_eq!(0, total);
}

#[test]
fn single_point_bins_at_the_start() {
    // Bins 0 and 1 with one point each, as in the budget `2 = 1 + 1`.
    let w = costs(|b, p| if b < 2 && p != 0 { 1 } else { 0 });
    let (npts, total) = solve(&w);
    assert!(is_valid(&npts));
    assert_eq!((0, 0), (npts[0], npts[1]));
    assert_eq!(0, total);
}

#[test]
fn float_costs_with_a_free_single_point() {
    let mut w = [[0.0f32; 6]; 32];
    w[0] = [0.0, 1.0, 1.0, 1.0, 1.0, 1.0];
    let (npts, total) =
        get_bin_npts(&w, f32::MAX, |acc: f32, c: f32| acc + c, |new: f32, held: f32| held > new);
    assert_eq!(0.0, total);
    assert_eq!(0, npts[0]);
    assert_eq!(256usize, npts.iter().map(|p| 1usize << p).sum::<usize>());
}

#[test]
fn nan_costs_never_enter_the_table() {
    // A NaN cost is never preferred to the unreached cost, so it cannot block
    // the cells it would reach.
    let mut w = [[0.0f32; 6]; 32];
    w[1][3] = f32::NAN;
    w[0][2] = f32::NAN;
    let (npts, total) =
        get_bin_npts(&w, f32::MAX, |acc: f32, c: f32| acc + c, |new: f32, held: f32| held > new);
    assert_eq!(0.0, total);
    assert_ne!(3, npts[1]);
    assert_ne!(2, npts[0]);
    assert_eq!(256usize, npts.iter().map(|p| 1usize << p).sum::<usize>());
}

#[test]
fn unreachable_budget_reports_the_unreached_cost() {
    // Every cost is infinite: nothing is preferred to `f32::MAX`.
    let w = [[f32::INFINITY; 6]; 32];
    let (_, total) =
        get_bin_npts(&w, f32::MAX, |acc: f32, c: f32| acc + c, |new: f32, held: f32| held > new);
    assert_eq!(f32::MAX, total);
}

#[test]
fn result_beats_other_distributions() {
    // Costs that favour dense bins in the middle of the range.
    let w = costs(|b, p| {
        let centre = if b < 16 { 16 - b } else { b - 15 } as u64;
        (5 - p as u64) * (20 - centre.min(15)) + p as u64 * centre
    });
    let (npts, total) = solve(&w);
    assert!(is_valid(&npts));
    let cost_of = |q: &[u8; 32]| -> u64 { q.iter().enumerate().map(|(b, p)| w[b][*p as usize]).sum() };
    assert_eq!(total, cost_of(&npts));
    for other in [eight_per_bin(), mixed()] {
        assert!(is_valid(&other));
        assert!(total <= cost_of(&other));
    }
}

#[test]
fn validity_of_distributions() {
    assert!(is_valid_npts(&eight_per_bin()));
    assert!(is_valid_npts(&mixed()));
    assert!(!is_valid_npts(&[0u8; 32]));
    let mut too_big = eight_per_bin();
    too_big[0] = 6;
    assert!(!is_valid_npts(&too_big));
    let mut over = eight_per_bin();
    over[5] = 4;
    assert!(!is_valid_npts(&over));
}

#[test]
fn nan_first_bin_costs_are_never_held() {
    // Bin 0 cannot use a NaN cost; the split around it is still found.
    let mut w = [[0.0f32; 6]; 32];
    w[0][3] = f32::NAN;
    let (npts, total) =
        get_bin_npts(&w, f32::MAX, |acc: f32, c: f32| acc + c, |new: f32, held: f32| held > new);
    assert_eq!(0.0, total);
    assert_ne!(3, npts[0]);
    assert!(is_valid_npts(&npts));
}

#[test]
fn error_weights_visit_each_lost_point() {
    // A grid of indices, an error that records the lost point itself: the
    // weight of a bin is the sum of the indices of the points it loses.
    let grid: Vec<u64> = (0..1025u64).collect();
    let w = icdf_sampler::weights::get_error_weights(
        &grid,
        0u64,
        |f0: u64, f1: u64, step: usize, t: usize, v: u64| {
            assert_eq!(f0 + step as u64, f1);
            assert_eq!(f0 + t as u64, v);
            v
        },
        |acc: u64, e: u64| acc + e,
    );
    for b in 0..32u64 {
        let all: u64 = (32 * b..32 * b + 32).sum();
        for p in 0..6u32 {
            let step = 1u64 << (5 - p);
            let kept: u64 = (0..(1u64 << p)).map(|k| 32 * b + k * step).sum();
            assert_eq!(all - kept, w[b as usize][p as usize]);
        }
    }
}

#[test]
fn length_check() {
    assert_eq!(Ok(()), check_lengths(3, 3));
    assert_eq!(Err(DistributionError::LenMismatch), check_lengths(3, 2));
}

#[test]
fn cumulative_checks() {
    let not_above = |next: i64, prev: i64| next <= prev;
    assert_eq!(Err(DistributionError::Underpopulated), check_cumulative(&[], not_above));
    assert_eq!(Err(DistributionError::Underpopulated), check_cumulative(&[5], not_above));
    assert_eq!(Ok(()), check_cumulative(&[0, 1, 5], not_above));
    assert_eq!(Err(DistributionError::NotMonotonic), check_cumulative(&[0, 1, 1, 2], not_above));
    assert_eq!(Err(DistributionError::NotMonotonic), check_cumulative(&[0, 3, 2], not_above));
}
