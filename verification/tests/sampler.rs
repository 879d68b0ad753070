//! End-to-end checks on a normalized gaussian: the floating-point pipeline
//! (grid, cumulative distribution, resampling, error weights) is written out
//! here as test scaffolding around the library's integer core.

use icdf_sampler::binned::BinnedIcdf;
use icdf_sampler::budget::get_bin_npts;
use icdf_sampler::error::{check_cumulative, check_lengths, DistributionError};

// Tolerance levels for basic float operations.
const FTOL32: f32 = 1e-5;

fn linspace(xmin: f64, xmax: f64, count: usize) -> Vec<f64> {
    match count {
        0 => vec![],
        1 => vec![xmin],
        10_000_000.. => panic!("count too large"),
        2.. => {
            let mut space = Vec::with_capacity(count);
            space.push(xmin);
            let xrange = xmax - xmin;
            let scaler = 1.0 / (count - 1) as f64;
            for i in 1..(count - 1) {
                space.push(xmin + xrange * (i as f64 * scaler));
            }
            space.push(xmax);
            space
        }
    }
}

fn cumtrapz(x: &[f64], f: &[f64]) -> Result<Vec<f64>, DistributionError> {
    check_lengths(x.len(), f.len())?;
    let mut area = Vec::with_capacity(std::cmp::min(x.len(), f.len()));
    area.push(0.0);
    let tuple_iter = x.iter().zip(f.iter());
    for ((x0, f0), (x1, f1)) in tuple_iter.clone().zip(tuple_iter.skip(1)) {
        area.push(area.last().unwrap() + 0.5 * (f1 + f0) * (x1 - x0));
    }
    Ok(area)
}

fn cdf_from_distribution(x: &[f64], f: &[f64]) -> Result<Vec<f64>, DistributionError> {
    let mut cdf = cumtrapz(x, f)?;
    check_cumulative(&cdf, |next: f64, prev: f64| next <= prev)?;
    let total_area = *cdf.last().unwrap();
    for segment in cdf.iter_mut().skip(1) {
        *segment /= total_area;
    }
    Ok(cdf)
}

fn get_cdf_inv(x: &[f64], cdf: &[f64]) -> [f32; 1025] {
    let u = linspace(cdf[0], cdf[cdf.len() - 1], 1025);
    let mut cdf_inv = [0.0_f32; 1025];
    for (i, s) in u.iter().enumerate() {
        match cdf.binary_search_by(|p| p.partial_cmp(s).unwrap()) {
            Ok(idx) => {
                cdf_inv[i] = x[idx] as f32;
            }
            Err(idx) => {
                let (f0, f1) = (cdf[idx - 1], cdf[idx]);
                let (x0, x1) = (x[idx - 1], x[idx]);
                let x_interp = x0 + (x1 - x0) / (f1 - f0) * (s - f0);
                cdf_inv[i] = x_interp as f32;
            }
        }
    }
    cdf_inv
}

fn get_error_weights<F: Fn(f32, f32) -> f32>(cdf_inv: &[f32; 1025], err_fn: F) -> [[f32; 6]; 32] {
    icdf_sampler::weights::get_error_weights(
        cdf_inv,
        0.0,
        |f0: f32, f1: f32, step: usize, t: usize, refp: f32| {
            let s = (f1 - f0) / step as f32;
            err_fn(f0 + s * t as f32, refp)
        },
        |acc: f32, err: f32| acc + err,
    )
}

fn best_npts(weights: &[[f32; 6]; 32]) -> ([u8; 32], f32) {
    get_bin_npts(weights, f32::MAX, |acc: f32, w: f32| acc + w, |new: f32, held: f32| held > new)
}

fn build_sampler<F: Fn(f32, f32) -> f32>(x: &[f64], cdf: &[f64], err_fn: F) -> (BinnedIcdf<f32>, f32) {
    let cdf_inv = get_cdf_inv(x, cdf);
    let weights = get_error_weights(&cdf_inv, err_fn);
    let (bin_npts, total_err) = best_npts(&weights);
    (BinnedIcdf::new(&cdf_inv, &bin_npts), total_err)
}

fn sample(sampler: &BinnedIcdf<f32>, probe: u16) -> f32 {
    const NORMALIZERS: [f32; 6] = [
        1.0 / 63.0,
        1.0 / 127.0,
        1.0 / 255.0,
        1.0 / 511.0,
        1.0 / 1023.0,
        1.0 / 2047.0,
    ];
    let seg = sampler.fetch(probe);
    let s = seg.interp as f32 * NORMALIZERS[seg.interp_bits as usize - 6];
    s.mul_add(seg.f1 - seg.f0, seg.f0)
}

fn normalized_gaussian(count: usize) -> (Vec<f64>, Vec<f64>) {
    let x = linspace(-3.0, 3.0, count);
    let f = x
        .iter()
        .map(|x| (-x * x).exp() / std::f64::consts::PI.sqrt())
        .collect::<Vec<_>>();
    (x, f)
}

#[test]
fn test_cdf_from_distribution() {
    // Check uneven length error.
    assert_eq!(
        Err(DistributionError::LenMismatch),
        cdf_from_distribution(&[0.0, 1.0, 2.0], &[0.0, 1.0]),
    );

    // Check underpopulated error for len 1 and 2.
    assert_eq!(
        Err(DistributionError::Underpopulated),
        cdf_from_distribution(&[], &[]),
    );
    assert_eq!(
        Err(DistributionError::Underpopulated),
        cdf_from_distribution(&[1.0], &[1.0]),
    );
    assert!(cdf_from_distribution(&[0.0, 1.0], &[0.0, 1.0]).is_ok());

    // Check a bad distribution with negative values.
    let x = linspace(-2.0, 2.0, 10_000);
    let f = x.iter().map(|x| x * (-x * x).exp()).collect::<Vec<_>>();
    assert_eq!(
        Err(DistributionError::NotMonotonic),
        cdf_from_distribution(&x, &f),
    );

    // Check a normalized test gaussian (the good case).
    let (x, f) = normalized_gaussian(10_000);
    let cdf = cdf_from_distribution(&x, &f).unwrap();
    assert_eq!(10_000, cdf.len());
    assert_eq!(Some(&0.0), cdf.first());
    assert_eq!(Some(&1.0), cdf.last());
}

#[test]
fn test_get_error_weights() {
    let (x, f) = normalized_gaussian(10_000);
    let cdf = cdf_from_distribution(&x, &f).unwrap();
    let cdf_inv = get_cdf_inv(&x, &cdf);
    let weights = get_error_weights(&cdf_inv, |f_interp, f_ref| (f_interp - f_ref).abs());

    // The weights for 32 points in each bin is exactly 0.0.
    assert!(weights.iter().all(|w| w[5] == 0.0));

    // For a normalized gaussian, the computed weights should be symmetric, i.e.
    // the first 16 bins are mirrors of the last 16 bins.
    for pts_idx in 0..5 {
        assert!(
            weights[..16]
                .iter()
                .zip(weights[16..].iter().rev())
                .all(|(wm, wp)| (wm[pts_idx] - wp[pts_idx]).abs() < FTOL32)
        );
    }

    // For a normalized gaussian, the errors in each bin should be strictly
    // monotonically decreasing with increasing points.
    for weights in weights.iter() {
        assert!(
            weights
                .iter()
                .zip(weights.iter().skip(1))
                .all(|(this_weight, next_weight)| *this_weight > *next_weight)
        );
    }
}

#[test]
fn test_get_bin_npts() {
    let (x, f) = normalized_gaussian(10_000);
    let cdf = cdf_from_distribution(&x, &f).unwrap();
    let cdf_inv = get_cdf_inv(&x, &cdf);
    let weights = get_error_weights(&cdf_inv, |f_interp, f_ref| (f_interp - f_ref).abs());
    let (bin_npts, total_err) = best_npts(&weights);

    // This error is known for these settings and not derived from first principles;
    // it is an empirical check.
    assert!(total_err < 0.015);
    // For a normalized gaussian the number of points per bin should be symmetric
    // in the first half vs the second half.
    assert!(
        bin_npts
            .iter()
            .take(16)
            .zip(bin_npts.iter().rev().take(16))
            .all(|(n0, n1)| n0 == n1)
    );

    // The total sum of points across all bins must be 256.
    assert_eq!(
        256_usize,
        bin_npts.iter().map(|pow| (1 << *pow) as usize).sum()
    );
}

#[test]
fn test_sampler_with_direct_error() {
    let (x, f) = normalized_gaussian(10_000);
    let cdf = cdf_from_distribution(&x, &f).unwrap();
    let eps: f32 = 1e-4;
    let (sampler, total_err) = build_sampler(&x, &cdf, |f_interp, f_ref| {
        (f_interp - f_ref).abs() / (0.5 * (f_interp.abs() + f_ref.abs()) + eps)
    });

    // We will insist the total error is not more than 5% for all the values
    // vs the input cdf resampled.
    assert!(total_err < 0.05);

    // Indices must grow in correspondence with the number of points in
    // each bin, i.e. the sum of `2^pow`...
    let indexing = sampler.table().bytes();
    let mut jdx = 0;
    for w in indexing.windows(2).step_by(2) {
        match w {
            [idx, interp_bits] => {
                assert_eq!(jdx as u8, *idx);
                let indexing_bits = 11 - interp_bits;
                jdx += 1 << indexing_bits;
            }
            _ => unreachable!(),
        }
    }
    // ...and the total sum must be 256.
    assert_eq!(256, jdx);

    let vals = sampler.vals();
    // The data points for a gaussian should be anti symmetric up to some tolerance...
    assert!(
        vals[..128]
            .iter()
            .zip(vals[128..].iter().rev())
            .all(|(fm, fp)| (fm + fp).abs() < FTOL32)
    );
    // And since 257 is odd, it should include 0 in the center.
    assert!(vals[128].abs() < FTOL32);

    // Check the edges are included.
    assert_eq!(x[0] as f32, sample(&sampler, 0));
    assert_eq!(x[9_999] as f32, sample(&sampler, u16::MAX));

    // Compute the empirical variance and compare it to the theorical value.
    let emp_variance = 1.0 / ((u16::MAX - 1) as f64)
        * (0..=u16::MAX)
            .map(|p| {
                let s = sample(&sampler, p) as f64;
                s * s
            })
            .sum::<f64>();
    // Some deviation from the theoretical value (0.5) is expected but below 1%.
    assert!((emp_variance / 0.5 - 1.0).abs() < 1e-2);
}

#[test]
fn gaussian_distribution_is_valid_and_chained() {
    let (x, f) = normalized_gaussian(10_000);
    let cdf = cdf_from_distribution(&x, &f).unwrap();
    let cdf_inv = get_cdf_inv(&x, &cdf);
    let weights = get_error_weights(&cdf_inv, |f_interp, f_ref| (f_interp - f_ref).abs());
    let (bin_npts, total_err) = best_npts(&weights);
    assert!(bin_npts.iter().all(|p| *p <= 5));
    let mut before = 0usize;
    for p in bin_npts.iter() {
        before += 1 << *p;
    }
    assert_eq!(256, before);
    // The reported error is the running sum of the chosen weights, bin 0 first.
    let mut acc = weights[0][bin_npts[0] as usize];
    for b in 1..32 {
        acc = acc + weights[b][bin_npts[b] as usize];
    }
    assert_eq!(acc, total_err);
}

#[test]
fn sampler_reads_grid_points_exactly() {
    let (x, f) = normalized_gaussian(10_000);
    let cdf = cdf_from_distribution(&x, &f).unwrap();
    let cdf_inv = get_cdf_inv(&x, &cdf);
    let (sampler, _) = build_sampler(&x, &cdf, |a, b| (a - b).abs());
    // Bin boundaries are kept whatever the number of points in the bin.
    for b in 0..32u32 {
        let probe = (b * 2048) as u16;
        assert_eq!(cdf_inv[(b * 32) as usize], sample(&sampler, probe));
    }
}
