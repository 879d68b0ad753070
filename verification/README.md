# icdf_sampler

Inverse-CDF sampling driven by a raw `u16` probe. A continuous distribution is
resampled on a uniform grid of 1025 points over `u = [0, 1]`, each of the 32
bins of that grid is thinned to `2^p` points (`0 <= p <= 5`) so that the bins
share 256 points, and a 64-byte index table finds, for any probe, the two
stored points to interpolate between.

- `src/` is the verified core: the geometry (`layout`), the cost of
  thinning each bin (`weights`), the optimal distribution of the point
  budget by dynamic programming (`budget`), the index table and the
  branch-free lookup (`table`), the thinning of the grid and the read-back of
  a probe (`binned`), and the checks that decide the distribution errors
  (`error`). The error weights, the dynamic programme and the thinning are
  generic over the cost and value types, with the arithmetic passed in as
  closures, so no floating-point value enters the verified code.
- `app/` holds the floating-point side: grids, trapezoid integration,
  normalisation, the resampling of the inverse CDF, the interpolation error
  of a single point, the final interpolation of a sample, and the Python
  binding (pyo3).
- `tests/` exercises the core on concrete layouts and, with the
  floating-point steps written out as scaffolding, on a normalized gaussian.
