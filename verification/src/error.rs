//! The errors of handling a distribution, and the checks that decide them.
use vstd::prelude::*;

verus! {

/// Errors possible during handling distributions.
#[derive(Debug, Clone, Copy, PartialEq, Eq, Structural)]
pub enum DistributionError {
    /// `x` and `f` are of unequal length.
    LenMismatch,
    /// The distribution has less than 2 data points.
    Underpopulated,
    /// The cumulative distribution is not strictly monotonically increasing.
    NotMonotonic,
}

/// The abscissae `x` and the ordinates `f` of a distribution must pair up.
pub fn check_lengths(x_len: usize, f_len: usize) -> (r: Result<(), DistributionError>)
    ensures
        r == (if x_len == f_len {
            Ok::<(), DistributionError>(())
        } else {
            Err(DistributionError::LenMismatch)
        }),
{
    if x_len != f_len {
        Err(DistributionError::LenMismatch)
    } else {
        Ok(())
    }
}

/// Checks a cumulative distribution before it is normalised: it needs at
/// least 2 points, and every point must lie strictly above the one before.
/// `not_above(next, prev)` decides whether `next` fails to rise above `prev`;
/// the points are compared in order and the first failure stops the check.
pub fn check_cumulative<T: Copy, F: Fn(T, T) -> bool>(cumulative: &[T], not_above: F) -> (r: Result<
    (),
    DistributionError,
>)
    requires
        forall|x: T, y: T| call_requires(not_above, (x, y)),
    ensures
        cumulative@.len() < 2 ==> r == Err::<(), DistributionError>(
            DistributionError::Underpopulated,
        ),
        cumulative@.len() >= 2 ==> (r is Ok || r == Err::<(), DistributionError>(
            DistributionError::NotMonotonic,
        )),
        r is Ok ==> forall|i: int|
            1 <= i < cumulative@.len() ==> call_ensures(
                not_above,
                (#[trigger] cumulative@[i], cumulative@[i - 1]),
                false,
            ),
        r == Err::<(), DistributionError>(DistributionError::NotMonotonic) ==> exists|i: int|
            1 <= i < cumulative@.len() && call_ensures(
                not_above,
                (#[trigger] cumulative@[i], cumulative@[i - 1]),
                true,
            ) && forall|j: int|
                1 <= j < i ==> call_ensures(
                    not_above,
                    (#[trigger] cumulative@[j], cumulative@[j - 1]),
                    false,
                ),
{
    let n = cumulative.len();
    if n < 2 {
        return Err(DistributionError::Underpopulated);
    }
    let mut i: usize = 1;
    while i < n
        invariant
            1 <= i <= n,
            n == cumulative@.len(),
            forall|x: T, y: T| call_requires(not_above, (x, y)),
            forall|j: int|
                1 <= j < i ==> call_ensures(
                    not_above,
                    (#[trigger] cumulative@[j], cumulative@[j - 1]),
                    false,
                ),
        decreases n - i,
    {
        if not_above(cumulative[i], cumulative[i - 1]) {
            proof {
                assert(call_ensures(
                    not_above,
                    (cumulative@[i as int], cumulative@[i - 1]),
                    true,
                ));
            }
            return Err(DistributionError::NotMonotonic);
        }
        i = i + 1;
    }
    Ok(())
}

} // verus!
