//! Severity fences derived from the first and third quartile.
//!
//! Quartiles are carried in quarters of a tick and fences in eighths of a
//! tick: these are the coarsest grids on which interpolation between order
//! statistics and the factor one and a half are exact.

use vstd::prelude::*;

verus! {

/// The four fences `(low severe, low mild, high mild, high severe)` in
/// eighths of a tick, for quartiles `q1` and `q3` given in quarters of a tick.
///
/// With `iqr = q3 - q1` these are `q1 - 3 iqr`, `q1 - 1.5 iqr`,
/// `q3 + 1.5 iqr` and `q3 + 3 iqr`, each written on the common grid of
/// eighths so that no rounding takes place.
pub open spec fn fences(q1: int, q3: int) -> (int, int, int, int) {
    let iqr = q3 - q1;
    (2 * q1 - 6 * iqr, 2 * q1 - 3 * iqr, 2 * q3 + 3 * iqr, 2 * q3 + 6 * iqr)
}

/// Whether four fences stand in the order low severe, low mild, high mild,
/// high severe.
pub open spec fn fences_ordered(t: (int, int, int, int)) -> bool {
    t.0 <= t.1 <= t.2 <= t.3
}

/// Whether `q` can be a quartile, in quarters of a tick, of 64-bit ticks.
pub open spec fn quarter_range(q: int) -> bool {
    4 * i64::MIN <= q <= 4 * i64::MAX
}

/// The integer view of a tuple of machine fences.
pub open spec fn fences_view(t: (i128, i128, i128, i128)) -> (int, int, int, int) {
    (t.0 as int, t.1 as int, t.2 as int, t.3 as int)
}

/// Whether each of the fences `t` fits 128 bits.
pub open spec fn fences_fit(t: (int, int, int, int)) -> bool {
    &&& i128::MIN <= t.0 <= i128::MAX
    &&& i128::MIN <= t.1 <= i128::MAX
    &&& i128::MIN <= t.2 <= i128::MAX
    &&& i128::MIN <= t.3 <= i128::MAX
}

/// The fences never cross as long as the third quartile is not below the
/// first, that is as long as the interquartile range is not negative.
pub proof fn lemma_fences_ordered(q1: int, q3: int)
    requires
        q1 <= q3,
    ensures
        fences_ordered(fences(q1, q3)),
{
}

/// Computes the fences, in eighths of a tick, from the first and third
/// quartile, in quarters of a tick.
pub fn thresholds_from_quartiles(q1: i128, q3: i128) -> (t: (i128, i128, i128, i128))
    requires
        quarter_range(q1 as int),
        quarter_range(q3 as int),
    ensures
        fences_view(t) == fences(q1 as int, q3 as int),
{
    let iqr: i128 = q3 - q1;
    (2 * q1 - 6 * iqr, 2 * q1 - 3 * iqr, 2 * q3 + 3 * iqr, 2 * q3 + 6 * iqr)
}

} // verus!
