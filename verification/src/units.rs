//! Lengths in app units, and the arithmetic that `app_units::Au` does on them.
//!
//! A length is an `i32` count of app units. Sums and differences are taken by
//! `Au` itself, which keeps every result between `-MAX_AU` and `MAX_AU`.

use vstd::prelude::*;
use app_units::Au;

verus! {

/// The largest length that app units represent; its negation is the smallest.
pub const MAX_AU: i32 = 1073741823;

/// `x` brought into the range from `-MAX_AU` to `MAX_AU`.
pub open spec fn clamped(x: int) -> int {
    if x < -MAX_AU {
        -(MAX_AU as int)
    } else if x > MAX_AU {
        MAX_AU as int
    } else {
        x
    }
}

/// Whether `x` is a length that `Au` keeps as it is.
pub open spec fn in_range(x: int) -> bool {
    -MAX_AU <= x <= MAX_AU
}

/// `Au + Au`: the sum of the two lengths, clamped to the range of `Au`. The
/// operator adds the two `i32` values first, so their sum has to fit in an `i32`.
#[verifier::external_body]
pub(crate) fn au_add(a: i32, b: i32) -> (sum: i32)
    requires
        i32::MIN <= a + b <= i32::MAX,
    ensures
        sum == clamped(a + b),
{
    (Au(a) + Au(b)).0
}

/// `Au - Au`: the difference of the two lengths, clamped to the range of `Au`.
/// The operator subtracts the two `i32` values first, so their difference has
/// to fit in an `i32`.
#[verifier::external_body]
pub(crate) fn au_sub(a: i32, b: i32) -> (difference: i32)
    requires
        i32::MIN <= a - b <= i32::MAX,
    ensures
        difference == clamped(a - b),
{
    (Au(a) - Au(b)).0
}

/// `-Au`: the negated length, which `Au` does not clamp. `i32::MIN` has no
/// negation in an `i32`.
#[verifier::external_body]
pub(crate) fn au_neg(a: i32) -> (negated: i32)
    requires
        a > i32::MIN,
    ensures
        negated == -a,
{
    (-Au(a)).0
}

} // verus!
