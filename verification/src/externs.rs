//! Calls into outside crates, each behind one trusted wrapper.

use vstd::prelude::*;

verus! {

/// Relies on num_rational::Ratio: `Ratio::new` reduces the fraction and
/// `Ord` compares fractions as rational numbers, so for positive
/// denominators the order is the cross-product order.
#[verifier::external_body]
pub(crate) fn ratio_gt(a: u8, b: u8, c: u8, d: u8) -> (r: bool)
    requires
        b > 0,
        d > 0,
    ensures
        r == (a as int * d as int > c as int * b as int),
{
    num_rational::Ratio::new(a, b) > num_rational::Ratio::new(c, d)
}

/// Relies on num_rational::Ratio: `Eq` holds of two fractions exactly
/// when they are equal as rational numbers, so for positive denominators
/// exactly when the cross products agree.
#[verifier::external_body]
pub(crate) fn ratio_eq(a: u8, b: u8, c: u8, d: u8) -> (r: bool)
    requires
        b > 0,
        d > 0,
    ensures
        r == (a as int * d as int == c as int * b as int),
{
    num_rational::Ratio::new(a, b) == num_rational::Ratio::new(c, d)
}

/// Relies on rand::random: a fair coin toss. Nothing is promised of the
/// outcome; callers state what holds either way.
#[verifier::external_body]
pub(crate) fn coin_flip() -> bool {
    rand::random::<bool>()
}

} // verus!
