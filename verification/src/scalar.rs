//! The arithmetic in which energies are computed.

use crate::count::Count;
use rand::rngs::SmallRng;
use std::mem::swap;
use vstd::prelude::*;

verus! {

/// Numbers in which complexities, energies and scores are computed, such as a floating-point
/// type of the caller.
///
/// Nothing is taken for granted of the results: what is proved of an optimizer holds for whatever
/// these operations return.
pub trait Scalar: Sized + Send + Sync {
    /// Zero.
    fn zero() -> Self;

    /// `start / 100 + step / 100 * index`.
    fn affine(start: u64, step: u64, index: u64) -> Self;

    /// The number that was counted.
    fn of_count(count: &Count) -> Self;

    /// The binary logarithm of a size.
    fn log2_of(size: usize) -> Self;

    /// The binary logarithm of `a`.
    fn log2(a: &Self) -> Self;

    /// Two to the power of `a`.
    fn exp2(a: &Self) -> Self;

    /// Euler's number to the power of `a`.
    fn exp(a: &Self) -> Self;

    /// The negative of `a`.
    fn negated(a: &Self) -> Self;

    /// The sum of `a` and `b`.
    fn plus(a: &Self, b: &Self) -> Self;

    /// The difference of `a` and `b`.
    fn minus(a: &Self, b: &Self) -> Self;

    /// The product of `a` and `b`.
    fn times(a: &Self, b: &Self) -> Self;

    /// The quotient of `a` and `b`.
    fn quotient(a: &Self, b: &Self) -> Self;

    /// The larger one of `a` and `b`.
    fn maximum(a: &Self, b: &Self) -> Self;

    /// The binary logarithm of two to the power of `a` plus two to the power of `b`.
    fn log2_sum_exp2(a: &Self, b: &Self) -> Self;

    /// Whether `a` is below `b`.
    fn less(a: &Self, b: &Self) -> bool;

    /// A number drawn evenly from those from zero up to but not one.
    fn unit(rng: &mut SmallRng) -> Self;
}

/// Whether `r` comes of adding up `terms` from the left, starting at zero.
pub open spec fn sum_is<R: Scalar>(terms: Seq<R>, r: R) -> bool
    decreases terms.len(),
{
    if terms.len() == 0 {
        call_ensures(R::zero, (), r)
    } else {
        exists|p: R| sum_is(terms.drop_last(), p) && #[trigger] plus_is(p, terms.last(), r)
    }
}

/// Whether [`Scalar::log2_sum_exp2`] may return `r` for `a` and `b`.
pub open spec fn lse_is<R: Scalar>(a: R, b: R, r: R) -> bool {
    call_ensures(R::log2_sum_exp2, (&a, &b), r)
}

/// Whether [`Scalar::maximum`] may return `r` for `a` and `b`.
pub open spec fn max_is<R: Scalar>(a: R, b: R, r: R) -> bool {
    call_ensures(R::maximum, (&a, &b), r)
}

/// Whether [`Scalar::plus`] may return `r` for `a` and `b`.
pub open spec fn plus_is<R: Scalar>(a: R, b: R, r: R) -> bool {
    call_ensures(R::plus, (&a, &b), r)
}

/// Whether [`Scalar::minus`] may return `r` for `a` and `b`.
pub open spec fn minus_is<R: Scalar>(a: R, b: R, r: R) -> bool {
    call_ensures(R::minus, (&a, &b), r)
}

/// Whether [`Scalar::times`] may return `r` for `a` and `b`.
pub open spec fn times_is<R: Scalar>(a: R, b: R, r: R) -> bool {
    call_ensures(R::times, (&a, &b), r)
}

/// Whether [`Scalar::less`] may return `r` for `a` and `b`.
pub open spec fn less_is<R: Scalar>(a: R, b: R, r: bool) -> bool {
    call_ensures(R::less, (&a, &b), r)
}

/// Draws a number by [`Scalar::unit`], and hands the generator back in the state that the draw
/// left.
pub fn unit_from<R: Scalar>(rng: SmallRng) -> (out: (R, SmallRng))
    ensures
        exists|g: &mut SmallRng|
            *g == rng && #[trigger] call_ensures(R::unit, (g,), out.0) && *final(g) == out.1,
{
    let mut rng = rng;
    let ghost before = rng;
    let r: R = R::unit(&mut rng);
    proof {
        let g = choose|g: &mut SmallRng|
            *g == before && #[trigger] call_ensures(R::unit, (g,), r) && *final(g) == rng;
        assert(call_ensures(R::unit, (g,), (r, rng).0));
    }
    (r, rng)
}

/// Whether a number drawn from the state `before` can be `r`, and leave the state `after`.
pub open spec fn drawn<R: Scalar>(before: SmallRng, r: R, after: SmallRng) -> bool {
    call_ensures(unit_from::<R>, (before,), (r, after))
}

/// Draws a number.
pub(crate) fn draw_unit<R: Scalar>(rng: &mut SmallRng) -> (r: R)
    ensures
        drawn(*old(rng), r, *final(rng)),
{
    let mut taken: SmallRng = crate::random::start(0);
    swap(rng, &mut taken);
    let (r, left) = unit_from::<R>(taken);
    *rng = left;
    r
}

/// A number that is drawn from a state comes of [`Scalar::unit`] on a generator in that state, and
/// the state that is left is the one in which it leaves the generator.
pub proof fn number_comes_of_call<R: Scalar>(before: SmallRng, r: R, after: SmallRng)
    requires
        drawn(before, r, after),
    ensures
        exists|g: &mut SmallRng|
            *g == before && #[trigger] call_ensures(R::unit, (g,), r) && *final(g) == after,
{
}

} // verus!
