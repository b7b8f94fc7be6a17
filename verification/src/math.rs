//! Basis-point arithmetic: the part of an amount that a weight stands for.

use soroban_fixed_point_math::FixedPoint;
use vstd::arithmetic::div_mod::{
    lemma_div_by_multiple, lemma_div_is_ordered, lemma_div_pos_is_pos, lemma_fundamental_div_mod,
    lemma_hoist_over_denominator,
};
use vstd::prelude::*;

verus! {

/// The denominator of every weight: 10000 basis points make the whole.
pub const BASIS_POINTS: i128 = 10000;

/// `floor(x * y / denominator)` for a positive denominator.
pub open spec fn mul_floor(x: int, y: int, denominator: int) -> int
    recommends
        denominator > 0,
{
    (x * y) / denominator
}

/// The part of `amount` that `weight` basis points stand for, rounded down.
pub open spec fn portion(amount: int, weight: int) -> int {
    mul_floor(amount, weight, BASIS_POINTS as int)
}

/// Calls `soroban_fixed_point_math::FixedPoint::fixed_mul_floor` on `i128`.
///
/// Claimed of it, for a positive denominator: where the product `x * y` fits
/// in an `i128` the result is the product divided by the denominator and
/// rounded towards negative infinity; where the product does not fit the
/// result is `None`.
#[verifier::external_body]
pub(crate) fn fixed_mul_floor(x: i128, y: i128, denominator: i128) -> (r: Option<i128>)
    requires
        denominator > 0,
    ensures
        i128::MIN <= x * y <= i128::MAX ==> r.is_some() && r.unwrap() as int == mul_floor(
            x as int,
            y as int,
            denominator as int,
        ),
        !(i128::MIN <= x * y <= i128::MAX) ==> r.is_none(),
{
    FixedPoint::fixed_mul_floor(x, y, denominator)
}

/// A portion of a non-negative amount under a weight of at most the whole is
/// itself between zero and the amount, and is the product rounded down.
pub proof fn lemma_portion_bounds(amount: int, weight: int)
    requires
        0 <= amount,
        0 <= weight <= BASIS_POINTS,
    ensures
        0 <= portion(amount, weight) <= amount,
        portion(amount, weight) * BASIS_POINTS <= amount * weight,
        amount * weight < (portion(amount, weight) + 1) * BASIS_POINTS,
{
    let p = amount * weight;
    assert(0 <= p) by (nonlinear_arith)
        requires
            0 <= amount,
            0 <= weight,
            p == amount * weight,
    ;
    assert(p <= amount * 10000) by (nonlinear_arith)
        requires
            0 <= amount,
            weight <= 10000,
            p == amount * weight,
    ;
    lemma_fundamental_div_mod(p, 10000);
    lemma_div_pos_is_pos(p, 10000);
    lemma_div_is_ordered(p, amount * 10000, 10000);
    lemma_div_by_multiple(amount, 10000);
}

/// Splitting the amount into whole multiples of the denominator and a rest
/// gives the same portion as the product taken at once.
proof fn lemma_portion_by_parts(amount: int, weight: int)
    requires
        0 <= amount,
        0 <= weight <= BASIS_POINTS,
    ensures
        portion(amount, weight) == (amount / 10000) * weight + ((amount % 10000) * weight) / 10000,
        0 <= (amount / 10000) * weight <= amount,
        0 <= (amount % 10000) * weight <= 100000000,
{
    let q = amount / 10000;
    let rest = amount % 10000;
    lemma_fundamental_div_mod(amount, 10000);
    lemma_div_pos_is_pos(amount, 10000);
    assert(amount * weight == rest * weight + (q * weight) * 10000) by (nonlinear_arith)
        requires
            amount == 10000 * q + rest,
    ;
    lemma_hoist_over_denominator(rest * weight, q * weight, 10000);
    assert(0 <= q * weight <= amount) by (nonlinear_arith)
        requires
            0 <= q,
            0 <= weight <= 10000,
            amount == 10000 * q + rest,
            0 <= rest,
    ;
    assert(0 <= rest * weight <= 100000000) by (nonlinear_arith)
        requires
            0 <= rest < 10000,
            0 <= weight <= 10000,
    ;
}

/// The part of `amount` that `weight` basis points stand for, rounded down,
/// for every non-negative amount: a product too large for an `i128` is taken
/// in two parts.
pub fn basis_points_of(amount: i128, weight: i128) -> (r: i128)
    requires
        0 <= amount,
        0 <= weight <= BASIS_POINTS,
    ensures
        r == portion(amount as int, weight as int),
        0 <= r <= amount,
{
    proof {
        lemma_portion_bounds(amount as int, weight as int);
        lemma_portion_by_parts(amount as int, weight as int);
    }
    match fixed_mul_floor(amount, weight, BASIS_POINTS) {
        Some(r) => r,
        None => {
            let whole: i128 = (amount / BASIS_POINTS) * weight;
            let rest: i128 = ((amount % BASIS_POINTS) * weight) / BASIS_POINTS;
            whole + rest
        },
    }
}

} // verus!
