//! Arbitrary-precision naturals.
//!
//! Weights are exact fractions, and the numbers in them outgrow every machine
//! integer, so they are kept in `num_bigint::BigUint`. Verus does not look
//! inside that type: each operation used here is declared below with the
//! arithmetic it performs, and those declarations are taken on trust.

use num_bigint::BigUint;
use vstd::prelude::*;

verus! {

/// The natural numbers of the crate `num-bigint`, opaque to the verifier.
#[verifier::external_type_specification]
#[verifier::external_body]
pub struct ExBigUint(BigUint);

/// The natural number that a `BigUint` stands for.
pub uninterp spec fn big_value(b: BigUint) -> nat;

/// `BigUint::from(u64)`: the big natural with the value of `x`.
#[verifier::external_body]
pub(crate) fn big_from_u64(x: u64) -> (r: BigUint)
    ensures
        big_value(r) == x,
{
    BigUint::from(x)
}

/// `Clone::clone` of `BigUint`: a copy that stands for the same number.
pub assume_specification[ <BigUint as Clone>::clone ](a: &BigUint) -> (r: BigUint)
    ensures
        big_value(r) == big_value(*a),
;

/// `Add::add` on two `&BigUint`: the exact sum.
#[verifier::external_body]
pub(crate) fn big_add(a: &BigUint, b: &BigUint) -> (r: BigUint)
    ensures
        big_value(r) == big_value(*a) + big_value(*b),
{
    a + b
}

/// `Mul::mul` on two `&BigUint`: the exact product.
#[verifier::external_body]
pub(crate) fn big_mul(a: &BigUint, b: &BigUint) -> (r: BigUint)
    ensures
        big_value(r) == big_value(*a) * big_value(*b),
{
    a * b
}

/// `Div::div` on two `&BigUint`: the quotient rounded down. The outside
/// function panics on a zero divisor, which the precondition leaves out.
#[verifier::external_body]
pub(crate) fn big_div(a: &BigUint, b: &BigUint) -> (r: BigUint)
    requires
        big_value(*b) > 0,
    ensures
        big_value(r) == big_value(*a) / big_value(*b),
{
    a / b
}

/// `Rem::rem` on two `&BigUint`: the remainder of the division. The outside
/// function panics on a zero divisor, which the precondition leaves out.
#[verifier::external_body]
pub(crate) fn big_rem(a: &BigUint, b: &BigUint) -> (r: BigUint)
    requires
        big_value(*b) > 0,
    ensures
        big_value(r) == big_value(*a) % big_value(*b),
{
    a % b
}

/// `PartialEq::eq` of `BigUint`: whether both stand for the same number.
#[verifier::external_body]
pub(crate) fn big_eq(a: &BigUint, b: &BigUint) -> (r: bool)
    ensures
        r == (big_value(*a) == big_value(*b)),
{
    a == b
}

/// `PartialOrd::lt` of `BigUint`: whether the first number is the smaller.
#[verifier::external_body]
pub(crate) fn big_lt(a: &BigUint, b: &BigUint) -> (r: bool)
    ensures
        r == (big_value(*a) < big_value(*b)),
{
    a < b
}

} // verus!
