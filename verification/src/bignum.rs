//! Trusted interface to `num_bigint::BigUint`.
//!
//! Keys and statistic numerators can exceed any native integer width, so the
//! executable code carries them as `BigUint` values.  The spec-level value of
//! such a number is given by the uninterpreted function [`big_value`]; each
//! wrapper below states, over that function, exactly what the wrapped
//! `num_bigint` operation computes.

use vstd::prelude::*;
use num_bigint::BigUint;

verus! {

#[verifier::external_type_specification]
#[verifier::external_body]
pub struct ExBigUint(BigUint);

/// The mathematical value of an arbitrary-precision unsigned integer.
pub uninterp spec fn big_value(b: BigUint) -> nat;

/// Relies on `<BigUint as From<u64>>::from`: builds the number with that value.
#[verifier::external_body]
pub(crate) fn big_from_u64(x: u64) -> (r: BigUint)
    ensures
        big_value(r) == x as nat,
{
    BigUint::from(x)
}

/// Relies on `<BigUint as From<u128>>::from`: builds the number with that value.
#[verifier::external_body]
pub(crate) fn big_from_u128(x: u128) -> (r: BigUint)
    ensures
        big_value(r) == x as nat,
{
    BigUint::from(x)
}

/// Relies on `<BigUint as Clone>::clone`: the copy has the same value.
#[verifier::external_body]
pub(crate) fn big_clone(a: &BigUint) -> (r: BigUint)
    ensures
        big_value(r) == big_value(*a),
{
    a.clone()
}

/// Relies on `<BigUint as PartialEq>::eq`: numeric equality on the canonical
/// digit representation, so two values compare equal exactly when they denote
/// the same integer.
#[verifier::external_body]
pub(crate) fn big_eq(a: &BigUint, b: &BigUint) -> (r: bool)
    ensures
        r <==> big_value(*a) == big_value(*b),
{
    a == b
}

/// Relies on `<&BigUint as PartialOrd>::lt`, backed by `Ord::cmp`, which
/// compares the canonical digit representations numerically.
#[verifier::external_body]
pub(crate) fn big_lt(a: &BigUint, b: &BigUint) -> (r: bool)
    ensures
        r <==> big_value(*a) < big_value(*b),
{
    a < b
}

/// Relies on `<&BigUint as Mul>::mul`: the product of the two values.
#[verifier::external_body]
pub(crate) fn big_mul(a: &BigUint, b: &BigUint) -> (r: BigUint)
    ensures
        big_value(r) == big_value(*a) * big_value(*b),
{
    a * b
}

/// Relies on `<&BigUint as Sub>::sub`: the difference of the two values.
/// Subtraction panics when the subtrahend is larger, so that case is
/// excluded here.
#[verifier::external_body]
pub(crate) fn big_sub(a: &BigUint, b: &BigUint) -> (r: BigUint)
    requires
        big_value(*b) <= big_value(*a),
    ensures
        big_value(r) == big_value(*a) - big_value(*b),
{
    a - b
}

/// Relies on `BigUint::pow`: raises the base to the given exponent.
#[verifier::external_body]
pub(crate) fn big_pow(base: &BigUint, exponent: u32) -> (r: BigUint)
    ensures
        big_value(r) == vstd::arithmetic::power::pow(
            big_value(*base) as int,
            exponent as nat,
        ),
{
    base.pow(exponent)
}

/// The spec-level values of a sequence of arbitrary-precision integers.
pub open spec fn key_values(s: Seq<BigUint>) -> Seq<nat> {
    s.map_values(|b: BigUint| big_value(b))
}

} // verus!
