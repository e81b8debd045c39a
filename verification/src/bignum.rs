//! Trusted interface to the arbitrary-precision unsigned integers of the
//! `num` crate. The reduction step parses digest-derived numerals that far
//! exceed any machine word, so its arithmetic runs on `num::BigUint`; each
//! operation used is declared here with the contract its source shows.

use vstd::prelude::*;

use crate::numeral::{all_dec_digits, dec_value};

verus! {

#[verifier::external_type_specification]
#[verifier::external_body]
pub struct ExBigUint(num::BigUint);

#[verifier::external_type_specification]
#[verifier::external_body]
pub struct ExParseBigIntError(num::bigint::ParseBigIntError);

/// The natural number a `num::BigUint` holds.
pub uninterp spec fn biguint_of(b: num::BigUint) -> nat;

/// Relies on `str::parse::<num::BigUint>` (num's `FromStr`, radix 10): a
/// nonempty string of decimal digits parses to its decimal value; an empty
/// string is rejected.
#[verifier::external_body]
pub(crate) fn biguint_parse(s: &str) -> (r: Result<num::BigUint, num::bigint::ParseBigIntError>)
    ensures
        s@.len() > 0 && all_dec_digits(s@) ==> r is Ok,
        s@.len() > 0 && all_dec_digits(s@) && r is Ok ==> biguint_of(r->Ok_0) == dec_value(s@),
        s@.len() == 0 ==> r is Err,
{
    s.parse::<num::BigUint>()
}

/// Relies on `num::BigUint`'s `Add<u32>`: unbounded addition.
#[verifier::external_body]
pub(crate) fn biguint_add_u32(b: num::BigUint, x: u32) -> (r: num::BigUint)
    ensures
        biguint_of(r) == biguint_of(b) + x,
{
    b + x
}

/// Relies on `num::BigUint::from::<u32>`: exact conversion.
#[verifier::external_body]
pub(crate) fn biguint_from_u32(x: u32) -> (r: num::BigUint)
    ensures
        biguint_of(r) == x,
{
    num::BigUint::from(x)
}

/// Relies on `num::Integer::div_rem` for `num::BigUint`: quotient and
/// remainder of division, which panics only on a zero divisor.
#[verifier::external_body]
pub(crate) fn biguint_div_rem(a: &num::BigUint, d: &num::BigUint) -> (r: (
    num::BigUint,
    num::BigUint,
))
    requires
        biguint_of(*d) >= 1,
    ensures
        biguint_of(r.0) == biguint_of(*a) / biguint_of(*d),
        biguint_of(r.1) == biguint_of(*a) % biguint_of(*d),
{
    num::Integer::div_rem(a, d)
}

/// Relies on `num::ToPrimitive::to_u32` for `num::BigUint`: `Some` exactly
/// when the value fits in a `u32`.
#[verifier::external_body]
pub(crate) fn biguint_to_u32(b: &num::BigUint) -> (r: Option<u32>)
    ensures
        biguint_of(*b) <= u32::MAX ==> r is Some,
        biguint_of(*b) > u32::MAX ==> r is None,
        r is Some ==> r->0 == biguint_of(*b),
{
    num::ToPrimitive::to_u32(b)
}

} // verus!
