//! Trusted boundary around the arbitrary-precision integers and rationals
//! of the `num` crate.
//!
//! A `BigInt` is opaque to the verifier; the uninterpreted function [`bi`]
//! names the mathematical integer a `BigInt` holds, and each wrapper below
//! states, over `bi`, what one `num` operation does with it.  Likewise
//! [`rat_num`] and [`rat_den`] name the numerator and denominator that a
//! `BigRational` hands out.  Everything else in this crate is verified
//! against these contracts.

use vstd::prelude::*;

use crate::arith::divides;
use num::bigint::BigInt;
use num::rational::BigRational;
use num::rational::Ratio;
use num::traits::Signed;
use num::traits::Zero;

verus! {

#[verifier::external_type_specification]
#[verifier::external_body]
pub struct ExBigInt(BigInt);

#[verifier::external_type_specification]
#[verifier::external_body]
#[verifier::reject_recursive_types(T)]
pub struct ExRatio<T>(Ratio<T>);

/// The mathematical integer held by a `BigInt`.
pub uninterp spec fn bi(x: BigInt) -> int;

/// The integer that `Ratio::numer` returns for a `BigRational`.
pub uninterp spec fn rat_num(x: Ratio<BigInt>) -> int;

/// The integer that `Ratio::denom` returns for a `BigRational`.
pub uninterp spec fn rat_den(x: Ratio<BigInt>) -> int;

/// The rational is in lowest terms: no integer above one divides both
/// its numerator and its denominator.
pub open spec fn rat_reduced(x: Ratio<BigInt>) -> bool {
    forall|e: int| e > 1 ==> !(divides(e, rat_num(x)) && #[trigger] divides(e, rat_den(x)))
}

/// Relies on `BigInt: From<i64>`: exact conversion.
#[verifier::external_body]
pub fn big_from_i64(v: i64) -> (r: BigInt)
    ensures
        bi(r) == v as int,
{
    BigInt::from(v)
}

/// Relies on `BigInt: Clone`: the copy holds the same integer.
#[verifier::external_body]
pub fn big_clone(x: &BigInt) -> (r: BigInt)
    ensures
        bi(r) == bi(*x),
{
    x.clone()
}

/// Relies on `BigInt` addition: exact arbitrary-precision sum.
#[verifier::external_body]
pub fn big_add(a: &BigInt, b: &BigInt) -> (r: BigInt)
    ensures
        bi(r) == bi(*a) + bi(*b),
{
    a + b
}

/// Relies on `BigInt` subtraction: exact arbitrary-precision difference.
#[verifier::external_body]
pub fn big_sub(a: &BigInt, b: &BigInt) -> (r: BigInt)
    ensures
        bi(r) == bi(*a) - bi(*b),
{
    a - b
}

/// Relies on `BigInt` multiplication: exact arbitrary-precision product.
#[verifier::external_body]
pub fn big_mul(a: &BigInt, b: &BigInt) -> (r: BigInt)
    ensures
        bi(r) == bi(*a) * bi(*b),
{
    a * b
}

/// Relies on `BigInt` negation.
#[verifier::external_body]
pub fn big_neg(a: &BigInt) -> (r: BigInt)
    ensures
        bi(r) == -bi(*a),
{
    -a
}

/// Relies on `num::traits::Signed::abs` for `BigInt`.
#[verifier::external_body]
pub fn big_abs(a: &BigInt) -> (r: BigInt)
    ensures
        bi(r) == if bi(*a) < 0 {
            -bi(*a)
        } else {
            bi(*a)
        },
{
    Signed::abs(a)
}

/// Relies on `num::Integer::div_rem` for `BigInt`: division truncated
/// towards zero, with the remainder carrying the sign of the dividend and
/// staying below the divisor in magnitude.  Division by zero panics in
/// `num`, so it is excluded up front.
#[verifier::external_body]
pub fn big_div_rem(a: &BigInt, b: &BigInt) -> (r: (BigInt, BigInt))
    requires
        bi(*b) != 0,
    ensures
        bi(*a) == bi(r.0) * bi(*b) + bi(r.1),
        bi(r.1) == 0 || (bi(r.1) < 0 <==> bi(*a) < 0),
        (if bi(r.1) < 0 {
            -bi(r.1)
        } else {
            bi(r.1)
        }) < (if bi(*b) < 0 {
            -bi(*b)
        } else {
            bi(*b)
        }),
{
    num::Integer::div_rem(a, b)
}

/// Relies on `num::traits::Zero::is_zero` for `BigInt`.
#[verifier::external_body]
pub fn big_is_zero(a: &BigInt) -> (r: bool)
    ensures
        r == (bi(*a) == 0),
{
    a.is_zero()
}

/// Relies on `num::traits::Signed::is_positive` for `BigInt`.
#[verifier::external_body]
pub fn big_is_positive(a: &BigInt) -> (r: bool)
    ensures
        r == (bi(*a) > 0),
{
    Signed::is_positive(a)
}

/// Relies on `num::traits::Signed::is_negative` for `BigInt`.
#[verifier::external_body]
pub fn big_is_negative(a: &BigInt) -> (r: bool)
    ensures
        r == (bi(*a) < 0),
{
    Signed::is_negative(a)
}

/// Relies on `Ord::cmp` for `BigInt`: the ordering of the held integers.
#[verifier::external_body]
pub fn big_cmp(a: &BigInt, b: &BigInt) -> (r: core::cmp::Ordering)
    ensures
        r == core::cmp::Ordering::Less <==> bi(*a) < bi(*b),
        r == core::cmp::Ordering::Equal <==> bi(*a) == bi(*b),
        r == core::cmp::Ordering::Greater <==> bi(*a) > bi(*b),
{
    a.cmp(b)
}

/// Relies on `Ratio::numer` for `BigRational`, cloning the result.
#[verifier::external_body]
pub fn rat_numer(x: &BigRational) -> (r: BigInt)
    ensures
        bi(r) == rat_num(*x),
{
    x.numer().clone()
}

/// Relies on `Ratio::denom` for `BigRational`, cloning the result.
#[verifier::external_body]
pub fn rat_denom(x: &BigRational) -> (r: BigInt)
    ensures
        bi(r) == rat_den(*x),
{
    x.denom().clone()
}

/// Relies on `Ratio::new` for `BigRational`: its `reduce` divides both
/// parts by their greatest common divisor and moves the sign to the
/// numerator, so the result is in lowest terms with a positive
/// denominator and represents `n / d`.  `Ratio::new` panics on a zero
/// denominator, so that case is excluded.
#[verifier::external_body]
pub fn rat_new(n: BigInt, d: BigInt) -> (r: BigRational)
    requires
        bi(d) != 0,
    ensures
        rat_den(r) > 0,
        rat_num(r) * bi(d) == bi(n) * rat_den(r),
        rat_reduced(r),
{
    Ratio::new(n, d)
}

} // verus!
