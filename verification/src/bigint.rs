//! Arbitrary-precision integers. The values live in `num_bigint_dig`'s
//! `BigUint` and `BigInt`; the spec functions `uval` and `ival` name the
//! natural number, respectively the integer, that such a value holds, and
//! every operation the library needs is a small trusted wrapper whose
//! contract states what the operation does to those values.

use vstd::prelude::*;
use num_bigint_dig::{BigInt, BigUint};
use crate::nt::{bytes_be, be_val, powm};

verus! {

/// Declares `num_bigint_dig::BigUint`, an arbitrary-precision natural
/// number, as an opaque type.
#[verifier::external_type_specification]
#[verifier::external_body]
pub struct ExBigUint(BigUint);

/// Declares `num_bigint_dig::BigInt`, an arbitrary-precision signed
/// integer, as an opaque type.
#[verifier::external_type_specification]
#[verifier::external_body]
pub struct ExBigInt(BigInt);

/// The natural number that a `BigUint` holds.
pub uninterp spec fn uval(v: BigUint) -> nat;

/// The integer that a `BigInt` holds.
pub uninterp spec fn ival(v: BigInt) -> int;

/// The naturals held by a sequence of `BigUint`s.
pub open spec fn useq(s: Seq<BigUint>) -> Seq<nat> {
    s.map_values(|v: BigUint| uval(v))
}

/// Relies on `From<u64> for BigUint`: the converted value.
#[verifier::external_body]
pub fn big_from_u64(x: u64) -> (r: BigUint)
    ensures
        uval(r) == x as nat,
{
    BigUint::from(x)
}

/// Relies on `Clone for BigUint`: a copy holds the same value.
pub assume_specification[ <BigUint as Clone>::clone ](a: &BigUint) -> (r: BigUint)
    ensures
        uval(r) == uval(*a),
;

/// Relies on `Clone for BigInt`: a copy holds the same value.
pub assume_specification[ <BigInt as Clone>::clone ](a: &BigInt) -> (r: BigInt)
    ensures
        ival(r) == ival(*a),
;

/// Relies on `PartialEq for BigUint`: equality of the held values.
#[verifier::external_body]
pub fn big_eq(a: &BigUint, b: &BigUint) -> (r: bool)
    ensures
        r == (uval(*a) == uval(*b)),
{
    a == b
}

/// Relies on `Ord for BigUint`: order of the held values.
#[verifier::external_body]
pub fn big_lt(a: &BigUint, b: &BigUint) -> (r: bool)
    ensures
        r == (uval(*a) < uval(*b)),
{
    a < b
}

/// Relies on `Zero::is_zero for BigUint`.
#[verifier::external_body]
pub fn big_is_zero(a: &BigUint) -> (r: bool)
    ensures
        r == (uval(*a) == 0),
{
    num_traits::Zero::is_zero(a)
}

/// Relies on `Mul for BigUint`: the product of the held values.
#[verifier::external_body]
pub fn big_mul(a: &BigUint, b: &BigUint) -> (r: BigUint)
    ensures
        uval(r) == uval(*a) * uval(*b),
{
    a * b
}

/// Relies on `num_integer::Integer::div_rem for BigUint`: Euclidean
/// quotient and remainder.
#[verifier::external_body]
pub fn big_div_rem(a: &BigUint, b: &BigUint) -> (r: (BigUint, BigUint))
    requires
        uval(*b) >= 1,
    ensures
        uval(*a) == uval(r.0) * uval(*b) + uval(r.1),
        uval(r.1) < uval(*b),
{
    num_integer::Integer::div_rem(a, b)
}

/// Relies on `Rem for BigUint`: the remainder of the held values.
#[verifier::external_body]
pub fn big_mod(a: &BigUint, m: &BigUint) -> (r: BigUint)
    requires
        uval(*m) >= 1,
    ensures
        uval(r) == uval(*a) % uval(*m),
{
    a % m
}

/// Relies on `BigUint::modpow`: `a^e mod m`.
#[verifier::external_body]
pub fn big_modpow(a: &BigUint, e: &BigUint, m: &BigUint) -> (r: BigUint)
    requires
        uval(*m) >= 1,
    ensures
        uval(r) == powm(uval(*a), uval(*e), uval(*m)),
{
    a.modpow(e, m)
}

/// Relies on `BigUint::to_bytes_be`: the minimal big-endian bytes of the
/// held value, with a single zero byte for zero.
#[verifier::external_body]
pub fn big_to_bytes_be(a: &BigUint) -> (r: Vec<u8>)
    ensures
        uval(*a) == 0 ==> r@ =~= seq![0u8],
        uval(*a) > 0 ==> r@ =~= bytes_be(uval(*a)),
{
    a.to_bytes_be()
}

/// Relies on `BigUint::from_bytes_be`: the value denoted by big-endian
/// bytes.
#[verifier::external_body]
pub fn big_from_bytes_be(bytes: &Vec<u8>) -> (r: BigUint)
    ensures
        uval(r) == be_val(bytes@),
{
    BigUint::from_bytes_be(bytes)
}

/// The prime that the deterministic search of
/// `num_bigint_dig::prime::next_prime` returns for a given start value.
pub uninterp spec fn next_prime_of(x: nat) -> nat;

/// Relies on `num_bigint_dig::prime::next_prime`: a deterministic search
/// for the next larger prime; the result always exceeds the input and is at
/// least two.
#[verifier::external_body]
pub fn next_prime(x: &BigUint) -> (r: BigUint)
    ensures
        uval(r) == next_prime_of(uval(*x)),
        uval(r) > uval(*x),
        uval(r) >= 2,
{
    num_bigint_dig::prime::next_prime(x)
}

/// Relies on `num_bigint_dig::RandPrime::gen_prime`: a random probable
/// prime with exactly `bits` bits, whose top two bits are both set; such a
/// number is odd and at least three.
#[verifier::external_body]
pub fn gen_prime(bits: usize) -> (r: BigUint)
    requires
        bits >= 2,
    ensures
        uval(r) >= 3,
        vstd::arithmetic::power2::pow2((bits - 1) as nat) + vstd::arithmetic::power2::pow2(
            (bits - 2) as nat,
        ) <= uval(r) < vstd::arithmetic::power2::pow2(bits as nat),
        uval(r) % 2 == 1,
{
    let mut rng = rand::thread_rng();
    num_bigint_dig::RandPrime::gen_prime(&mut rng, bits)
}

/// Relies on `num_bigint_dig::RandBigInt::gen_biguint_below`: a random
/// value below the bound.
#[verifier::external_body]
pub fn gen_below(bound: &BigUint) -> (r: BigUint)
    requires
        uval(*bound) >= 1,
    ensures
        uval(r) < uval(*bound),
{
    let mut rng = rand::thread_rng();
    num_bigint_dig::RandBigInt::gen_biguint_below(&mut rng, bound)
}

/// Relies on `From<u64> for BigInt`: the converted value.
#[verifier::external_body]
pub fn int_from_u64(x: u64) -> (r: BigInt)
    ensures
        ival(r) == x as int,
{
    BigInt::from(x)
}

/// Relies on `From<BigUint> for BigInt`: the held value is unchanged.
#[verifier::external_body]
pub fn int_from_uint(a: &BigUint) -> (r: BigInt)
    ensures
        ival(r) == uval(*a) as int,
{
    BigInt::from(a.clone())
}

/// Relies on `num_traits::Signed::is_negative for BigInt`.
#[verifier::external_body]
pub fn int_is_negative(a: &BigInt) -> (r: bool)
    ensures
        r == (ival(*a) < 0),
{
    num_traits::Signed::is_negative(a)
}

/// Relies on `num_traits::Signed::abs` and `BigInt::to_biguint`: the
/// absolute value of the held integer.
#[verifier::external_body]
pub fn int_magnitude(a: &BigInt) -> (r: BigUint)
    ensures
        uval(r) == if ival(*a) >= 0 {
            ival(*a) as nat
        } else {
            (-ival(*a)) as nat
        },
{
    num_traits::Signed::abs(a).to_biguint().unwrap()
}

/// Relies on `Mul for BigInt`: the product of the held values.
#[verifier::external_body]
pub fn int_mul(a: &BigInt, b: &BigInt) -> (r: BigInt)
    ensures
        ival(r) == ival(*a) * ival(*b),
{
    a * b
}

/// Relies on `Sub for BigInt`: the difference of the held values.
#[verifier::external_body]
pub fn int_sub(a: &BigInt, b: &BigInt) -> (r: BigInt)
    ensures
        ival(r) == ival(*a) - ival(*b),
{
    a - b
}

/// Relies on `num_integer::Integer::div_mod_floor for BigInt`: floor
/// division, whose remainder for a positive divisor lies in `[0, divisor)`.
#[verifier::external_body]
pub fn int_div_mod_floor(a: &BigInt, m: &BigInt) -> (r: (BigInt, BigInt))
    requires
        ival(*m) >= 1,
    ensures
        ival(*a) == ival(r.0) * ival(*m) + ival(r.1),
        0 <= ival(r.1) < ival(*m),
{
    num_integer::Integer::div_mod_floor(a, m)
}

} // verus!
