//! Natural numbers of any size, held as little-endian bytes.
//!
//! The arithmetic on them is done by the `num` crate's `BigUint`.

use crate::poly::eval_at;
use num::BigUint;
use vstd::arithmetic::power::*;
use vstd::prelude::*;

verus! {

/// The bytes as integers, in the same order.
pub open spec fn bytes_as_ints(bytes: Seq<u8>) -> Seq<int> {
    Seq::new(bytes.len(), |k: int| bytes[k] as int)
}

/// The number that `bytes` write in base 256, least significant byte first.
pub open spec fn le_value(bytes: Seq<u8>) -> nat {
    eval_at(bytes_as_ints(bytes), 256) as nat
}

/// The value of bytes is not negative, and below `256^len`.
pub proof fn lemma_le_value_bounds(bytes: Seq<u8>)
    ensures
        0 <= eval_at(bytes_as_ints(bytes), 256) < pow(256, bytes.len()),
        le_value(bytes) == eval_at(bytes_as_ints(bytes), 256),
    decreases bytes.len(),
{
    let ints = bytes_as_ints(bytes);
    reveal(pow);
    if bytes.len() > 0 {
        assert(ints.drop_last() =~= bytes_as_ints(bytes.drop_last()));
        lemma_le_value_bounds(bytes.drop_last());
        let w = pow(256, (bytes.len() - 1) as nat);
        lemma_pow_positive(256, (bytes.len() - 1) as nat);
        assert(pow(256, bytes.len()) == 256 * w);
        assert(0 <= ints.last() * w <= 255 * w) by (nonlinear_arith)
            requires
                0 <= ints.last() <= 255,
                w > 0,
        ;
    }
}

/// Bytes that write a number below `256^n` are zero from position `n` on,
/// and the first `n` of them write the same number.
pub proof fn lemma_le_value_take(bytes: Seq<u8>, n: nat)
    requires
        le_value(bytes) < pow(256, n),
        n <= bytes.len(),
    ensures
        le_value(bytes.take(n as int)) == le_value(bytes),
        forall|k: int| n <= k < bytes.len() ==> bytes[k] == 0,
    decreases bytes.len(),
{
    if bytes.len() == n {
        assert(bytes.take(n as int) =~= bytes);
    } else {
        let ints = bytes_as_ints(bytes);
        let shorter = bytes.drop_last();
        assert(ints.drop_last() =~= bytes_as_ints(shorter));
        lemma_le_value_bounds(bytes);
        lemma_le_value_bounds(shorter);
        let top = (bytes.len() - 1) as nat;
        let w = pow(256, top);
        lemma_pow_increases(256, n, top);
        assert(eval_at(ints, 256) == eval_at(ints.drop_last(), 256) + ints.last() * w);
        assert(ints.last() == 0) by {
            if ints.last() != 0 {
                assert(ints.last() * w >= w) by (nonlinear_arith)
                    requires
                        ints.last() >= 1,
                        w > 0,
                ;
            }
        }
        assert(0 * w == 0);
        lemma_le_value_take(shorter, n);
        assert(shorter.take(n as int) =~= bytes.take(n as int));
        assert forall|k: int| n <= k < bytes.len() implies bytes[k] == 0 by {
            if k < shorter.len() {
                assert(shorter[k] == bytes[k]);
            } else {
                assert(bytes[k] as int == ints.last());
            }
        }
    }
}

/// Zero bytes at the end do not change the number.
pub proof fn lemma_le_value_push_zero(bytes: Seq<u8>)
    ensures
        le_value(bytes.push(0)) == le_value(bytes),
{
    let longer = bytes.push(0);
    assert(bytes_as_ints(longer).drop_last() =~= bytes_as_ints(bytes));
    assert(0 * pow(256, bytes.len()) == 0);
}

/// A natural number.
pub struct BigNat {
    /// The number in base 256, least significant byte first. Zero bytes at
    /// the end are allowed, and so is the empty list for zero.
    pub bytes: Vec<u8>,
}

impl View for BigNat {
    type V = nat;

    open spec fn view(&self) -> nat {
        le_value(self.bytes@)
    }
}

impl BigNat {
    /// The number that `bytes` write, least significant byte first.
    pub fn from_bytes_le(bytes: Vec<u8>) -> (n: BigNat)
        ensures
            n.bytes == bytes,
            n@ == le_value(bytes@),
    {
        BigNat { bytes }
    }

    /// Zero.
    pub fn zero() -> (n: BigNat)
        ensures
            n@ == 0,
    {
        BigNat { bytes: Vec::new() }
    }

    /// A number with the same bytes.
    pub fn duplicate(&self) -> (copy: BigNat)
        ensures
            copy.bytes@ == self.bytes@,
            copy@ == self@,
    {
        let mut bytes: Vec<u8> = Vec::new();
        for i in 0..self.bytes.len()
            invariant
                bytes@ == self.bytes@.take(i as int),
        {
            bytes.push(self.bytes[i]);
            assert(bytes@ =~= self.bytes@.take(i + 1));
        }
        assert(self.bytes@.take(self.bytes@.len() as int) =~= self.bytes@);
        BigNat { bytes }
    }

    /// Whether the number is zero.
    pub fn is_zero(&self) -> (zero: bool)
        ensures
            zero == (self@ == 0),
    {
        big_eq(self, &BigNat::zero())
    }

    /// Whether the number is less than `other`.
    pub fn is_less_than(&self, other: &BigNat) -> (less: bool)
        ensures
            less == (self@ < other@),
    {
        big_lt(self, other)
    }

    /// Whether the two are the same number.
    pub fn is_equal_to(&self, other: &BigNat) -> (equal: bool)
        ensures
            equal == (self@ == other@),
    {
        big_eq(self, other)
    }
}

/// Compares two numbers for equality.
///
/// Trusted: calls `BigUint`'s `==` on the numbers that `from_bytes_le` reads.
/// The claim is that it holds exactly when the two byte lists write the same
/// number.
#[verifier::external_body]
pub(crate) fn big_eq(x: &BigNat, y: &BigNat) -> (equal: bool)
    ensures
        equal == (x@ == y@),
{
    BigUint::from_bytes_le(&x.bytes) == BigUint::from_bytes_le(&y.bytes)
}

/// Compares two numbers by size.
///
/// Trusted: calls `BigUint`'s `<` on the numbers that `from_bytes_le` reads.
/// The claim is that it holds exactly when the first number is the smaller.
#[verifier::external_body]
pub(crate) fn big_lt(x: &BigNat, y: &BigNat) -> (less: bool)
    ensures
        less == (x@ < y@),
{
    BigUint::from_bytes_le(&x.bytes) < BigUint::from_bytes_le(&y.bytes)
}

/// Adds two numbers.
///
/// Trusted: calls `BigUint`'s `Add` between `from_bytes_le` and
/// `to_bytes_le`. The claim is that the bytes returned write the sum.
#[verifier::external_body]
pub(crate) fn big_add(x: &BigNat, y: &BigNat) -> (sum: BigNat)
    ensures
        sum@ == x@ + y@,
{
    let sum = BigUint::from_bytes_le(&x.bytes) + BigUint::from_bytes_le(&y.bytes);
    BigNat { bytes: sum.to_bytes_le() }
}

/// Subtracts a number from one that is not smaller.
///
/// Trusted: calls `BigUint`'s `Sub`, which panics where the result would be
/// negative, between `from_bytes_le` and `to_bytes_le`. The claim is that the
/// bytes returned write the difference.
#[verifier::external_body]
pub(crate) fn big_sub(x: &BigNat, y: &BigNat) -> (difference: BigNat)
    requires
        x@ >= y@,
    ensures
        difference@ == x@ - y@,
{
    let difference = BigUint::from_bytes_le(&x.bytes) - BigUint::from_bytes_le(&y.bytes);
    BigNat { bytes: difference.to_bytes_le() }
}

/// Multiplies two numbers.
///
/// Trusted: calls `BigUint`'s `Mul` between `from_bytes_le` and
/// `to_bytes_le`. The claim is that the bytes returned write the product.
#[verifier::external_body]
pub(crate) fn big_mul(x: &BigNat, y: &BigNat) -> (product: BigNat)
    ensures
        product@ == x@ * y@,
{
    let product = BigUint::from_bytes_le(&x.bytes) * BigUint::from_bytes_le(&y.bytes);
    BigNat { bytes: product.to_bytes_le() }
}

/// The remainder of a division by a number that is not zero.
///
/// Trusted: calls `BigUint`'s `Rem`, which panics on a zero divisor, between
/// `from_bytes_le` and `to_bytes_le`. The claim is that the bytes returned
/// write the remainder.
#[verifier::external_body]
pub(crate) fn big_rem(x: &BigNat, y: &BigNat) -> (remainder: BigNat)
    requires
        y@ > 0,
    ensures
        remainder@ == x@ % y@,
{
    let remainder = BigUint::from_bytes_le(&x.bytes) % BigUint::from_bytes_le(&y.bytes);
    BigNat { bytes: remainder.to_bytes_le() }
}

/// The quotient of a division by a number that is not zero, rounded down.
///
/// Trusted: calls `BigUint`'s `Div`, which panics on a zero divisor, between
/// `from_bytes_le` and `to_bytes_le`. The claim is that the bytes returned
/// write the quotient.
#[verifier::external_body]
pub(crate) fn big_div(x: &BigNat, y: &BigNat) -> (quotient: BigNat)
    requires
        y@ > 0,
    ensures
        quotient@ == x@ / y@,
{
    let quotient = BigUint::from_bytes_le(&x.bytes) / BigUint::from_bytes_le(&y.bytes);
    BigNat { bytes: quotient.to_bytes_le() }
}

/// A power of a number, reduced by a modulus that is not zero.
///
/// Trusted: calls `BigUint::modpow`, which panics on a zero modulus, between
/// `from_bytes_le` and `to_bytes_le`. The claim is that the bytes returned
/// write the remainder of `base^exponent` on division by `modulus`.
#[verifier::external_body]
pub(crate) fn big_modpow(base: &BigNat, exponent: &BigNat, modulus: &BigNat) -> (power: BigNat)
    requires
        modulus@ > 0,
    ensures
        power@ == pow(base@ as int, exponent@) % (modulus@ as int),
{
    let base = BigUint::from_bytes_le(&base.bytes);
    let exponent = BigUint::from_bytes_le(&exponent.bytes);
    let modulus = BigUint::from_bytes_le(&modulus.bytes);
    BigNat { bytes: base.modpow(&exponent, &modulus).to_bytes_le() }
}

} // verus!
