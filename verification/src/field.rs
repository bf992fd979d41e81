//! The prime field in which trace cells live, on canonical representatives.
//!
//! A field element is held as the `u32` below the field's order that
//! represents it. The arithmetic itself is done by the `p3_baby_bear` crate.

use p3_baby_bear::BabyBear;
use p3_field::{AbstractField, Field, PrimeField32};
use vstd::prelude::*;

verus! {

/// Order of the field: the prime `2^31 - 2^27 + 1`.
pub const FIELD_ORDER: u32 = 2013265921;

/// The field's order as a mathematical integer.
pub open spec fn order() -> int {
    2013265921
}

/// Whether `x` is the canonical representative of a field element.
pub open spec fn is_canonical(x: int) -> bool {
    0 <= x < order()
}

/// Sum of two field elements.
pub open spec fn f_add(x: int, y: int) -> int {
    (x + y) % order()
}

/// Difference of two field elements.
pub open spec fn f_sub(x: int, y: int) -> int {
    (x - y) % order()
}

/// Product of two field elements.
pub open spec fn f_mul(x: int, y: int) -> int {
    (x * y) % order()
}

/// A sum in the field depends only on the residues of the summands.
pub proof fn lemma_f_add(x: int, y: int, x2: int, y2: int)
    requires
        x % order() == x2 % order(),
        y % order() == y2 % order(),
    ensures
        f_add(x, y) == (x2 + y2) % order(),
{
    vstd::arithmetic::div_mod::lemma_add_mod_noop(x, y, order());
    vstd::arithmetic::div_mod::lemma_add_mod_noop(x2, y2, order());
}

/// A difference in the field depends only on the residues of its terms.
pub proof fn lemma_f_sub(x: int, y: int, x2: int, y2: int)
    requires
        x % order() == x2 % order(),
        y % order() == y2 % order(),
    ensures
        f_sub(x, y) == (x2 - y2) % order(),
{
    vstd::arithmetic::div_mod::lemma_sub_mod_noop(x, y, order());
    vstd::arithmetic::div_mod::lemma_sub_mod_noop(x2, y2, order());
}

/// The sequence of the residues of `s`.
pub open spec fn reduce(s: Seq<int>) -> Seq<int> {
    Seq::new(s.len(), |k: int| s[k] % order())
}

/// Whether every entry of `s` is a canonical representative.
pub open spec fn all_canonical(s: Seq<int>) -> bool {
    forall|k: int| 0 <= k < s.len() ==> is_canonical(#[trigger] s[k])
}

/// Adding residues in the field gives the residue of the sum.
pub proof fn lemma_f_add_residues(x: int, y: int)
    ensures
        f_add(x % order(), y % order()) == (x + y) % order(),
{
    vstd::arithmetic::div_mod::lemma_add_mod_noop(x, y, order());
}

/// Subtracting residues in the field gives the residue of the difference.
pub proof fn lemma_f_sub_residues(x: int, y: int)
    ensures
        f_sub(x % order(), y % order()) == (x - y) % order(),
{
    vstd::arithmetic::div_mod::lemma_sub_mod_noop(x, y, order());
}

/// Multiplying residues in the field gives the residue of the product.
pub proof fn lemma_f_mul_residues(x: int, y: int)
    ensures
        f_mul(x % order(), y % order()) == (x * y) % order(),
{
    vstd::arithmetic::div_mod::lemma_mul_mod_noop(x, y, order());
}

/// Adds in the field.
///
/// Trusted: calls `BabyBear`'s `Add` between `from_canonical_u32` and
/// `as_canonical_u32`. The claim is that the result is the canonical
/// representative of the sum of the two represented elements.
#[verifier::external_body]
pub(crate) fn field_add(x: u32, y: u32) -> (sum: u32)
    requires
        x < FIELD_ORDER,
        y < FIELD_ORDER,
    ensures
        sum as int == f_add(x as int, y as int),
{
    (BabyBear::from_canonical_u32(x) + BabyBear::from_canonical_u32(y)).as_canonical_u32()
}

/// Subtracts in the field.
///
/// Trusted: calls `BabyBear`'s `Sub` between `from_canonical_u32` and
/// `as_canonical_u32`. The claim is that the result is the canonical
/// representative of the difference of the two represented elements.
#[verifier::external_body]
pub(crate) fn field_sub(x: u32, y: u32) -> (difference: u32)
    requires
        x < FIELD_ORDER,
        y < FIELD_ORDER,
    ensures
        difference as int == f_sub(x as int, y as int),
{
    (BabyBear::from_canonical_u32(x) - BabyBear::from_canonical_u32(y)).as_canonical_u32()
}

/// Multiplies in the field.
///
/// Trusted: calls `BabyBear`'s `Mul` between `from_canonical_u32` and
/// `as_canonical_u32`. The claim is that the result is the canonical
/// representative of the product of the two represented elements.
#[verifier::external_body]
pub(crate) fn field_mul(x: u32, y: u32) -> (product: u32)
    requires
        x < FIELD_ORDER,
        y < FIELD_ORDER,
    ensures
        product as int == f_mul(x as int, y as int),
{
    (BabyBear::from_canonical_u32(x) * BabyBear::from_canonical_u32(y)).as_canonical_u32()
}

/// Inverts a nonzero field element.
///
/// Trusted: calls `Field::inverse` on a `BabyBear`, which panics on zero and
/// otherwise returns the multiplicative inverse. The claim is that the result
/// is canonical and that its product with `x` is one.
#[verifier::external_body]
pub(crate) fn field_inverse(x: u32) -> (inverse: u32)
    requires
        0 < x < FIELD_ORDER,
    ensures
        inverse < FIELD_ORDER,
        f_mul(x as int, inverse as int) == 1,
{
    BabyBear::from_canonical_u32(x).inverse().as_canonical_u32()
}

} // verus!
