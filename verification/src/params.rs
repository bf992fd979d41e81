//! The parameters of the emulated field, and numbers as limbs.

use crate::bignat::{
    bytes_as_ints, le_value, lemma_le_value_bounds, lemma_le_value_push_zero, lemma_le_value_take,
    BigNat,
};
use crate::poly::eval_at;
use crate::witness::{lemma_eval_split, quotient_coeff};
use vstd::arithmetic::power::*;
use vstd::prelude::*;

verus! {

/// Number of limbs of a number of the emulated field.
pub const NUM_LIMBS: usize = 32;

/// Number of limbs of a witness: the degree of the vanishing polynomial.
pub const NUM_WITNESS_LIMBS: usize = 62;

/// Number of bits of a limb.
pub const NB_BITS_PER_LIMB: u32 = 8;

/// The largest absolute value that a coefficient of a witness quotient
/// takes: a vanishing coefficient is at most `32 * 255 * 255 + 255` in
/// absolute value, which is 255 times this number.
pub const MAX_QUOTIENT: usize = 8161;

/// The limbs of a number of the emulated field, least significant first.
#[derive(Clone, Copy, Debug)]
pub struct Limbs<T>(pub [T; 32]);

/// The first number that 32 limbs cannot write: `256^32`.
pub open spec fn limb_bound() -> int {
    pow(256, 32)
}

/// The 32 limbs of `x`.
pub open spec fn limbs_of(x: nat) -> Seq<int> {
    Seq::new(32, |i: int| (x as int / pow(256, i as nat)) % 256)
}

/// Whether `limbs` are 32 bytes that write `x`.
pub open spec fn is_limbs_of(limbs: Seq<int>, x: nat) -> bool {
    &&& limbs.len() == 32
    &&& forall|k: int| 0 <= k < 32 ==> 0 <= #[trigger] limbs[k] < 256
    &&& eval_at(limbs, 256) == x
}

/// The value of limbs below position `n` is below `256^n`.
proof fn lemma_limbs_low_part(limbs: Seq<int>, n: int)
    requires
        forall|k: int| 0 <= k < limbs.len() ==> 0 <= #[trigger] limbs[k] < 256,
        0 <= n <= limbs.len(),
    ensures
        0 <= eval_at(limbs.take(n), 256) < pow(256, n as nat),
    decreases n,
{
    reveal(pow);
    if n > 0 {
        let upto = limbs.take(n);
        assert(upto.drop_last() =~= limbs.take(n - 1));
        lemma_limbs_low_part(limbs, n - 1);
        let w = pow(256, (n - 1) as nat);
        lemma_pow_positive(256, (n - 1) as nat);
        assert(upto.last() == limbs[n - 1]);
        assert(0 <= upto.last() * w <= 255 * w) by (nonlinear_arith)
            requires
                0 <= upto.last() <= 255,
                w > 0,
        ;
    } else {
        assert(limbs.take(0).len() == 0);
    }
}

/// The part of a number above limb `i`, as Horner's rule gives it, is not
/// negative.
proof fn lemma_limbs_high_part(limbs: Seq<int>, i: int)
    requires
        forall|k: int| 0 <= k < limbs.len() ==> 0 <= #[trigger] limbs[k] < 256,
        -1 <= i,
    ensures
        0 <= quotient_coeff(limbs, 256, i),
    decreases limbs.len() - i,
{
    if i + 1 < limbs.len() {
        lemma_limbs_high_part(limbs, i + 1);
    }
}

/// Only one list of 32 bytes writes a given number.
pub proof fn lemma_limbs_unique(limbs: Seq<int>, x: nat)
    requires
        is_limbs_of(limbs, x),
    ensures
        limbs == limbs_of(x),
        x < limb_bound(),
{
    assert forall|i: int| 0 <= i < 32 implies limbs[i] == limbs_of(x)[i] by {
        let w = pow(256, i as nat);
        let low = eval_at(limbs.take(i), 256);
        let high = quotient_coeff(limbs, 256, i);
        lemma_eval_split(limbs, 256, i - 1);
        lemma_limbs_low_part(limbs, i);
        lemma_limbs_high_part(limbs, i);
        lemma_pow_positive(256, i as nat);
        assert(quotient_coeff(limbs, 256, i - 1) == limbs[i] + 256 * high);
        let top = limbs[i] + 256 * high;
        assert(x as int == low + w * top);
        assert(w * top == top * w) by (nonlinear_arith);
        vstd::arithmetic::div_mod::lemma_fundamental_div_mod_converse(x as int, w, top, low);
        assert(x as int / w == top);
        assert(top % 256 == limbs[i]);
    }
    assert(limbs =~= limbs_of(x));
    lemma_limbs_low_part(limbs, 32);
    assert(limbs.take(32) =~= limbs);
}

/// The first 32 bytes of `x`, with zeros where it has fewer.
pub open spec fn limb_bytes(x: BigNat) -> Seq<u8> {
    Seq::new(
        32,
        |k: int|
            if k < x.bytes@.len() {
                x.bytes@[k]
            } else {
                0u8
            },
    )
}

/// The first `n` bytes, with zeros where there are fewer.
pub open spec fn fitted(bytes: Seq<u8>, n: nat) -> Seq<u8> {
    Seq::new(
        n,
        |k: int|
            if k < bytes.len() {
                bytes[k]
            } else {
                0u8
            },
    )
}

/// Zeros added at the end do not change the number.
proof fn lemma_fitted_longer(bytes: Seq<u8>, n: nat)
    requires
        n >= bytes.len(),
    ensures
        le_value(fitted(bytes, n)) == le_value(bytes),
    decreases n,
{
    if n == bytes.len() {
        assert(fitted(bytes, n) =~= bytes);
    } else {
        let shorter = fitted(bytes, (n - 1) as nat);
        lemma_fitted_longer(bytes, (n - 1) as nat);
        assert(fitted(bytes, n) =~= shorter.push(0));
        lemma_le_value_push_zero(shorter);
    }
}

/// The limb bytes of a number that 32 limbs can write are its limbs.
pub proof fn lemma_limb_bytes(x: BigNat)
    requires
        x@ < limb_bound(),
    ensures
        bytes_as_ints(limb_bytes(x)) == limbs_of(x@),
{
    let limbs = limb_bytes(x);
    assert(limbs =~= fitted(x.bytes@, 32));
    if x.bytes@.len() > 32 {
        lemma_le_value_take(x.bytes@, 32);
        assert(limbs =~= x.bytes@.take(32));
    } else {
        lemma_fitted_longer(x.bytes@, 32);
    }
    lemma_le_value_bounds(limbs);
    lemma_limbs_unique(bytes_as_ints(limbs), x@);
}

/// The emulated field and how its numbers are laid out.
pub struct FieldParameters {
    /// The modulus of the field, a prime.
    pub modulus: BigNat,
    /// What is added to each coefficient of a witness quotient so that none
    /// is negative.
    pub witness_offset: usize,
}

impl FieldParameters {
    /// Whether the modulus fits in the limbs and is not zero, and the
    /// offset keeps every shifted witness coefficient in `0..2^16`.
    pub open spec fn wf(&self) -> bool {
        &&& 0 < self.modulus@ < limb_bound()
        &&& MAX_QUOTIENT <= self.witness_offset
        &&& self.witness_offset + MAX_QUOTIENT < 0x1_0000
    }

    /// The parameters with the given modulus and offset, if they are well
    /// formed.
    pub fn new(modulus: BigNat, witness_offset: usize) -> (params: Option<FieldParameters>)
        ensures
            match params {
                Some(p) => p.wf() && p.modulus == modulus && p.witness_offset == witness_offset,
                None => !(FieldParameters { modulus, witness_offset }).wf(),
            },
    {
        let bound = limb_bound_number();
        if modulus.is_zero() || !modulus.is_less_than(&bound) {
            return None;
        }
        if witness_offset < MAX_QUOTIENT || witness_offset >= 0x1_0000 - MAX_QUOTIENT {
            return None;
        }
        Some(FieldParameters { modulus, witness_offset })
    }

    /// The modulus.
    pub fn modulus(&self) -> (m: BigNat)
        ensures
            m@ == self.modulus@,
            m.bytes@ == self.modulus.bytes@,
    {
        self.modulus.duplicate()
    }

    /// The limbs of `x`: its first 32 bytes, with zeros where it has fewer.
    /// They write `x` if 32 limbs can.
    pub fn to_limbs(x: &BigNat) -> (limbs: Vec<u8>)
        ensures
            limbs@ == limb_bytes(*x),
            x@ < limb_bound() ==> bytes_as_ints(limbs@) == limbs_of(x@),
    {
        let mut limbs: Vec<u8> = Vec::new();
        let available = if x.bytes.len() < NUM_LIMBS {
            x.bytes.len()
        } else {
            NUM_LIMBS
        };
        for i in 0..available
            invariant
                available <= x.bytes@.len(),
                available <= 32,
                limbs@ == x.bytes@.take(i as int),
        {
            limbs.push(x.bytes[i]);
            assert(limbs@ =~= x.bytes@.take(i + 1));
        }
        let ghost head = limbs@;
        for i in available..NUM_LIMBS
            invariant
                available <= 32,
                head == x.bytes@.take(available as int),
                limbs@.len() == i,
                limbs@.take(available as int) == head,
                forall|k: int| available <= k < i ==> limbs@[k] == 0,
        {
            limbs.push(0);
            assert(limbs@.take(available as int) =~= head);
        }
        proof {
            assert forall|k: int| 0 <= k < 32 implies #[trigger] limbs@[k] == limb_bytes(*x)[k] by {
                if k < available {
                    assert(limbs@[k] == limbs@.take(available as int)[k]);
                }
            }
            assert(limbs@ =~= limb_bytes(*x));
            if x@ < limb_bound() {
                lemma_limb_bytes(*x);
            }
        }
        limbs
    }
}

/// The first number that 32 limbs cannot write.
fn limb_bound_number() -> (bound: BigNat)
    ensures
        bound@ == limb_bound(),
{
    let mut bytes: Vec<u8> = Vec::new();
    for i in 0..NUM_LIMBS
        invariant
            bytes@.len() == i,
            le_value(bytes@) == 0,
    {
        proof {
            lemma_le_value_push_zero(bytes@);
        }
        bytes.push(0);
    }
    proof {
        let longer = bytes@.push(1);
        assert(bytes_as_ints(longer).drop_last() =~= bytes_as_ints(bytes@));
        lemma_le_value_bounds(bytes@);
        lemma_pow_positive(256, 32);
        assert(1 * pow(256, 32) == pow(256, 32));
        assert(bytes_as_ints(longer).last() == 1);
    }
    bytes.push(1);
    BigNat::from_bytes_le(bytes)
}

} // verus!
