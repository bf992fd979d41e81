//! The witness of a vanishing polynomial: its quotient by `x - root`,
//! shifted into the non-negative range and split into bytes.

use crate::field::{
    f_mul, field_add, field_inverse, field_mul, field_sub, is_canonical, lemma_f_add_residues,
    lemma_f_sub_residues, order, FIELD_ORDER,
};
use crate::poly::eval_at;
use crate::polynomial::Polynomial;
use vstd::arithmetic::power::*;
use vstd::prelude::*;

verus! {

/// The integer of least absolute value that the canonical representative
/// `x` stands for.
pub open spec fn centered(x: int) -> int {
    if 2 * x < order() {
        x
    } else {
        x - order()
    }
}

/// The integers of least absolute value behind field coefficients.
pub open spec fn centered_seq(s: Seq<int>) -> Seq<int> {
    Seq::new(s.len(), |k: int| centered(s[k]))
}

/// Coefficient `i` of the quotient of `v` by `x - root`, by Horner's rule
/// from the leading coefficient down.
pub open spec fn quotient_coeff(v: Seq<int>, root: int, i: int) -> int
    decreases v.len() - i,
{
    if i + 1 >= v.len() || i < -1 {
        0
    } else {
        v[i + 1] + root * quotient_coeff(v, root, i + 1)
    }
}

/// The quotient of `v` by `x - root`; the remainder is `eval_at(v, root)`.
pub open spec fn quotient(v: Seq<int>, root: int) -> Seq<int> {
    Seq::new((v.len() - 1) as nat, |i: int| quotient_coeff(v, root, i))
}

/// The value of `v` at `root`, split at coefficient `i`: the part below,
/// and the quotient coefficient times the power of the root.
pub proof fn lemma_eval_split(v: Seq<int>, root: int, i: int)
    requires
        -1 <= i < v.len(),
    ensures
        eval_at(v, root) == eval_at(v.take(i + 1), root) + pow(root, (i + 1) as nat)
            * quotient_coeff(v, root, i),
    decreases v.len() - i,
{
    if i + 1 == v.len() {
        assert(v.take(i + 1) =~= v);
        assert(pow(root, (i + 1) as nat) * 0 == 0);
    } else {
        lemma_eval_split(v, root, i + 1);
        let upto = v.take(i + 2);
        assert(upto.drop_last() =~= v.take(i + 1));
        assert(upto.last() == v[i + 1]);
        let w = pow(root, (i + 1) as nat);
        let q = quotient_coeff(v, root, i + 1);
        assert(pow(root, (i + 2) as nat) == root * w) by {
            reveal(pow);
        }
        assert(eval_at(upto, root) == eval_at(v.take(i + 1), root) + v[i + 1] * w);
        assert(w * (v[i + 1] + root * q) == v[i + 1] * w + (root * w) * q) by (nonlinear_arith);
    }
}

/// Where `v` vanishes at `root`, the quotient times `x - root` gives `v`
/// back, coefficient by coefficient.
pub proof fn lemma_quotient_identity(v: Seq<int>, root: int, i: int)
    requires
        eval_at(v, root) == 0,
        0 <= i < v.len(),
    ensures
        v[i] == quotient_coeff(v, root, i - 1) - root * quotient_coeff(v, root, i),
        quotient_coeff(v, root, -1) == 0,
{
    lemma_eval_split(v, root, -1);
    assert(v.take(0).len() == 0);
    assert(pow(root, 0) == 1) by {
        reveal(pow);
    }
    if i == 0 {
        assert(quotient_coeff(v, root, -1) == v[0] + root * quotient_coeff(v, root, 0));
    }
}

/// Where the coefficients of a vanishing `v` are at most `bound` in absolute
/// value, those of its quotient are at most `limit`, for any `limit` with
/// `limit * (root - 1) >= bound`.
pub proof fn lemma_quotient_bound(v: Seq<int>, root: int, bound: int, limit: int, i: int)
    requires
        eval_at(v, root) == 0,
        root >= 2,
        limit >= 0,
        limit * (root - 1) >= bound,
        forall|k: int| 0 <= k < v.len() ==> -bound <= #[trigger] v[k] <= bound,
        -1 <= i,
    ensures
        -limit <= quotient_coeff(v, root, i) <= limit,
    decreases i + 1,
{
    let q = quotient_coeff(v, root, i);
    if i + 1 >= v.len() {
    } else if i == -1 {
        lemma_eval_split(v, root, -1);
        assert(v.take(0).len() == 0);
        assert(pow(root, 0) == 1) by {
            reveal(pow);
        }
    } else {
        lemma_quotient_identity(v, root, i);
        lemma_quotient_bound(v, root, bound, limit, i - 1);
        let before = quotient_coeff(v, root, i - 1);
        assert(root * q == before - v[i]);
        assert(-limit <= q <= limit) by (nonlinear_arith)
            requires
                root * q == before - v[i],
                -limit <= before <= limit,
                -bound <= v[i] <= bound,
                limit * (root - 1) >= bound,
                root >= 2,
                limit >= 0,
        ;
    }
}

/// A canonical representative is the residue of the integer it stands for.
pub proof fn lemma_centered_residue(x: int)
    requires
        is_canonical(x),
    ensures
        centered(x) % order() == x,
{
}

/// Multiplying by the inverse of the root undoes a multiplication by the
/// root.
proof fn lemma_cancel_root(root: int, inverse: int, q: int)
    requires
        f_mul(root, inverse) == 1,
    ensures
        f_mul((root * q) % order(), inverse) == q % order(),
{
    let p = order();
    vstd::arithmetic::div_mod::lemma_mul_mod_noop_left(root * q, inverse, p);
    assert((root * q) * inverse == q * (root * inverse)) by (nonlinear_arith);
    vstd::arithmetic::div_mod::lemma_mul_mod_noop_right(q, root * inverse, p);
    assert(q * 1 == q);
}

/// `2^bits` for an exponent that keeps it below the field's order.
fn power_of_two(bits: u32) -> (power: u32)
    requires
        bits <= 30,
    ensures
        power as int == pow(2, bits as nat),
        0 < power < FIELD_ORDER,
{
    let mut power: u32 = 1;
    proof {
        reveal(pow);
        assert(pow(2, 0) == 1);
        lemma_pow_increases(2, 0, 30);
        vstd::arithmetic::power2::lemma2_to64();
        vstd::arithmetic::power2::lemma_pow2(30);
    }
    for i in 0..bits
        invariant
            bits <= 30,
            power as int == pow(2, i as nat),
            0 < power,
            pow(2, 30) == 0x4000_0000,
    {
        proof {
            lemma_pow_increases(2, (i + 1) as nat, 30);
            assert(pow(2, (i + 1) as nat) == 2 * pow(2, i as nat)) by {
                reveal(pow);
            }
        }
        power = power * 2;
    }
    proof {
        lemma_pow_increases(2, bits as nat, 30);
    }
    power
}

/// Divides a polynomial that vanishes at `2^nb_bits_per_limb` by the linear
/// factor of that root, and adds `offset` to each coefficient of the
/// quotient. The coefficients of `p_vanishing` stand for the integers of
/// least absolute value; the quotient is taken over the integers.
pub fn compute_root_quotient_and_shift(
    p_vanishing: &Polynomial,
    offset: usize,
    nb_bits_per_limb: u32,
) -> (witness: Vec<u32>)
    requires
        p_vanishing.wf(),
        p_vanishing@.len() >= 2,
        nb_bits_per_limb <= 30,
        offset < FIELD_ORDER,
        eval_at(centered_seq(p_vanishing@), pow(2, nb_bits_per_limb as nat)) == 0,
    ensures
        witness@.len() == p_vanishing@.len() - 1,
        forall|i: int|
            0 <= i < witness@.len() ==> (#[trigger] witness@[i]) as int == (quotient_coeff(
                centered_seq(p_vanishing@),
                pow(2, nb_bits_per_limb as nat),
                i,
            ) + offset) % order(),
{
    let root = power_of_two(nb_bits_per_limb);
    let r_inv = field_inverse(root);
    let len = p_vanishing.coefficients.len();
    let ghost v = centered_seq(p_vanishing@);
    let ghost r = root as int;

    let mut result: Vec<u32> = Vec::new();
    proof {
        lemma_quotient_identity(v, r, 0);
        assert(is_canonical(p_vanishing@[0]));
        lemma_centered_residue(p_vanishing@[0]);
        lemma_f_sub_residues(0, v[0]);
        assert((0 - v[0]) == r * quotient_coeff(v, r, 0));
        lemma_cancel_root(r, r_inv as int, quotient_coeff(v, r, 0));
    }
    let first = field_sub(0, p_vanishing.coefficients[0]);
    result.push(field_mul(first, r_inv));
    for i in 1..len - 1
        invariant
            p_vanishing.wf(),
            len == p_vanishing@.len(),
            len >= 2,
            v == centered_seq(p_vanishing@),
            r == root as int,
            r_inv < FIELD_ORDER,
            f_mul(r, r_inv as int) == 1,
            eval_at(v, r) == 0,
            result@.len() == i,
            forall|k: int|
                0 <= k < i ==> (#[trigger] result@[k]) as int == quotient_coeff(v, r, k) % order(),
    {
        proof {
            lemma_quotient_identity(v, r, i as int);
            assert(is_canonical(p_vanishing@[i as int]));
            lemma_centered_residue(p_vanishing@[i as int]);
            lemma_f_sub_residues(quotient_coeff(v, r, i - 1), v[i as int]);
            assert(quotient_coeff(v, r, i - 1) - v[i as int] == r * quotient_coeff(v, r, i as int));
            lemma_cancel_root(r, r_inv as int, quotient_coeff(v, r, i as int));
        }
        let element = field_sub(result[i - 1], p_vanishing.coefficients[i]);
        result.push(field_mul(element, r_inv));
    }

    let shift = offset as u32;
    let mut witness: Vec<u32> = Vec::new();
    for i in 0..result.len()
        invariant
            shift == offset,
            shift < FIELD_ORDER,
            result@.len() == len - 1,
            witness@.len() == i,
            forall|k: int|
                0 <= k < result@.len() ==> (#[trigger] result@[k]) as int == quotient_coeff(
                    v,
                    r,
                    k,
                ) % order(),
            forall|k: int|
                0 <= k < i ==> (#[trigger] witness@[k]) as int == (quotient_coeff(v, r, k)
                    + offset) % order(),
    {
        proof {
            assert(result@[i as int] as int == quotient_coeff(v, r, i as int) % order());
            lemma_f_add_residues(quotient_coeff(v, r, i as int), offset as int);
        }
        witness.push(field_add(result[i], shift));
    }
    witness
}

/// Splits each limb into its low byte and the byte above it.
pub fn split_u16_limbs_to_u8_limbs(limbs: &Vec<u32>) -> (halves: (Vec<u32>, Vec<u32>))
    ensures
        halves.0@.len() == limbs@.len(),
        halves.1@.len() == limbs@.len(),
        forall|i: int|
            0 <= i < limbs@.len() ==> (#[trigger] halves.0@[i]) as int == limbs@[i] as int % 256,
        forall|i: int|
            0 <= i < limbs@.len() ==> (#[trigger] halves.1@[i]) as int == (limbs@[i] as int / 256)
                % 256,
{
    let mut low: Vec<u32> = Vec::new();
    let mut high: Vec<u32> = Vec::new();
    for i in 0..limbs.len()
        invariant
            low@.len() == i,
            high@.len() == i,
            forall|k: int| 0 <= k < i ==> (#[trigger] low@[k]) as int == limbs@[k] as int % 256,
            forall|k: int|
                0 <= k < i ==> (#[trigger] high@[k]) as int == (limbs@[k] as int / 256) % 256,
    {
        low.push(limbs[i] % 256);
        high.push((limbs[i] / 256) % 256);
    }
    (low, high)
}

} // verus!
