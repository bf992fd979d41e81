//! What a row of a field operation holds, as mathematics on integers.

use crate::field::{order, reduce};
use crate::params::{is_limbs_of, limb_bound, limbs_of};
use crate::poly::{
    coeff, conv, eval_at, ip_add, ip_mul, ip_sub, lemma_eval_add, lemma_eval_mul, lemma_eval_sub,
};
use crate::witness::{centered, centered_seq};
use vstd::arithmetic::div_mod::*;
use vstd::arithmetic::power::*;
use vstd::prelude::*;

verus! {

/// The largest absolute value of a coefficient of a vanishing polynomial:
/// `32 * 255 * 255 + 255`.
pub open spec fn vanishing_bound() -> int {
    2081055
}

/// The limbs of a number that 32 limbs can write are bytes that write it.
pub proof fn lemma_limbs_of(x: nat)
    requires
        x < limb_bound(),
    ensures
        is_limbs_of(limbs_of(x), x),
{
    let limbs = limbs_of(x);
    assert forall|k: int| 0 <= k < 32 implies 0 <= #[trigger] limbs[k] < 256 by {}
    lemma_limbs_prefix(x, 32);
    assert(limbs.take(32) =~= limbs);
    lemma_small_mod(x, limb_bound() as nat);
}

/// The first `n` limbs of `x` write `x` modulo `256^n`.
proof fn lemma_limbs_prefix(x: nat, n: int)
    requires
        0 <= n <= 32,
    ensures
        eval_at(limbs_of(x).take(n), 256) == x as int % pow(256, n as nat),
    decreases n,
{
    reveal(pow);
    let limbs = limbs_of(x);
    if n == 0 {
        assert(limbs.take(0).len() == 0);
    } else {
        let upto = limbs.take(n);
        assert(upto.drop_last() =~= limbs.take(n - 1));
        lemma_limbs_prefix(x, n - 1);
        let w = pow(256, (n - 1) as nat);
        lemma_pow_positive(256, (n - 1) as nat);
        assert(upto.last() == (x as int / w) % 256);
        lemma_breakdown(x as int, w, 256);
        assert(pow(256, n as nat) == 256 * w);
        assert(w * 256 == 256 * w);
        assert(upto.last() * w == w * ((x as int / w) % 256)) by (nonlinear_arith)
            requires
                upto.last() == (x as int / w) % 256,
        ;
    }
}

/// A part of a product coefficient of two byte polynomials lies between
/// zero and `n * 255 * 255`.
pub proof fn lemma_conv_bounds(a: Seq<int>, b: Seq<int>, n: int, k: int)
    requires
        forall|i: int| 0 <= i < a.len() ==> 0 <= #[trigger] a[i] < 256,
        forall|i: int| 0 <= i < b.len() ==> 0 <= #[trigger] b[i] < 256,
        0 <= n <= a.len(),
    ensures
        0 <= conv(a, b, n, k) <= n * 65025,
    decreases n,
{
    if n > 0 {
        lemma_conv_bounds(a, b, n - 1, k);
        let x = a[n - 1];
        let y = coeff(b, k - (n - 1));
        assert(0 <= y < 256);
        assert(0 <= x * y <= 65025) by (nonlinear_arith)
            requires
                0 <= x < 256,
                0 <= y < 256,
        ;
    }
}

/// `x + y` or `x * y`.
pub open spec fn combine(x: Seq<int>, y: Seq<int>, product: bool) -> Seq<int> {
    if product {
        ip_mul(x, y)
    } else {
        ip_add(x, y)
    }
}

/// The polynomial `x (+ or *) b - r - c * m`.
pub open spec fn vanishing(
    x: Seq<int>,
    b: Seq<int>,
    r: Seq<int>,
    c: Seq<int>,
    m: Seq<int>,
    product: bool,
) -> Seq<int> {
    ip_sub(ip_sub(combine(x, b, product), r), ip_mul(c, m))
}

/// Whether `s` holds 32 bytes.
pub open spec fn is_byte_limbs(s: Seq<int>) -> bool {
    &&& s.len() == 32
    &&& forall|k: int| 0 <= k < 32 ==> 0 <= #[trigger] s[k] < 256
}

/// A polynomial `x (+ or *) b - r - c * m` of byte limbs has 63
/// coefficients, each at most `vanishing_bound()` in absolute value.
pub proof fn lemma_vanishing_bounds(
    x: Seq<int>,
    b: Seq<int>,
    r: Seq<int>,
    c: Seq<int>,
    m: Seq<int>,
    product: bool,
)
    requires
        is_byte_limbs(x),
        is_byte_limbs(b),
        is_byte_limbs(r),
        is_byte_limbs(c),
        is_byte_limbs(m),
    ensures
        vanishing(x, b, r, c, m, product).len() == 63,
        forall|k: int|
            0 <= k < 63 ==> -vanishing_bound() <= #[trigger] vanishing(x, b, r, c, m, product)[k]
                <= vanishing_bound(),
{
    let v = vanishing(x, b, r, c, m, product);
    let top = combine(x, b, product);
    assert forall|k: int| 0 <= k < 63 implies -vanishing_bound() <= #[trigger] v[k]
        <= vanishing_bound() by {
        lemma_conv_bounds(c, m, 32, k);
        lemma_conv_bounds(x, b, 32, k);
        assert(coeff(ip_mul(c, m), k) == conv(c, m, 32, k));
        assert(0 <= coeff(r, k) < 256);
        if product {
            assert(coeff(top, k) == conv(x, b, 32, k));
        } else {
            assert(0 <= coeff(x, k) < 256);
            assert(0 <= coeff(b, k) < 256);
            assert(0 <= coeff(top, k) <= 510);
        }
        assert(coeff(ip_sub(top, r), k) == coeff(top, k) - coeff(r, k));
    }
}

/// The value at 256 of `x (+ or *) b - r - c * m` is what the numbers that
/// the limbs write give.
pub proof fn lemma_vanishing_value(
    x: Seq<int>,
    b: Seq<int>,
    r: Seq<int>,
    c: Seq<int>,
    m: Seq<int>,
    product: bool,
)
    requires
        is_byte_limbs(x),
        is_byte_limbs(b),
        is_byte_limbs(r),
        is_byte_limbs(c),
        is_byte_limbs(m),
    ensures
        eval_at(vanishing(x, b, r, c, m, product), 256) == (if product {
            eval_at(x, 256) * eval_at(b, 256)
        } else {
            eval_at(x, 256) + eval_at(b, 256)
        }) - eval_at(r, 256) - eval_at(c, 256) * eval_at(m, 256),
{
    let top = combine(x, b, product);
    if product {
        lemma_eval_mul(x, b, 256);
    } else {
        lemma_eval_add(x, b, 256);
    }
    lemma_eval_sub(top, r, 256);
    lemma_eval_mul(c, m, 256);
    lemma_eval_sub(ip_sub(top, r), ip_mul(c, m), 256);
}

/// Reducing both terms before a subtraction does not change the reduced
/// difference.
pub proof fn lemma_reduce_sub(x: Seq<int>, y: Seq<int>)
    ensures
        reduce(ip_sub(reduce(x), reduce(y))) == reduce(ip_sub(x, y)),
{
    let l = reduce(ip_sub(reduce(x), reduce(y)));
    let r = reduce(ip_sub(x, y));
    assert forall|k: int| 0 <= k < l.len() implies l[k] == r[k] by {
        lemma_sub_mod_noop(coeff(x, k), coeff(y, k), order());
        assert(coeff(reduce(x), k) == coeff(x, k) % order());
        assert(coeff(reduce(y), k) == coeff(y, k) % order());
    }
    assert(l =~= r);
}

/// Canonical representatives are their own residues.
pub proof fn lemma_reduce_canonical(s: Seq<int>)
    requires
        forall|k: int| 0 <= k < s.len() ==> 0 <= #[trigger] s[k] < order(),
    ensures
        reduce(s) == s,
{
    assert(reduce(s) =~= s);
}

/// Integers of small absolute value are the centered representatives of
/// their residues.
pub proof fn lemma_centered_reduce(s: Seq<int>, bound: int)
    requires
        2 * bound < order(),
        forall|k: int| 0 <= k < s.len() ==> -bound <= #[trigger] s[k] <= bound,
    ensures
        centered_seq(reduce(s)) == s,
{
    let c = centered_seq(reduce(s));
    assert forall|k: int| 0 <= k < s.len() implies c[k] == s[k] by {
        let p = order();
        let x = s[k];
        assert(-bound <= x <= bound);
        if x >= 0 {
            lemma_small_mod(x as nat, p as nat);
        } else {
            lemma_mod_add_multiples_vanish(x, p);
            lemma_small_mod((x + p) as nat, p as nat);
        }
    }
    assert(c =~= s);
}

} // verus!
