//! Polynomials with integer coefficients, as sequences that start with the
//! constant term: the mathematics that the limb arithmetic rests on.

use vstd::arithmetic::mul::*;
use vstd::arithmetic::power::*;
use vstd::prelude::*;

verus! {

/// Coefficient `k` of `s`; zero beyond its length.
pub open spec fn coeff(s: Seq<int>, k: int) -> int {
    if 0 <= k < s.len() {
        s[k]
    } else {
        0
    }
}

/// The value of the polynomial `s` at `x`.
pub open spec fn eval_at(s: Seq<int>, x: int) -> int
    decreases s.len(),
{
    if s.len() == 0 {
        0
    } else {
        eval_at(s.drop_last(), x) + s.last() * pow(x, (s.len() - 1) as nat)
    }
}

/// The longer of two lengths.
pub open spec fn longer(m: nat, n: nat) -> nat {
    if m >= n {
        m
    } else {
        n
    }
}

/// The sum of two polynomials.
pub open spec fn ip_add(a: Seq<int>, b: Seq<int>) -> Seq<int> {
    Seq::new(longer(a.len(), b.len()), |k: int| coeff(a, k) + coeff(b, k))
}

/// The difference of two polynomials.
pub open spec fn ip_sub(a: Seq<int>, b: Seq<int>) -> Seq<int> {
    Seq::new(longer(a.len(), b.len()), |k: int| coeff(a, k) - coeff(b, k))
}

/// The part of coefficient `k` of `a * b` that the first `n` coefficients
/// of `a` contribute.
pub open spec fn conv(a: Seq<int>, b: Seq<int>, n: int, k: int) -> int
    decreases n,
{
    if n <= 0 {
        0
    } else {
        conv(a, b, n - 1, k) + a[n - 1] * coeff(b, k - (n - 1))
    }
}

/// The length of a product.
pub open spec fn product_len(a: Seq<int>, b: Seq<int>) -> nat {
    if a.len() == 0 || b.len() == 0 {
        0
    } else {
        (a.len() + b.len() - 1) as nat
    }
}

/// The product of two polynomials.
pub open spec fn ip_mul(a: Seq<int>, b: Seq<int>) -> Seq<int> {
    Seq::new(product_len(a, b), |k: int| conv(a, b, a.len() as int, k))
}

/// `s` followed by zeros up to the length `n`.
pub open spec fn padded(s: Seq<int>, n: nat) -> Seq<int> {
    Seq::new(longer(s.len(), n), |k: int| coeff(s, k))
}

/// Zeros at the end do not change the value.
pub proof fn lemma_eval_padded(s: Seq<int>, n: nat, x: int)
    ensures
        eval_at(padded(s, n), x) == eval_at(s, x),
    decreases n,
{
    if n <= s.len() {
        assert(padded(s, n) =~= s);
    } else {
        let p = padded(s, n);
        assert(p.drop_last() =~= padded(s, (n - 1) as nat));
        lemma_eval_padded(s, (n - 1) as nat, x);
        assert(p.last() == 0);
        assert(0 * pow(x, (p.len() - 1) as nat) == 0);
    }
}

/// The value of a sum of two polynomials of one length.
proof fn lemma_eval_add_same_len(a: Seq<int>, b: Seq<int>, x: int)
    requires
        a.len() == b.len(),
    ensures
        eval_at(ip_add(a, b), x) == eval_at(a, x) + eval_at(b, x),
    decreases a.len(),
{
    let s = ip_add(a, b);
    if a.len() > 0 {
        assert(s.drop_last() =~= ip_add(a.drop_last(), b.drop_last()));
        lemma_eval_add_same_len(a.drop_last(), b.drop_last(), x);
        let w = pow(x, (a.len() - 1) as nat);
        assert(s.last() == a.last() + b.last());
        lemma_mul_is_distributive_add_other_way(w, a.last(), b.last());
    }
}

/// The value of a difference of two polynomials of one length.
proof fn lemma_eval_sub_same_len(a: Seq<int>, b: Seq<int>, x: int)
    requires
        a.len() == b.len(),
    ensures
        eval_at(ip_sub(a, b), x) == eval_at(a, x) - eval_at(b, x),
    decreases a.len(),
{
    let s = ip_sub(a, b);
    if a.len() > 0 {
        assert(s.drop_last() =~= ip_sub(a.drop_last(), b.drop_last()));
        lemma_eval_sub_same_len(a.drop_last(), b.drop_last(), x);
        let w = pow(x, (a.len() - 1) as nat);
        assert(s.last() == a.last() - b.last());
        lemma_mul_is_distributive_sub_other_way(w, a.last(), b.last());
    }
}

/// The value of a sum is the sum of the values.
pub proof fn lemma_eval_add(a: Seq<int>, b: Seq<int>, x: int)
    ensures
        eval_at(ip_add(a, b), x) == eval_at(a, x) + eval_at(b, x),
{
    let n = longer(a.len(), b.len());
    lemma_eval_padded(a, n, x);
    lemma_eval_padded(b, n, x);
    assert(ip_add(a, b) =~= ip_add(padded(a, n), padded(b, n)));
    lemma_eval_add_same_len(padded(a, n), padded(b, n), x);
}

/// The value of a difference is the difference of the values.
pub proof fn lemma_eval_sub(a: Seq<int>, b: Seq<int>, x: int)
    ensures
        eval_at(ip_sub(a, b), x) == eval_at(a, x) - eval_at(b, x),
{
    let n = longer(a.len(), b.len());
    lemma_eval_padded(a, n, x);
    lemma_eval_padded(b, n, x);
    assert(ip_sub(a, b) =~= ip_sub(padded(a, n), padded(b, n)));
    lemma_eval_sub_same_len(padded(a, n), padded(b, n), x);
}

/// The polynomial `c * x^shift * b`, cut or padded to the length `n`.
pub open spec fn shifted(b: Seq<int>, c: int, shift: int, n: nat) -> Seq<int> {
    Seq::new(n, |k: int| c * coeff(b, k - shift))
}

/// How many coefficients of `b` a window of length `n` that starts at
/// `shift` covers.
pub open spec fn covered(b: Seq<int>, shift: int, n: nat) -> int {
    if n <= shift {
        0
    } else if n - shift >= b.len() {
        b.len() as int
    } else {
        n - shift
    }
}

/// The value of a shifted multiple of `b`.
proof fn lemma_eval_shifted(b: Seq<int>, c: int, shift: int, n: nat, x: int)
    requires
        shift >= 0,
    ensures
        eval_at(shifted(b, c, shift, n), x) == c * pow(x, shift as nat) * eval_at(
            b.take(covered(b, shift, n)),
            x,
        ),
    decreases n,
{
    let s = shifted(b, c, shift, n);
    let w = pow(x, shift as nat);
    if n == 0 {
        assert(b.take(0).len() == 0);
        assert(c * w * 0 == 0);
    } else {
        let m = (n - 1) as nat;
        assert(s.drop_last() =~= shifted(b, c, shift, m));
        lemma_eval_shifted(b, c, shift, m, x);
        let k = n - 1;
        if k < shift || k - shift >= b.len() {
            assert(coeff(b, k - shift) == 0);
            assert(c * 0 == 0);
            assert(s.last() == 0);
            assert(0 * pow(x, m) == 0);
            assert(covered(b, shift, n) == covered(b, shift, m));
        } else {
            let i = k - shift;
            let head = b.take(i);
            let upto = b.take(i + 1);
            assert(covered(b, shift, m) == i);
            assert(covered(b, shift, n) == i + 1);
            assert(upto.drop_last() =~= head);
            assert(upto.last() == b[i]);
            assert(eval_at(upto, x) == eval_at(head, x) + b[i] * pow(x, i as nat));
            lemma_pow_adds(x, shift as nat, i as nat);
            assert(pow(x, m) == w * pow(x, i as nat));
            assert(s.last() == c * b[i]);
            let e = eval_at(head, x);
            let t = pow(x, i as nat);
            assert(c * w * (e + b[i] * t) == c * w * e + (c * b[i]) * (w * t)) by (nonlinear_arith);
        }
    }
}

/// The partial products of `a * b`: what the first `n` coefficients of `a`
/// contribute to each coefficient.
pub open spec fn partial_product(a: Seq<int>, b: Seq<int>, n: int) -> Seq<int> {
    Seq::new(product_len(a, b), |k: int| conv(a, b, n, k))
}

/// The value of a partial product.
proof fn lemma_eval_partial_product(a: Seq<int>, b: Seq<int>, n: int, x: int)
    requires
        0 <= n <= a.len(),
        b.len() > 0,
    ensures
        eval_at(partial_product(a, b, n), x) == eval_at(a.take(n), x) * eval_at(b, x),
    decreases n,
{
    let len = product_len(a, b);
    let s = partial_product(a, b, n);
    if n == 0 {
        assert(s =~= shifted(b, 0, 0, len));
        lemma_eval_shifted(b, 0, 0, len, x);
        assert(a.take(0).len() == 0);
        assert(0 * pow(x, 0) * eval_at(b.take(covered(b, 0, len)), x) == 0) by (nonlinear_arith);
        assert(0 * eval_at(b, x) == 0);
    } else {
        let i = n - 1;
        let before = partial_product(a, b, i);
        let term = shifted(b, a[i], i, len);
        lemma_eval_partial_product(a, b, i, x);
        lemma_eval_shifted(b, a[i], i, len, x);
        assert(covered(b, i, len) == b.len());
        assert(b.take(b.len() as int) =~= b);
        assert(s =~= ip_add(before, term));
        lemma_eval_add_same_len(before, term, x);
        let head = a.take(i);
        let upto = a.take(n);
        assert(upto.drop_last() =~= head);
        assert(upto.last() == a[i]);
        let ea = eval_at(head, x);
        let eb = eval_at(b, x);
        let w = pow(x, i as nat);
        assert(eval_at(upto, x) == ea + a[i] * w);
        assert((ea + a[i] * w) * eb == ea * eb + a[i] * w * eb) by (nonlinear_arith);
    }
}

/// The value of a product is the product of the values.
pub proof fn lemma_eval_mul(a: Seq<int>, b: Seq<int>, x: int)
    requires
        a.len() > 0,
        b.len() > 0,
    ensures
        eval_at(ip_mul(a, b), x) == eval_at(a, x) * eval_at(b, x),
{
    lemma_eval_partial_product(a, b, a.len() as int, x);
    assert(a.take(a.len() as int) =~= a);
    assert(ip_mul(a, b) =~= partial_product(a, b, a.len() as int));
}

} // verus!
