//! Primes and Fermat's little theorem, on which division in a prime field
//! rests.

use vstd::arithmetic::div_mod::*;
use vstd::arithmetic::mul::*;
use vstd::arithmetic::power::*;
use vstd::prelude::*;

verus! {

/// Whether `p` is a prime number.
pub open spec fn is_prime(p: nat) -> bool {
    &&& p >= 2
    &&& forall|d: nat| 1 < d < p ==> #[trigger] (p % d) != 0
}

/// A prime that divides `k * y` with `0 < k < p` divides `y`.
proof fn lemma_euclid_below(p: nat, k: nat, y: int)
    requires
        is_prime(p),
        0 < k < p,
        (k * y) % (p as int) == 0,
    ensures
        y % (p as int) == 0,
    decreases k,
{
    let pi = p as int;
    if k == 1 {
        assert(1 * y == y);
    } else {
        let r = p % k;
        let ri = r as int;
        let qi = (p / k) as int;
        let ki = k as int;
        assert(r != 0);
        lemma_fundamental_div_mod(pi, ki);
        lemma_mod_bound(pi, ki);
        assert(pi == ki * qi + ri);
        let t = ki * y;
        assert(ri * y == pi * y - qi * t) by (nonlinear_arith)
            requires
                pi == ki * qi + ri,
                t == ki * y,
        ;
        assert((pi * y) % pi == 0) by {
            lemma_mul_is_commutative(pi, y);
            lemma_mod_multiples_basic(y, pi);
        }
        assert((qi * t) % pi == 0) by {
            lemma_mul_mod_noop_right(qi, t, pi);
            assert(qi * 0 == 0);
        }
        lemma_sub_mod_noop(pi * y, qi * t, pi);
        assert((pi * y - qi * t) % pi == 0);
        assert((ri * y) % pi == 0);
        lemma_euclid_below(p, r, y);
    }
}

/// Euclid's lemma: a prime that divides a product divides a factor.
pub proof fn lemma_euclid(p: nat, x: int, y: int)
    requires
        is_prime(p),
        (x * y) % (p as int) == 0,
        x % (p as int) != 0,
    ensures
        y % (p as int) == 0,
{
    let pi = p as int;
    let k = x % pi;
    lemma_mod_bound(x, pi);
    lemma_mul_mod_noop_left(x, y, pi);
    assert((k * y) % pi == 0);
    lemma_euclid_below(p, k as nat, y);
}

/// The number of ways to choose `k` of `n` things, by Pascal's rule.
pub open spec fn binomial(n: nat, k: nat) -> nat
    decreases n,
{
    if k == 0 {
        1
    } else if n == 0 {
        0
    } else {
        binomial((n - 1) as nat, (k - 1) as nat) + binomial((n - 1) as nat, k)
    }
}

/// There is no way to choose more than there is, and one way to choose all.
proof fn lemma_binomial_edge(n: nat, k: nat)
    ensures
        k > n ==> binomial(n, k) == 0,
        binomial(n, n) == 1,
    decreases n,
{
    if n > 0 {
        if k > 0 {
            lemma_binomial_edge((n - 1) as nat, (k - 1) as nat);
        }
        lemma_binomial_edge((n - 1) as nat, k);
        lemma_binomial_edge((n - 1) as nat, n);
        lemma_binomial_edge((n - 1) as nat, (n - 1) as nat);
    }
}

/// `k * binomial(n, k) == n * binomial(n - 1, k - 1)`.
proof fn lemma_binomial_absorb(n: nat, k: nat)
    requires
        n >= 1,
        k >= 1,
    ensures
        k * binomial(n, k) == n * binomial((n - 1) as nat, (k - 1) as nat),
    decreases n,
{
    let n1 = (n - 1) as nat;
    let k1 = (k - 1) as nat;
    if n == 1 {
        lemma_binomial_edge(0, k);
        lemma_binomial_edge(0, k1);
        if k == 1 {
            assert(binomial(1, 1) == 1);
        } else {
            assert(binomial(0, k1) == 0);
            assert(binomial(1, k) == 0);
        }
        assert(k * binomial(n, k) == n * binomial(n1, k1)) by (nonlinear_arith)
            requires
                n == 1,
                k == 1 ==> binomial(n, k) == 1 && binomial(n1, k1) == 1,
                k != 1 ==> binomial(n, k) == 0 && binomial(n1, k1) == 0,
        ;
    } else {
        let n2 = (n - 2) as nat;
        lemma_binomial_absorb(n1, k);
        let a = binomial(n1, k1);
        let b = binomial(n1, k);
        let c = binomial(n2, k1);
        assert(binomial(n, k) == a + b);
        assert(k * b == n1 * c);
        if k == 1 {
            assert(a == 1);
            assert(c == 1);
            assert(k * (a + b) == n * a) by (nonlinear_arith)
                requires
                    k == 1,
                    a == 1,
                    c == 1,
                    k * b == n1 * c,
                    n1 == n - 1,
            ;
        } else {
            let k2 = (k - 2) as nat;
            lemma_binomial_absorb(n1, k1);
            let d = binomial(n2, k2);
            assert(k1 * a == n1 * d);
            assert(a == d + c);
            assert(k * (a + b) == n * a) by (nonlinear_arith)
                requires
                    k1 == k - 1,
                    n1 == n - 1,
                    k1 * a == n1 * d,
                    k * b == n1 * c,
                    a == d + c,
            ;
        }
    }
}

/// A prime divides the number of ways to choose `k` of `p` things, unless
/// `k` is 0 or `p`.
proof fn lemma_prime_divides_binomial(p: nat, k: nat)
    requires
        is_prime(p),
        0 < k < p,
    ensures
        binomial(p, k) % p == 0,
{
    lemma_binomial_absorb(p, k);
    let c = binomial(p, k) as int;
    let d = binomial((p - 1) as nat, (k - 1) as nat) as int;
    let pi = p as int;
    assert(k * c == pi * d);
    assert((pi * d) % pi == 0) by {
        lemma_mul_is_commutative(pi, d);
        lemma_mod_multiples_basic(d, pi);
    }
    lemma_small_mod(k, p);
    lemma_euclid(p, k as int, c);
}

/// The first terms of the binomial expansion of `(x + 1)^n`, up to the
/// power `j` of `x`.
pub open spec fn binomial_sum(n: nat, x: int, j: nat) -> int
    decreases j,
{
    let term = binomial(n, j) * pow(x, j);
    if j == 0 {
        term
    } else {
        binomial_sum(n, x, (j - 1) as nat) + term
    }
}

/// Multiplying a partial expansion by `x + 1` gives the partial expansion
/// of the next power, and one term more.
proof fn lemma_binomial_step(n: nat, x: int, j: nat)
    ensures
        (x + 1) * binomial_sum(n, x, j) == binomial_sum(n + 1, x, j) + binomial(n, j) * pow(
            x,
            j + 1,
        ),
    decreases j,
{
    reveal(pow);
    let c = binomial(n, j) as int;
    let w = pow(x, j);
    assert(pow(x, j + 1) == x * w);
    if j == 0 {
        assert(w == 1);
        assert(binomial(n, 0) == 1);
        assert(binomial(n + 1, 0) == 1);
        assert((x + 1) * (1 * 1) == 1 * 1 + 1 * (x * 1)) by (nonlinear_arith);
    } else {
        let j1 = (j - 1) as nat;
        lemma_binomial_step(n, x, j1);
        let before = binomial_sum(n, x, j1);
        let next_before = binomial_sum(n + 1, x, j1);
        let c1 = binomial(n, j1) as int;
        assert(pow(x, j1 + 1) == w);
        assert(binomial(n + 1, j) == c1 + c);
        assert((x + 1) * (before + c * w) == next_before + (c1 + c) * w + c * (x * w))
            by (nonlinear_arith)
            requires
                (x + 1) * before == next_before + c1 * w,
        ;
    }
}

/// The binomial theorem for `(x + 1)^n`.
pub proof fn lemma_binomial_theorem(n: nat, x: int)
    ensures
        pow(x + 1, n) == binomial_sum(n, x, n),
    decreases n,
{
    reveal(pow);
    if n == 0 {
        assert(binomial(0, 0) == 1);
        assert(1 * 1 == 1);
    } else {
        let n1 = (n - 1) as nat;
        lemma_binomial_theorem(n1, x);
        lemma_binomial_step(n1, x, n1);
        lemma_binomial_edge(n1, n1);
        lemma_binomial_edge(n, n);
        assert(pow(x + 1, n) == (x + 1) * pow(x + 1, n1));
        assert(binomial_sum(n, x, n) == binomial_sum(n, x, n1) + binomial(n, n) * pow(x, n));
    }
}

/// Below the last term, the expansion of `(x + 1)^p` leaves 1 on division
/// by the prime `p`.
proof fn lemma_binomial_sum_mod(p: nat, x: int, j: nat)
    requires
        is_prime(p),
        j < p,
    ensures
        binomial_sum(p, x, j) % (p as int) == 1,
    decreases j,
{
    reveal(pow);
    let pi = p as int;
    if j == 0 {
        assert(binomial(p, 0) == 1);
        assert(1 * 1 == 1);
        lemma_small_mod(1, p);
    } else {
        let j1 = (j - 1) as nat;
        lemma_binomial_sum_mod(p, x, j1);
        lemma_prime_divides_binomial(p, j);
        let c = binomial(p, j) as int;
        let w = pow(x, j);
        lemma_mul_mod_noop_left(c, w, pi);
        assert(0 * w == 0);
        assert((c * w) % pi == 0);
        lemma_add_mod_noop(binomial_sum(p, x, j1), c * w, pi);
        lemma_small_mod(1, p);
    }
}

/// The power `p` of a number leaves what the number leaves, modulo the
/// prime `p`.
pub proof fn lemma_power_prime(p: nat, x: nat)
    requires
        is_prime(p),
    ensures
        pow(x as int, p) % (p as int) == x % p,
    decreases x,
{
    let pi = p as int;
    if x == 0 {
        lemma0_pow(p);
        lemma_small_mod(0, p);
    } else {
        let y = (x - 1) as nat;
        lemma_power_prime(p, y);
        lemma_binomial_theorem(p, y as int);
        let p1 = (p - 1) as nat;
        lemma_binomial_sum_mod(p, y as int, p1);
        lemma_binomial_edge(p, p);
        let head = binomial_sum(p, y as int, p1);
        let last = pow(y as int, p);
        assert(binomial_sum(p, y as int, p) == head + binomial(p, p) * last);
        assert(1 * last == last);
        assert(x as int == y as int + 1);
        assert(pow(x as int, p) == head + last);
        lemma_add_mod_noop(head, last, pi);
        lemma_add_mod_noop(1, y as int, pi);
        lemma_small_mod(1, p);
        assert(last % pi == (y as int) % pi);
        assert((head + last) % pi == (1 + (y as int) % pi) % pi);
        assert((1 + y as int) % pi == (1 + (y as int) % pi) % pi);
    }
}

/// Fermat's little theorem: the power `p - 1` of a number that the prime
/// `p` does not divide leaves 1.
pub proof fn lemma_fermat(p: nat, b: nat)
    requires
        is_prime(p),
        b % p != 0,
    ensures
        pow(b as int, (p - 1) as nat) % (p as int) == 1,
{
    let pi = p as int;
    let bi = b as int;
    let w = pow(bi, (p - 1) as nat);
    lemma_power_prime(p, b);
    assert(pow(bi, p) == bi * w) by {
        reveal(pow);
    }
    assert(bi * (w - 1) == bi * w - bi) by (nonlinear_arith);
    assert((bi * w) % pi == bi % pi);
    lemma_sub_mod_noop(bi * w, bi, pi);
    lemma_small_mod(0, p);
    assert((bi * w - bi) % pi == 0);
    assert((bi * (w - 1)) % pi == 0);
    lemma_euclid(p, bi, w - 1);
    lemma_mod_add_multiples_vanish(1, pi);
    lemma_add_mod_noop(w - 1, 1, pi);
    lemma_small_mod(1, p);
}

} // verus!
