//! Polynomials whose coefficients are expressions over a row.

use crate::expr::{difference, product, sum, var, Expr, Var};
use crate::field::{f_mul, lemma_f_add_residues, order, reduce};
use crate::poly::{coeff, conv, ip_add, ip_mul, ip_sub, longer};
use vstd::prelude::*;

verus! {

/// Coefficient `k` of `s`; the constant zero beyond its length.
pub open spec fn coeff_expr(s: Seq<Expr>, k: int) -> Expr {
    if 0 <= k < s.len() {
        s[k]
    } else {
        Expr::Constant(0)
    }
}

/// The sum of two polynomials of expressions.
pub open spec fn ep_add(a: Seq<Expr>, b: Seq<Expr>) -> Seq<Expr> {
    Seq::new(longer(a.len(), b.len()), |k: int| sum(coeff_expr(a, k), coeff_expr(b, k)))
}

/// The difference of two polynomials of expressions.
pub open spec fn ep_sub(a: Seq<Expr>, b: Seq<Expr>) -> Seq<Expr> {
    Seq::new(longer(a.len(), b.len()), |k: int| difference(coeff_expr(a, k), coeff_expr(b, k)))
}

/// The polynomial with each coefficient multiplied by `c`.
pub open spec fn ep_scale(a: Seq<Expr>, c: Expr) -> Seq<Expr> {
    Seq::new(a.len(), |k: int| product(a[k], c))
}

/// The part of coefficient `k` of a product that the first `n`
/// coefficients of `a` contribute: a sum that starts from zero and takes
/// the terms in the order of `a`.
pub open spec fn conv_expr(a: Seq<Expr>, b: Seq<Expr>, n: int, k: int) -> Expr
    decreases n,
{
    if n <= 0 {
        Expr::Constant(0)
    } else if 0 <= k - (n - 1) < b.len() {
        sum(conv_expr(a, b, n - 1, k), product(a[n - 1], b[k - (n - 1)]))
    } else {
        conv_expr(a, b, n - 1, k)
    }
}

/// The product of two polynomials of expressions.
pub open spec fn ep_mul(a: Seq<Expr>, b: Seq<Expr>) -> Seq<Expr> {
    Seq::new((a.len() + b.len() - 1) as nat, |k: int| conv_expr(a, b, a.len() as int, k))
}

/// The values of the coefficients on a row.
pub open spec fn values(s: Seq<Expr>, row: Seq<u32>) -> Seq<int> {
    Seq::new(s.len(), |k: int| s[k].value(row))
}

/// The value of a coefficient read beyond the length is zero.
proof fn lemma_coeff_value(s: Seq<Expr>, row: Seq<u32>, k: int)
    ensures
        coeff_expr(s, k).value(row) == coeff(values(s, row), k),
        0 <= coeff(values(s, row), k) < order(),
{
    if 0 <= k < s.len() {
        s[k].lemma_value_canonical(row);
    }
}

/// The values of a sum are the residues of the sums of the values.
pub proof fn lemma_values_add(a: Seq<Expr>, b: Seq<Expr>, row: Seq<u32>)
    ensures
        values(ep_add(a, b), row) == reduce(ip_add(values(a, row), values(b, row))),
{
    let l = values(ep_add(a, b), row);
    let r = reduce(ip_add(values(a, row), values(b, row)));
    assert forall|k: int| 0 <= k < l.len() implies l[k] == r[k] by {
        lemma_coeff_value(a, row, k);
        lemma_coeff_value(b, row, k);
    }
    assert(l =~= r);
}

/// The values of a difference are the residues of the differences of the
/// values.
pub proof fn lemma_values_sub(a: Seq<Expr>, b: Seq<Expr>, row: Seq<u32>)
    ensures
        values(ep_sub(a, b), row) == reduce(ip_sub(values(a, row), values(b, row))),
{
    let l = values(ep_sub(a, b), row);
    let r = reduce(ip_sub(values(a, row), values(b, row)));
    assert forall|k: int| 0 <= k < l.len() implies l[k] == r[k] by {
        lemma_coeff_value(a, row, k);
        lemma_coeff_value(b, row, k);
    }
    assert(l =~= r);
}

/// The value of a partial product coefficient.
proof fn lemma_conv_value(a: Seq<Expr>, b: Seq<Expr>, n: int, k: int, row: Seq<u32>)
    requires
        0 <= n <= a.len(),
    ensures
        conv_expr(a, b, n, k).value(row) == conv(values(a, row), values(b, row), n, k) % order(),
    decreases n,
{
    if n > 0 {
        lemma_conv_value(a, b, n - 1, k, row);
        let before = conv(values(a, row), values(b, row), n - 1, k);
        let x = values(a, row)[n - 1];
        if 0 <= k - (n - 1) < b.len() {
            let y = values(b, row)[k - (n - 1)];
            a[n - 1].lemma_value_canonical(row);
            b[k - (n - 1)].lemma_value_canonical(row);
            assert(product(a[n - 1], b[k - (n - 1)]).value(row) == f_mul(x, y));
            lemma_f_add_residues(before, x * y);
        } else {
            assert(x * 0 == 0);
        }
    }
}

/// The values of a product are the residues of the product of the values.
pub proof fn lemma_values_mul(a: Seq<Expr>, b: Seq<Expr>, row: Seq<u32>)
    requires
        a.len() > 0,
        b.len() > 0,
    ensures
        values(ep_mul(a, b), row) == reduce(ip_mul(values(a, row), values(b, row))),
{
    let l = values(ep_mul(a, b), row);
    let r = reduce(ip_mul(values(a, row), values(b, row)));
    assert forall|k: int| 0 <= k < l.len() implies l[k] == r[k] by {
        lemma_conv_value(a, b, a.len() as int, k, row);
    }
    assert(l =~= r);
}

/// A polynomial whose coefficients are expressions, constant term first.
pub struct ExprPolynomial {
    /// The coefficients.
    pub coefficients: Vec<Expr>,
}

impl View for ExprPolynomial {
    type V = Seq<Expr>;

    open spec fn view(&self) -> Seq<Expr> {
        self.coefficients@
    }
}

impl ExprPolynomial {
    /// The polynomial whose coefficients read the given cells.
    pub fn from_vars(vars: &[Var]) -> (p: ExprPolynomial)
        ensures
            p@ == Seq::new(vars@.len(), |k: int| var(vars@[k])),
    {
        let mut coefficients: Vec<Expr> = Vec::new();
        for i in 0..vars.len()
            invariant
                coefficients@ == Seq::new(i as nat, |k: int| var(vars@[k])),
        {
            coefficients.push(Expr::var(vars[i]));
            assert(coefficients@ =~= Seq::new((i + 1) as nat, |k: int| var(vars@[k])));
        }
        ExprPolynomial { coefficients }
    }

    /// The polynomial whose coefficients are the given constants.
    pub fn from_constants(constants: &[u8]) -> (p: ExprPolynomial)
        ensures
            p@ == Seq::new(constants@.len(), |k: int| Expr::Constant(constants@[k] as u32)),
    {
        let mut coefficients: Vec<Expr> = Vec::new();
        for i in 0..constants.len()
            invariant
                coefficients@ == Seq::new(
                    i as nat,
                    |k: int| Expr::Constant(constants@[k] as u32),
                ),
        {
            coefficients.push(Expr::Constant(constants[i] as u32));
            assert(coefficients@ =~= Seq::new(
                (i + 1) as nat,
                |k: int| Expr::Constant(constants@[k] as u32),
            ));
        }
        ExprPolynomial { coefficients }
    }

    /// A copy of coefficient `k`, the constant zero beyond the last.
    fn coefficient(&self, k: usize) -> (c: Expr)
        ensures
            c == coeff_expr(self@, k as int),
    {
        if k < self.coefficients.len() {
            self.coefficients[k].duplicate()
        } else {
            Expr::Constant(0)
        }
    }

    /// The sum of two polynomials.
    pub fn plus(&self, other: &ExprPolynomial) -> (r: ExprPolynomial)
        ensures
            r@ == ep_add(self@, other@),
    {
        let n = if self.coefficients.len() >= other.coefficients.len() {
            self.coefficients.len()
        } else {
            other.coefficients.len()
        };
        let mut coefficients: Vec<Expr> = Vec::new();
        for k in 0..n
            invariant
                n == longer(self@.len(), other@.len()),
                coefficients@ == ep_add(self@, other@).take(k as int),
        {
            coefficients.push(self.coefficient(k).plus(other.coefficient(k)));
            assert(coefficients@ =~= ep_add(self@, other@).take(k + 1));
        }
        assert(ep_add(self@, other@).take(n as int) =~= ep_add(self@, other@));
        ExprPolynomial { coefficients }
    }

    /// The difference of two polynomials.
    pub fn minus(&self, other: &ExprPolynomial) -> (r: ExprPolynomial)
        ensures
            r@ == ep_sub(self@, other@),
    {
        let n = if self.coefficients.len() >= other.coefficients.len() {
            self.coefficients.len()
        } else {
            other.coefficients.len()
        };
        let mut coefficients: Vec<Expr> = Vec::new();
        for k in 0..n
            invariant
                n == longer(self@.len(), other@.len()),
                coefficients@ == ep_sub(self@, other@).take(k as int),
        {
            coefficients.push(self.coefficient(k).minus(other.coefficient(k)));
            assert(coefficients@ =~= ep_sub(self@, other@).take(k + 1));
        }
        assert(ep_sub(self@, other@).take(n as int) =~= ep_sub(self@, other@));
        ExprPolynomial { coefficients }
    }

    /// The polynomial with each coefficient multiplied by `c`.
    pub fn scaled(&self, c: &Expr) -> (r: ExprPolynomial)
        ensures
            r@ == ep_scale(self@, *c),
    {
        let mut coefficients: Vec<Expr> = Vec::new();
        for k in 0..self.coefficients.len()
            invariant
                coefficients@ == ep_scale(self@, *c).take(k as int),
        {
            coefficients.push(self.coefficients[k].duplicate().times(c.duplicate()));
            assert(coefficients@ =~= ep_scale(self@, *c).take(k + 1));
        }
        assert(ep_scale(self@, *c).take(self@.len() as int) =~= ep_scale(self@, *c));
        ExprPolynomial { coefficients }
    }

    /// The product of two polynomials, neither of them empty.
    pub fn times(&self, other: &ExprPolynomial) -> (r: ExprPolynomial)
        requires
            self@.len() > 0,
            other@.len() > 0,
            self@.len() + other@.len() <= usize::MAX,
        ensures
            r@ == ep_mul(self@, other@),
    {
        let n = self.coefficients.len() + other.coefficients.len() - 1;
        let mut coefficients: Vec<Expr> = Vec::new();
        for k in 0..n
            invariant
                n == self@.len() + other@.len() - 1,
                coefficients@ == ep_mul(self@, other@).take(k as int),
        {
            let mut term = Expr::Constant(0);
            for i in 0..self.coefficients.len()
                invariant
                    k < n,
                    n == self@.len() + other@.len() - 1,
                    term == conv_expr(self@, other@, i as int, k as int),
            {
                if i <= k && k - i < other.coefficients.len() {
                    term = term.plus(
                        self.coefficients[i].duplicate().times(
                            other.coefficients[k - i].duplicate(),
                        ),
                    );
                }
            }
            coefficients.push(term);
            assert(coefficients@ =~= ep_mul(self@, other@).take(k + 1));
        }
        assert(ep_mul(self@, other@).take(n as int) =~= ep_mul(self@, other@));
        ExprPolynomial { coefficients }
    }
}

} // verus!
