//! Polynomials over the field, with the arithmetic that row population needs.

use crate::field::{
    all_canonical, f_add, f_sub, field_add, field_mul, field_sub, is_canonical,
    lemma_f_add_residues, order, reduce, FIELD_ORDER,
};
use crate::poly::{coeff, conv, ip_add, ip_mul, ip_sub, longer, product_len};
use vstd::prelude::*;

verus! {

/// A polynomial over the field by its coefficients, constant term first.
pub struct Polynomial {
    /// The canonical representatives of the coefficients.
    pub coefficients: Vec<u32>,
}

impl View for Polynomial {
    type V = Seq<int>;

    open spec fn view(&self) -> Seq<int> {
        Seq::new(self.coefficients@.len(), |k: int| self.coefficients@[k] as int)
    }
}

impl Polynomial {
    /// Whether every coefficient is a canonical representative.
    pub open spec fn wf(&self) -> bool {
        all_canonical(self@)
    }

    /// The polynomial with the given coefficients.
    pub fn new(coefficients: Vec<u32>) -> (p: Polynomial)
        ensures
            p.coefficients == coefficients,
    {
        Polynomial { coefficients }
    }

    /// The polynomial whose coefficients are the given limbs.
    pub fn from_limbs(limbs: &[u8]) -> (p: Polynomial)
        ensures
            p.wf(),
            p@ == Seq::new(limbs@.len(), |k: int| limbs@[k] as int),
    {
        let mut coefficients: Vec<u32> = Vec::new();
        for i in 0..limbs.len()
            invariant
                coefficients@.len() == i,
                forall|k: int| 0 <= k < i ==> coefficients@[k] == limbs@[k] as u32,
        {
            coefficients.push(limbs[i] as u32);
        }
        let p = Polynomial { coefficients };
        assert(p@ =~= Seq::new(limbs@.len(), |k: int| limbs@[k] as int));
        p
    }

    /// The degree that the number of coefficients allows.
    pub fn degree(&self) -> (d: usize)
        requires
            self@.len() > 0,
        ensures
            d == self@.len() - 1,
    {
        self.coefficients.len() - 1
    }

    /// Coefficient `k`, zero beyond the last.
    fn coefficient(&self, k: usize) -> (c: u32)
        requires
            self.wf(),
        ensures
            c as int == coeff(self@, k as int),
            c < FIELD_ORDER,
    {
        if k < self.coefficients.len() {
            assert(is_canonical(self@[k as int]));
            self.coefficients[k]
        } else {
            0
        }
    }

    /// The sum of two polynomials.
    pub fn plus(&self, other: &Polynomial) -> (sum: Polynomial)
        requires
            self.wf(),
            other.wf(),
        ensures
            sum.wf(),
            sum@ == reduce(ip_add(self@, other@)),
    {
        let n = if self.coefficients.len() >= other.coefficients.len() {
            self.coefficients.len()
        } else {
            other.coefficients.len()
        };
        let mut coefficients: Vec<u32> = Vec::new();
        for k in 0..n
            invariant
                self.wf(),
                other.wf(),
                n == longer(self@.len(), other@.len()),
                coefficients@.len() == k,
                forall|i: int|
                    0 <= i < k ==> coefficients@[i] as int == f_add(
                        coeff(self@, i),
                        coeff(other@, i),
                    ),
        {
            coefficients.push(field_add(self.coefficient(k), other.coefficient(k)));
        }
        let sum = Polynomial { coefficients };
        assert(sum@ =~= reduce(ip_add(self@, other@)));
        sum
    }

    /// The difference of two polynomials.
    pub fn minus(&self, other: &Polynomial) -> (difference: Polynomial)
        requires
            self.wf(),
            other.wf(),
        ensures
            difference.wf(),
            difference@ == reduce(ip_sub(self@, other@)),
    {
        let n = if self.coefficients.len() >= other.coefficients.len() {
            self.coefficients.len()
        } else {
            other.coefficients.len()
        };
        let mut coefficients: Vec<u32> = Vec::new();
        for k in 0..n
            invariant
                self.wf(),
                other.wf(),
                n == longer(self@.len(), other@.len()),
                coefficients@.len() == k,
                forall|i: int|
                    0 <= i < k ==> coefficients@[i] as int == f_sub(
                        coeff(self@, i),
                        coeff(other@, i),
                    ),
        {
            coefficients.push(field_sub(self.coefficient(k), other.coefficient(k)));
        }
        let difference = Polynomial { coefficients };
        assert(difference@ =~= reduce(ip_sub(self@, other@)));
        difference
    }

    /// The product of two polynomials, neither of them empty.
    pub fn times(&self, other: &Polynomial) -> (product: Polynomial)
        requires
            self.wf(),
            other.wf(),
            self@.len() > 0,
            other@.len() > 0,
            self@.len() + other@.len() <= usize::MAX,
        ensures
            product.wf(),
            product@ == reduce(ip_mul(self@, other@)),
    {
        let n = self.coefficients.len() + other.coefficients.len() - 1;
        let mut coefficients: Vec<u32> = Vec::new();
        for k in 0..n
            invariant
                coefficients@.len() == k,
                forall|i: int| 0 <= i < k ==> coefficients@[i] == 0,
        {
            coefficients.push(0);
        }
        let ghost a = self@;
        let ghost b = other@;
        for i in 0..self.coefficients.len()
            invariant
                self.wf(),
                other.wf(),
                a == self@,
                b == other@,
                n == product_len(a, b),
                n == a.len() + b.len() - 1,
                coefficients@.len() == n,
                forall|k: int|
                    0 <= k < n ==> (#[trigger] coefficients@[k]) as int == conv(a, b, i as int, k)
                        % order(),
        {
            for j in 0..other.coefficients.len()
                invariant
                    self.wf(),
                    other.wf(),
                    a == self@,
                    b == other@,
                    i < a.len(),
                    n == a.len() + b.len() - 1,
                    coefficients@.len() == n,
                    forall|k: int|
                        0 <= k < n ==> (#[trigger] coefficients@[k]) as int == (conv(
                            a,
                            b,
                            i as int,
                            k,
                        ) + if i <= k < i + j {
                            a[i as int] * b[k - i]
                        } else {
                            0
                        }) % order(),
            {
                assert(is_canonical(a[i as int]));
                assert(is_canonical(b[j as int]));
                let term = field_mul(self.coefficients[i], other.coefficients[j]);
                let ghost so_far = conv(a, b, i as int, i + j);
                assert(coefficients@[i + j] as int == so_far % order());
                let updated = field_add(coefficients[i + j], term);
                proof {
                    lemma_f_add_residues(so_far, a[i as int] * b[j as int]);
                }
                coefficients[i + j] = updated;
            }
            proof {
                assert forall|k: int| 0 <= k < n implies (#[trigger] coefficients@[k]) as int
                    == conv(a, b, i + 1, k) % order() by {
                    if i <= k < i + b.len() {
                        assert(coeff(b, k - i) == b[k - i]);
                    } else {
                        assert(coeff(b, k - i) == 0);
                        assert(a[i as int] * 0 == 0);
                    }
                }
            }
        }
        let product = Polynomial { coefficients };
        assert(product@ =~= reduce(ip_mul(a, b)));
        product
    }
}

} // verus!
