//! Symbolic expressions over the cells of a trace row.

use crate::field::{f_add, f_mul, f_sub, field_add, field_mul, field_sub, order, FIELD_ORDER};
use vstd::prelude::*;

verus! {

/// A cell of the row under description, by its column index.
#[derive(Clone, Copy, Debug, PartialEq, Eq, Structural)]
pub struct Var(pub usize);

/// A polynomial expression over the cells of a row, with field constants.
#[derive(Debug)]
pub enum Expr {
    /// A constant, reduced into the field.
    Constant(u32),
    /// The content of a cell.
    Variable(Var),
    /// The sum of two expressions.
    Sum(Box<Expr>, Box<Expr>),
    /// The first expression minus the second.
    Difference(Box<Expr>, Box<Expr>),
    /// The product of two expressions.
    Product(Box<Expr>, Box<Expr>),
}

/// The field element that `row` holds in column `index`; zero outside the row.
pub open spec fn cell(row: Seq<u32>, index: int) -> int {
    if 0 <= index < row.len() {
        row[index] as int % order()
    } else {
        0
    }
}

/// The expression that reads the cell `v`.
pub open spec fn var(v: Var) -> Expr {
    Expr::Variable(v)
}

/// `l + r` as an expression.
pub open spec fn sum(l: Expr, r: Expr) -> Expr {
    Expr::Sum(Box::new(l), Box::new(r))
}

/// `l - r` as an expression.
pub open spec fn difference(l: Expr, r: Expr) -> Expr {
    Expr::Difference(Box::new(l), Box::new(r))
}

/// `l * r` as an expression.
pub open spec fn product(l: Expr, r: Expr) -> Expr {
    Expr::Product(Box::new(l), Box::new(r))
}

impl Expr {
    /// The canonical value of the expression on a row.
    pub open spec fn value(self, row: Seq<u32>) -> int
        decreases self,
    {
        match self {
            Expr::Constant(c) => c as int % order(),
            Expr::Variable(v) => cell(row, v.0 as int),
            Expr::Sum(l, r) => f_add(l.value(row), r.value(row)),
            Expr::Difference(l, r) => f_sub(l.value(row), r.value(row)),
            Expr::Product(l, r) => f_mul(l.value(row), r.value(row)),
        }
    }

    /// Values are canonical on every row.
    pub proof fn lemma_value_canonical(self, row: Seq<u32>)
        ensures
            0 <= self.value(row) < order(),
        decreases self,
    {
        match self {
            Expr::Constant(c) => {},
            Expr::Variable(v) => {},
            Expr::Sum(l, r) => {},
            Expr::Difference(l, r) => {},
            Expr::Product(l, r) => {},
        }
    }

    /// The expression that reads one cell.
    pub fn var(v: Var) -> (e: Expr)
        ensures
            e == Expr::Variable(v),
    {
        Expr::Variable(v)
    }

    /// `self + rhs`.
    pub fn plus(self, rhs: Expr) -> (e: Expr)
        ensures
            e == Expr::Sum(Box::new(self), Box::new(rhs)),
    {
        Expr::Sum(Box::new(self), Box::new(rhs))
    }

    /// `self - rhs`.
    pub fn minus(self, rhs: Expr) -> (e: Expr)
        ensures
            e == Expr::Difference(Box::new(self), Box::new(rhs)),
    {
        Expr::Difference(Box::new(self), Box::new(rhs))
    }

    /// `self * rhs`.
    pub fn times(self, rhs: Expr) -> (e: Expr)
        ensures
            e == Expr::Product(Box::new(self), Box::new(rhs)),
    {
        Expr::Product(Box::new(self), Box::new(rhs))
    }

    /// A structural copy.
    pub fn duplicate(&self) -> (e: Expr)
        ensures
            e == *self,
        decreases *self,
    {
        match self {
            Expr::Constant(c) => Expr::Constant(*c),
            Expr::Variable(v) => Expr::Variable(*v),
            Expr::Sum(l, r) => Expr::Sum(Box::new(l.duplicate()), Box::new(r.duplicate())),
            Expr::Difference(l, r) => Expr::Difference(
                Box::new(l.duplicate()),
                Box::new(r.duplicate()),
            ),
            Expr::Product(l, r) => Expr::Product(Box::new(l.duplicate()), Box::new(r.duplicate())),
        }
    }

    /// Computes the value of the expression on a concrete row.
    pub fn evaluate(&self, row: &Vec<u32>) -> (v: u32)
        ensures
            v as int == self.value(row@),
        decreases *self,
    {
        match self {
            Expr::Constant(c) => *c % FIELD_ORDER,
            Expr::Variable(v) => {
                if v.0 < row.len() {
                    row[v.0] % FIELD_ORDER
                } else {
                    0
                }
            },
            Expr::Sum(l, r) => field_add(l.evaluate(row), r.evaluate(row)),
            Expr::Difference(l, r) => field_sub(l.evaluate(row), r.evaluate(row)),
            Expr::Product(l, r) => field_mul(l.evaluate(row), r.evaluate(row)),
        }
    }
}

} // verus!
