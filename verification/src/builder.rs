//! The constraints that a gadget lays on a row, and what it means for a row
//! to meet them.

use crate::expr::Expr;
use crate::field::{f_mul, f_sub, field_mul, field_sub};
use vstd::prelude::*;

verus! {

/// The lookups on pairs of bytes that the gadgets request.
#[derive(Clone, Copy, Debug, PartialEq, Eq, Structural)]
pub enum ByteOpcode {
    /// Both bytes of the pair lie in `0..=255`.
    U8Range,
}

/// One requirement on a row.
#[derive(Debug)]
pub enum Constraint {
    /// `value` is zero wherever the guard is one.
    AssertZero { when: Option<Expr>, value: Expr },
    /// `left` equals `right` wherever the guard is one.
    AssertEq { when: Option<Expr>, left: Expr, right: Expr },
    /// `value` is zero or one wherever the guard is one.
    AssertBool { when: Option<Expr>, value: Expr },
    /// The pair `(first, second)` is looked up under `opcode`, with the
    /// results `aux1` and `aux2`, `multiplicity` times.
    BytePair {
        opcode: ByteOpcode,
        aux1: Expr,
        aux2: Expr,
        first: Expr,
        second: Expr,
        multiplicity: Expr,
    },
}

/// The factor by which a guard scales an asserted expression: the guard's
/// value, or one where there is no guard.
pub open spec fn guard_value(when: Option<Expr>, row: Seq<u32>) -> int {
    match when {
        Some(condition) => condition.value(row),
        None => 1,
    }
}

impl Constraint {
    /// Whether `row` meets the constraint. An assertion under a guard is the
    /// assertion of the product with the guard. A range lookup with a
    /// multiplicity other than zero asks that both cells of the pair hold
    /// bytes and that both results are zero, as in every line of the range
    /// table; one with multiplicity zero asks nothing.
    pub open spec fn holds(self, row: Seq<u32>) -> bool {
        match self {
            Constraint::AssertZero { when, value } => f_mul(
                guard_value(when, row),
                value.value(row),
            ) == 0,
            Constraint::AssertEq { when, left, right } => f_mul(
                guard_value(when, row),
                f_sub(left.value(row), right.value(row)),
            ) == 0,
            Constraint::AssertBool { when, value } => f_mul(
                guard_value(when, row),
                f_mul(value.value(row), f_sub(value.value(row), 1)),
            ) == 0,
            Constraint::BytePair { opcode, aux1, aux2, first, second, multiplicity } => {
                multiplicity.value(row) != 0 ==> {
                    &&& first.value(row) < 256
                    &&& second.value(row) < 256
                    &&& aux1.value(row) == 0
                    &&& aux2.value(row) == 0
                }
            },
        }
    }

    /// Decides `holds` on a concrete row.
    pub fn check(&self, row: &Vec<u32>) -> (ok: bool)
        ensures
            ok == self.holds(row@),
    {
        match self {
            Constraint::AssertZero { when, value } => {
                let guard = evaluate_guard(when, row);
                field_mul(guard, value.evaluate(row)) == 0
            },
            Constraint::AssertEq { when, left, right } => {
                let guard = evaluate_guard(when, row);
                let difference = field_sub(left.evaluate(row), right.evaluate(row));
                field_mul(guard, difference) == 0
            },
            Constraint::AssertBool { when, value } => {
                let guard = evaluate_guard(when, row);
                let v = value.evaluate(row);
                field_mul(guard, field_mul(v, field_sub(v, 1))) == 0
            },
            Constraint::BytePair { opcode, aux1, aux2, first, second, multiplicity } => {
                multiplicity.evaluate(row) == 0 || (first.evaluate(row) < 256 && second.evaluate(
                    row,
                ) < 256 && aux1.evaluate(row) == 0 && aux2.evaluate(row) == 0)
            },
        }
    }
}

/// Computes `guard_value` on a concrete row.
fn evaluate_guard(when: &Option<Expr>, row: &Vec<u32>) -> (guard: u32)
    ensures
        guard as int == guard_value(*when, row@),
        guard < crate::field::FIELD_ORDER,
{
    match when {
        Some(condition) => {
            proof {
                condition.lemma_value_canonical(row@);
            }
            condition.evaluate(row)
        },
        None => 1,
    }
}

/// An assertion of zero holds where the asserted value is zero.
pub proof fn lemma_zero_holds(when: Option<Expr>, value: Expr, row: Seq<u32>)
    requires
        value.value(row) == 0,
    ensures
        (Constraint::AssertZero { when, value }).holds(row),
{
    assert(guard_value(when, row) * 0 == 0);
}

/// An assertion of equality holds where the two sides have the same value.
pub proof fn lemma_eq_holds(when: Option<Expr>, left: Expr, right: Expr, row: Seq<u32>)
    requires
        left.value(row) == right.value(row),
    ensures
        (Constraint::AssertEq { when, left, right }).holds(row),
{
    assert(guard_value(when, row) * 0 == 0);
}

/// An assertion of a boolean holds where the asserted value is zero or one.
pub proof fn lemma_bool_holds(when: Option<Expr>, value: Expr, row: Seq<u32>)
    requires
        value.value(row) == 0 || value.value(row) == 1,
    ensures
        (Constraint::AssertBool { when, value }).holds(row),
{
    let v = value.value(row);
    assert(f_mul(v, f_sub(v, 1)) == 0) by {
        if v == 0 {
            assert(0 * f_sub(0, 1) == 0);
        } else {
            assert(f_sub(1, 1) == 0);
        }
    }
    assert(guard_value(when, row) * 0 == 0);
}

/// Whether `row` meets every constraint of the sequence.
pub open spec fn all_hold(constraints: Seq<Constraint>, row: Seq<u32>) -> bool {
    forall|k: int| 0 <= k < constraints.len() ==> (#[trigger] constraints[k]).holds(row)
}

/// A row meets two lists of constraints exactly if it meets their
/// concatenation.
pub proof fn lemma_all_hold_concat(first: Seq<Constraint>, second: Seq<Constraint>, row: Seq<u32>)
    ensures
        all_hold(first + second, row) <==> all_hold(first, row) && all_hold(second, row),
{
    let joined = first + second;
    if all_hold(joined, row) {
        assert forall|k: int| 0 <= k < first.len() implies (#[trigger] first[k]).holds(row) by {
            assert(joined[k] == first[k]);
        }
        assert forall|k: int| 0 <= k < second.len() implies (#[trigger] second[k]).holds(row) by {
            assert(joined[k + first.len()] == second[k]);
        }
    }
    if all_hold(first, row) && all_hold(second, row) {
        assert forall|k: int| 0 <= k < joined.len() implies (#[trigger] joined[k]).holds(row) by {
            if k < first.len() {
                assert(joined[k] == first[k]);
            } else {
                assert(joined[k] == second[k - first.len()]);
            }
        }
    }
}

/// Records the constraints that gadgets lay on a row, in the order in which
/// they are asserted.
pub struct ConstraintBuilder {
    /// The constraints asserted so far.
    pub constraints: Vec<Constraint>,
}

impl View for ConstraintBuilder {
    type V = Seq<Constraint>;

    open spec fn view(&self) -> Seq<Constraint> {
        self.constraints@
    }
}

impl ConstraintBuilder {
    /// A builder without constraints.
    pub fn new() -> (builder: ConstraintBuilder)
        ensures
            builder@ == Seq::<Constraint>::empty(),
    {
        ConstraintBuilder { constraints: Vec::new() }
    }

    /// Asserts that `value` is zero.
    pub fn assert_zero(&mut self, value: Expr)
        ensures
            final(self)@ == old(self)@.push((Constraint::AssertZero { when: None, value })),
    {
        self.constraints.push(Constraint::AssertZero { when: None, value });
    }

    /// Asserts that `value` is zero or one.
    pub fn assert_bool(&mut self, value: Expr)
        ensures
            final(self)@ == old(self)@.push((Constraint::AssertBool { when: None, value })),
    {
        self.constraints.push(Constraint::AssertBool { when: None, value });
    }

    /// Asserts that `left` and `right` are equal.
    pub fn assert_eq(&mut self, left: Expr, right: Expr)
        ensures
            final(self)@ == old(self)@.push((Constraint::AssertEq { when: None, left, right })),
    {
        self.constraints.push(Constraint::AssertEq { when: None, left, right });
    }

    /// Asserts that `value` is zero or one on the rows where `condition` is
    /// one.
    pub fn when_assert_bool(&mut self, condition: Expr, value: Expr)
        ensures
            final(self)@ == old(self)@.push(
                (Constraint::AssertBool { when: Some(condition), value }),
            ),
    {
        self.constraints.push(Constraint::AssertBool { when: Some(condition), value });
    }

    /// Asserts that `left` and `right` are equal on the rows where
    /// `condition` is one.
    pub fn when_assert_eq(&mut self, condition: Expr, left: Expr, right: Expr)
        ensures
            final(self)@ == old(self)@.push(
                (Constraint::AssertEq { when: Some(condition), left, right }),
            ),
    {
        self.constraints.push(Constraint::AssertEq { when: Some(condition), left, right });
    }

    /// Requests the lookup of the pair `(first, second)` under `opcode`.
    pub fn send_byte_pair(
        &mut self,
        opcode: ByteOpcode,
        aux1: Expr,
        aux2: Expr,
        first: Expr,
        second: Expr,
        multiplicity: Expr,
    )
        ensures
            final(self)@ == old(self)@.push(
                (Constraint::BytePair { opcode, aux1, aux2, first, second, multiplicity }),
            ),
    {
        self.constraints.push(
            Constraint::BytePair { opcode, aux1, aux2, first, second, multiplicity },
        );
    }

    /// Decides whether `row` meets every constraint recorded so far.
    pub fn check(&self, row: &Vec<u32>) -> (ok: bool)
        ensures
            ok == all_hold(self@, row@),
    {
        let mut i: usize = 0;
        while i < self.constraints.len()
            invariant
                i <= self.constraints.len(),
                forall|k: int| 0 <= k < i ==> (#[trigger] self@[k]).holds(row@),
            decreases self.constraints.len() - i,
        {
            if !self.constraints[i].check(row) {
                return false;
            }
            i += 1;
        }
        true
    }
}

} // verus!
