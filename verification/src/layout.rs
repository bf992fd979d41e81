//! Rows as flat runs of cells: the order of the columns, and the columns of
//! a gadget that starts at a given cell.

use crate::add4::{columns_assigned, word_assigned, Add4Operation};
use crate::expr::{cell, Var};
use crate::field::order;
use crate::fp_laws::{cells, fp_assigned};
use crate::fp_op::{ints, FpOpCols};
use crate::params::Limbs;
use crate::word::Word;
use vstd::prelude::*;

verus! {

/// Number of cells of a row of the carry addition.
pub const ADD4_WIDTH: usize = 24;

/// Number of cells of a row of a field operation.
pub const FP_OP_WIDTH: usize = 188;

/// The cells `start`, `start + 1`, and so on, `n` of them.
pub open spec fn run(start: int, n: nat) -> Seq<Var> {
    Seq::new(n, |k: int| Var((start + k) as usize))
}

impl<T: Copy> Add4Operation<T> {
    /// The cells of the row in the order of the columns.
    pub open spec fn flat(self) -> Seq<T> {
        self.value.0@ + self.is_carry_0.0@ + self.is_carry_1.0@ + self.is_carry_2.0@
            + self.is_carry_3.0@ + self.carry.0@
    }

    /// The cells of the row in the order of the columns.
    pub fn to_flat(&self) -> (flat: Vec<T>)
        ensures
            flat@ == self.flat(),
    {
        let words = [
            self.value,
            self.is_carry_0,
            self.is_carry_1,
            self.is_carry_2,
            self.is_carry_3,
            self.carry,
        ];
        let mut flat: Vec<T> = Vec::new();
        for w in 0..6usize
            invariant
                words@ == seq![
                    self.value,
                    self.is_carry_0,
                    self.is_carry_1,
                    self.is_carry_2,
                    self.is_carry_3,
                    self.carry,
                ],
                flat@.len() == 4 * w,
                forall|k: int| 0 <= k < 4 * w ==> flat@[k] == #[trigger] words[k / 4].0[k % 4],
        {
            for i in 0..4usize
                invariant
                    w < 6,
                    flat@.len() == 4 * w + i,
                    forall|k: int|
                        0 <= k < 4 * w + i ==> flat@[k] == #[trigger] words[k / 4].0[k % 4],
            {
                flat.push(words[w].0[i]);
            }
        }
        proof {
            let all = self.flat();
            assert(all.len() == 24);
            assert forall|k: int| 0 <= k < 24 implies flat@[k] == all[k] by {
                assert(flat@[k] == words[k / 4].0[k % 4]);
            }
            assert(flat@ =~= all);
        }
        flat
    }

    /// The row whose cells, in the order of the columns, are `flat`.
    pub fn from_flat(flat: &[T]) -> (row: Self)
        requires
            flat@.len() == ADD4_WIDTH,
        ensures
            row.flat() == flat@,
    {
        let row = Add4Operation {
            value: Word([flat[0], flat[1], flat[2], flat[3]]),
            is_carry_0: Word([flat[4], flat[5], flat[6], flat[7]]),
            is_carry_1: Word([flat[8], flat[9], flat[10], flat[11]]),
            is_carry_2: Word([flat[12], flat[13], flat[14], flat[15]]),
            is_carry_3: Word([flat[16], flat[17], flat[18], flat[19]]),
            carry: Word([flat[20], flat[21], flat[22], flat[23]]),
        };
        assert(row.flat() =~= flat@);
        row
    }
}

impl Add4Operation<Var> {
    /// The columns of a row that starts at cell `start`.
    pub fn at(start: usize) -> (cols: Self)
        requires
            start + ADD4_WIDTH <= usize::MAX,
        ensures
            cols.flat() == run(start as int, 24),
    {
        let mut vars: Vec<Var> = Vec::new();
        for k in 0..ADD4_WIDTH
            invariant
                start + ADD4_WIDTH <= usize::MAX,
                vars@ == run(start as int, k as nat),
        {
            vars.push(Var(start + k));
            assert(vars@ =~= run(start as int, (k + 1) as nat));
        }
        Add4Operation::from_flat(vars.as_slice())
    }
}

/// Cells `offset..offset + 4` of a flat row hold a word in the columns that
/// are laid over them.
proof fn lemma_word_layout(
    vars: Seq<Var>,
    flat: Seq<u32>,
    offset: int,
    word_vars: Word<Var>,
    word: Word<u32>,
    row: Seq<u32>,
)
    requires
        0 <= offset,
        offset + 4 <= vars.len() == flat.len(),
        forall|k: int| 0 <= k < vars.len() ==> cell(row, vars[k].0 as int) == flat[k],
        forall|i: int| 0 <= i < 4 ==> vars[offset + i] == word_vars.0[i],
        forall|i: int| 0 <= i < 4 ==> flat[offset + i] == word.0[i],
    ensures
        word_assigned(word_vars, word, row),
{
    assert forall|i: int| 0 <= i < 4 implies cell(row, (#[trigger] word_vars.0[i]).0 as int)
        == word.0[i] by {
        assert(vars[offset + i] == word_vars.0[i]);
        assert(flat[offset + i] == word.0[i]);
    }
}

/// A row that holds the cells of `filled` from cell `start` on holds
/// `filled` in the columns that start there.
pub proof fn lemma_add4_layout(
    cols: Add4Operation<Var>,
    filled: Add4Operation<u32>,
    start: usize,
    row: Seq<u32>,
)
    requires
        start + 24 <= row.len() <= usize::MAX,
        row.subrange(start as int, start + 24) == filled.flat(),
        forall|k: int| 0 <= k < 24 ==> filled.flat()[k] < order(),
        cols.flat() == run(start as int, 24),
    ensures
        columns_assigned(cols, filled, row),
{
    let vars = cols.flat();
    let flat = filled.flat();
    assert forall|k: int| 0 <= k < 24 implies cell(row, vars[k].0 as int) == flat[k] by {
        assert(vars[k] == Var((start + k) as usize));
        assert(row.subrange(start as int, start + 24)[k] == row[start + k]);
        assert(flat[k] < order());
    }
    lemma_word_layout(vars, flat, 0, cols.value, filled.value, row);
    lemma_word_layout(vars, flat, 4, cols.is_carry_0, filled.is_carry_0, row);
    lemma_word_layout(vars, flat, 8, cols.is_carry_1, filled.is_carry_1, row);
    lemma_word_layout(vars, flat, 12, cols.is_carry_2, filled.is_carry_2, row);
    lemma_word_layout(vars, flat, 16, cols.is_carry_3, filled.is_carry_3, row);
    lemma_word_layout(vars, flat, 20, cols.carry, filled.carry, row);
}

/// Appends the cells of `column` to `flat`.
fn append<T: Copy>(flat: &mut Vec<T>, column: &[T])
    ensures
        final(flat)@ == old(flat)@ + column@,
{
    for i in 0..column.len()
        invariant
            flat@ == old(flat)@ + column@.take(i as int),
    {
        flat.push(column[i]);
        assert(flat@ =~= old(flat)@ + column@.take(i + 1));
    }
    assert(column@.take(column@.len() as int) =~= column@);
}

/// The 32 cells of `flat` from `start` on.
fn limbs_at<T: Copy>(flat: &[T], start: usize) -> (limbs: Limbs<T>)
    requires
        start + 32 <= flat@.len(),
    ensures
        limbs.0@ == flat@.subrange(start as int, start + 32),
{
    let mut array = [flat[start];32];
    for i in 0..32usize
        invariant
            start + 32 <= flat@.len() <= usize::MAX,
            forall|k: int| 0 <= k < i ==> array@[k] == flat@[start + k],
    {
        array[i] = flat[start + i];
    }
    assert(array@ =~= flat@.subrange(start as int, start + 32));
    Limbs(array)
}

/// The 62 cells of `flat` from `start` on.
fn witness_at<T: Copy>(flat: &[T], start: usize) -> (column: [T; 62])
    requires
        start + 62 <= flat@.len(),
    ensures
        column@ == flat@.subrange(start as int, start + 62),
{
    let mut array = [flat[start];62];
    for i in 0..62usize
        invariant
            start + 62 <= flat@.len() <= usize::MAX,
            forall|k: int| 0 <= k < i ==> array@[k] == flat@[start + k],
    {
        array[i] = flat[start + i];
    }
    assert(array@ =~= flat@.subrange(start as int, start + 62));
    array
}

impl<T: Copy> FpOpCols<T> {
    /// The cells of the row in the order of the columns.
    pub open spec fn flat(self) -> Seq<T> {
        self.result.0@ + self.carry.0@ + self.witness_low@ + self.witness_high@
    }

    /// The cells of the row in the order of the columns.
    pub fn to_flat(&self) -> (flat: Vec<T>)
        ensures
            flat@ == self.flat(),
    {
        let mut flat: Vec<T> = Vec::new();
        append(&mut flat, self.result.0.as_slice());
        append(&mut flat, self.carry.0.as_slice());
        append(&mut flat, self.witness_low.as_slice());
        append(&mut flat, self.witness_high.as_slice());
        assert(flat@ =~= self.flat());
        flat
    }

    /// The row whose cells, in the order of the columns, are `flat`.
    pub fn from_flat(flat: &[T]) -> (row: Self)
        requires
            flat@.len() == FP_OP_WIDTH,
        ensures
            row.flat() == flat@,
    {
        let row = FpOpCols {
            result: limbs_at(flat, 0),
            carry: limbs_at(flat, 32),
            witness_low: witness_at(flat, 64),
            witness_high: witness_at(flat, 126),
        };
        assert(row.flat() =~= flat@);
        row
    }
}

impl FpOpCols<Var> {
    /// The columns of a row that starts at cell `start`.
    pub fn at(start: usize) -> (cols: Self)
        requires
            start + FP_OP_WIDTH <= usize::MAX,
        ensures
            cols.flat() == run(start as int, 188),
    {
        let mut vars: Vec<Var> = Vec::new();
        for k in 0..FP_OP_WIDTH
            invariant
                start + FP_OP_WIDTH <= usize::MAX,
                vars@ == run(start as int, k as nat),
        {
            vars.push(Var(start + k));
            assert(vars@ =~= run(start as int, (k + 1) as nat));
        }
        FpOpCols::from_flat(vars.as_slice())
    }
}

impl Limbs<Var> {
    /// The limbs in the 32 cells from `start` on.
    pub fn at(start: usize) -> (limbs: Self)
        requires
            start + 32 <= usize::MAX,
        ensures
            limbs.0@ == run(start as int, 32),
    {
        let mut vars: Vec<Var> = Vec::new();
        for k in 0..32usize
            invariant
                start + 32 <= usize::MAX,
                vars@ == run(start as int, k as nat),
        {
            vars.push(Var(start + k));
            assert(vars@ =~= run(start as int, (k + 1) as nat));
        }
        let limbs = limbs_at(vars.as_slice(), 0);
        assert(vars@.subrange(0, 32) =~= vars@);
        limbs
    }
}

/// What a row holds in a run of cells is the part of the row at that place,
/// where that part is canonical.
pub proof fn lemma_run_cells(start: usize, n: nat, row: Seq<u32>)
    requires
        start + n <= row.len() <= usize::MAX,
        forall|k: int| start <= k < start + n ==> row[k] < order(),
    ensures
        cells(run(start as int, n), row) == ints(row.subrange(start as int, start + n)),
{
    let l = cells(run(start as int, n), row);
    let r = ints(row.subrange(start as int, start + n));
    assert forall|k: int| 0 <= k < n implies l[k] == r[k] by {
        assert(run(start as int, n)[k] == Var((start + k) as usize));
        assert(row[start + k] < order());
    }
    assert(l =~= r);
}

/// A row that holds the cells of `filled` from cell `start` on holds
/// `filled` in the columns that start there.
pub proof fn lemma_fp_layout(
    cols: FpOpCols<Var>,
    filled: FpOpCols<u32>,
    start: usize,
    row: Seq<u32>,
)
    requires
        start + 188 <= row.len() <= usize::MAX,
        row.subrange(start as int, start + 188) == filled.flat(),
        forall|k: int| 0 <= k < 188 ==> filled.flat()[k] < order(),
        cols.flat() == run(start as int, 188),
    ensures
        fp_assigned(cols, filled, row),
{
    let vars = cols.flat();
    let flat = filled.flat();
    assert forall|k: int| 0 <= k < 188 implies cell(row, vars[k].0 as int) == flat[k] by {
        assert(vars[k] == Var((start + k) as usize));
        assert(row.subrange(start as int, start + 188)[k] == row[start + k]);
        assert(flat[k] < order());
    }
    assert(cells(cols.result.0@, row) =~= ints(filled.result.0@)) by {
        assert forall|i: int| 0 <= i < 32 implies cells(cols.result.0@, row)[i] == ints(
            filled.result.0@,
        )[i] by {
            assert(vars[i] == cols.result.0@[i] && flat[i] == filled.result.0@[i]);
        }
    }
    assert(cells(cols.carry.0@, row) =~= ints(filled.carry.0@)) by {
        assert forall|i: int| 0 <= i < 32 implies cells(cols.carry.0@, row)[i] == ints(
            filled.carry.0@,
        )[i] by {
            assert(vars[32 + i] == cols.carry.0@[i] && flat[32 + i] == filled.carry.0@[i]);
        }
    }
    assert(cells(cols.witness_low@, row) =~= ints(filled.witness_low@)) by {
        assert forall|i: int| 0 <= i < 62 implies cells(cols.witness_low@, row)[i] == ints(
            filled.witness_low@,
        )[i] by {
            assert(vars[64 + i] == cols.witness_low@[i] && flat[64 + i] == filled.witness_low@[i]);
        }
    }
    assert(cells(cols.witness_high@, row) =~= ints(filled.witness_high@)) by {
        assert forall|i: int| 0 <= i < 62 implies cells(cols.witness_high@, row)[i] == ints(
            filled.witness_high@,
        )[i] by {
            assert(vars[126 + i] == cols.witness_high@[i] && flat[126 + i]
                == filled.witness_high@[i]);
        }
    }
}

} // verus!
