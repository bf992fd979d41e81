//! Addition of four 32-bit words with the carry of each byte made explicit.

use crate::builder::{
    all_hold, lemma_all_hold_concat, lemma_bool_holds, lemma_eq_holds, lemma_zero_holds,
    ByteOpcode, Constraint, ConstraintBuilder,
};
use crate::expr::{cell, difference, product, sum, var, Expr, Var};
use crate::field::{f_add, lemma_f_add, lemma_f_sub, order};
use crate::segment::Segment;
use crate::word::{
    le_byte, le_bytes, lemma_le_byte_bounds, lemma_le_byte_of_digits, u32_to_le_bytes, word_of,
    Word,
};
use vstd::prelude::*;

verus! {

/// The columns that show `a + b + c + d` on 32-bit words.
#[derive(Clone, Copy, Debug)]
pub struct Add4Operation<T> {
    /// The result of `a + b + c + d`.
    pub value: Word<T>,
    /// Whether the carry out of the `i`th byte is 0.
    pub is_carry_0: Word<T>,
    /// Whether the carry out of the `i`th byte is 1.
    pub is_carry_1: Word<T>,
    /// Whether the carry out of the `i`th byte is 2.
    pub is_carry_2: Word<T>,
    /// Whether the carry out of the `i`th byte is 3, the largest that four
    /// summands can give.
    pub is_carry_3: Word<T>,
    /// The carry out of the `i`th byte.
    pub carry: Word<T>,
}

/// The sum of four words, reduced modulo `2^32`.
pub open spec fn wrapping_sum4(a: u32, b: u32, c: u32, d: u32) -> u32 {
    ((a as int + b as int + c as int + d as int) % 0x1_0000_0000) as u32
}

/// What byte `i` of the four summands and the carry into it add up to.
pub open spec fn byte_sum(a: u32, b: u32, c: u32, d: u32, i: int) -> int
    decreases i,
{
    let carry_in = if i > 0 {
        byte_sum(a, b, c, d, i - 1) / 256
    } else {
        0
    };
    le_byte(a, i) + le_byte(b, i) + le_byte(c, i) + le_byte(d, i) + carry_in
}

/// The carry out of byte `i`.
pub open spec fn carry_out(a: u32, b: u32, c: u32, d: u32, i: int) -> int {
    byte_sum(a, b, c, d, i) / 256
}

/// One if the carry out of byte `i` is `k`, zero otherwise.
pub open spec fn carry_flag(a: u32, b: u32, c: u32, d: u32, i: int, k: int) -> u32 {
    if carry_out(a, b, c, d, i) == k {
        1
    } else {
        0
    }
}

/// The word of the flags "the carry is `k`", one per byte.
pub open spec fn carry_flags(a: u32, b: u32, c: u32, d: u32, k: int) -> Word<u32> {
    Word(
        [
            carry_flag(a, b, c, d, 0, k),
            carry_flag(a, b, c, d, 1, k),
            carry_flag(a, b, c, d, 2, k),
            carry_flag(a, b, c, d, 3, k),
        ],
    )
}

/// The row that shows the sum of `a`, `b`, `c` and `d`.
pub open spec fn add4_row(a: u32, b: u32, c: u32, d: u32) -> Add4Operation<u32> {
    Add4Operation {
        value: word_of(wrapping_sum4(a, b, c, d)),
        is_carry_0: carry_flags(a, b, c, d, 0),
        is_carry_1: carry_flags(a, b, c, d, 1),
        is_carry_2: carry_flags(a, b, c, d, 2),
        is_carry_3: carry_flags(a, b, c, d, 3),
        carry: Word(
            [
                carry_out(a, b, c, d, 0) as u32,
                carry_out(a, b, c, d, 1) as u32,
                carry_out(a, b, c, d, 2) as u32,
                carry_out(a, b, c, d, 3) as u32,
            ],
        ),
    }
}

/// The carry out of each byte is at most 3, and each byte of the wrapping
/// sum is what the byte's column sum leaves below 256.
pub proof fn lemma_byte_sums(a: u32, b: u32, c: u32, d: u32)
    ensures
        forall|i: int|
            0 <= i < 4 ==> 0 <= #[trigger] carry_out(a, b, c, d, i) <= 3 && le_byte(
                wrapping_sum4(a, b, c, d),
                i,
            ) == byte_sum(a, b, c, d, i) % 256,
{
    let s = wrapping_sum4(a, b, c, d);
    reveal_with_fuel(byte_sum, 5);
    let s0 = byte_sum(a, b, c, d, 0);
    let s1 = byte_sum(a, b, c, d, 1);
    let s2 = byte_sum(a, b, c, d, 2);
    let s3 = byte_sum(a, b, c, d, 3);
    lemma_le_byte_bounds(a);
    lemma_le_byte_bounds(b);
    lemma_le_byte_bounds(c);
    lemma_le_byte_bounds(d);
    assert(s0 == le_byte(a, 0) + le_byte(b, 0) + le_byte(c, 0) + le_byte(d, 0));
    assert(s1 == le_byte(a, 1) + le_byte(b, 1) + le_byte(c, 1) + le_byte(d, 1) + s0 / 256);
    assert(s2 == le_byte(a, 2) + le_byte(b, 2) + le_byte(c, 2) + le_byte(d, 2) + s1 / 256);
    assert(s3 == le_byte(a, 3) + le_byte(b, 3) + le_byte(c, 3) + le_byte(d, 3) + s2 / 256);
    assert(0 <= s0 <= 1020);
    assert(0 <= s0 / 256 <= 3);
    assert(0 <= s1 <= 1023);
    assert(0 <= s1 / 256 <= 3);
    assert(0 <= s2 <= 1023);
    assert(0 <= s2 / 256 <= 3);
    assert(0 <= s3 <= 1023);
    assert(0 <= s3 / 256 <= 3);
    let t = a as int + b as int + c as int + d as int;
    let r = s0 % 256 + 256 * (s1 % 256) + 65536 * (s2 % 256) + 16777216 * (s3 % 256);
    assert(s0 == 256 * (s0 / 256) + s0 % 256);
    assert(s1 == 256 * (s1 / 256) + s1 % 256);
    assert(s2 == 256 * (s2 / 256) + s2 % 256);
    assert(s3 == 256 * (s3 / 256) + s3 % 256);
    assert(t == r + 0x1_0000_0000 * (s3 / 256));
    assert(0 <= r < 0x1_0000_0000);
    assert(t % 0x1_0000_0000 == r) by {
        vstd::arithmetic::div_mod::lemma_fundamental_div_mod_converse(
            t,
            0x1_0000_0000,
            s3 / 256,
            r,
        );
    }
    assert(s as int == r);
    lemma_le_byte_of_digits(s, s0 % 256, s1 % 256, s2 % 256, s3 % 256);
    assert(carry_out(a, b, c, d, 0) == s0 / 256);
    assert(carry_out(a, b, c, d, 1) == s1 / 256);
    assert(carry_out(a, b, c, d, 2) == s2 / 256);
    assert(carry_out(a, b, c, d, 3) == s3 / 256);
}

impl Add4Operation<u32> {
    /// A row of zero cells, to be filled by `populate`.
    pub fn new() -> (row: Self)
        ensures
            row.value.0@ == seq![0u32, 0u32, 0u32, 0u32],
            row.is_carry_0 == row.value,
            row.is_carry_1 == row.value,
            row.is_carry_2 == row.value,
            row.is_carry_3 == row.value,
            row.carry == row.value,
    {
        let zero = Word([0u32, 0u32, 0u32, 0u32]);
        Add4Operation {
            value: zero,
            is_carry_0: zero,
            is_carry_1: zero,
            is_carry_2: zero,
            is_carry_3: zero,
            carry: zero,
        }
    }

    /// Fills the row for `a + b + c + d`, registers the bytes of the four
    /// summands and of the sum for their range checks, and returns the sum.
    pub fn populate(
        &mut self,
        segment: &mut Segment,
        a_u32: u32,
        b_u32: u32,
        c_u32: u32,
        d_u32: u32,
    ) -> (expected: u32)
        ensures
            expected == wrapping_sum4(a_u32, b_u32, c_u32, d_u32),
            *final(self) == add4_row(a_u32, b_u32, c_u32, d_u32),
            final(segment)@ == old(segment)@ + le_bytes(a_u32) + le_bytes(b_u32) + le_bytes(c_u32)
                + le_bytes(d_u32) + le_bytes(expected),
    {
        let expected = sum4(a_u32, b_u32, c_u32, d_u32);
        self.value = Word::from_u32(expected);
        let a = u32_to_le_bytes(a_u32);
        let b = u32_to_le_bytes(b_u32);
        let c = u32_to_le_bytes(c_u32);
        let d = u32_to_le_bytes(d_u32);

        let carry = byte_carries(&a, &b, &c, &d, Ghost((a_u32, b_u32, c_u32, d_u32)));
        self.is_carry_0 = flags_of(&carry, 0);
        self.is_carry_1 = flags_of(&carry, 1);
        self.is_carry_2 = flags_of(&carry, 2);
        self.is_carry_3 = flags_of(&carry, 3);
        self.carry = Word([carry[0] as u32, carry[1] as u32, carry[2] as u32, carry[3] as u32]);

        segment.add_u8_range_checks(&a);
        segment.add_u8_range_checks(&b);
        segment.add_u8_range_checks(&c);
        segment.add_u8_range_checks(&d);
        let sum_bytes = u32_to_le_bytes(expected);
        segment.add_u8_range_checks(&sum_bytes);
        proof {
            let target = add4_row(a_u32, b_u32, c_u32, d_u32);
            assert(self.is_carry_0.0 =~= target.is_carry_0.0);
            assert(self.is_carry_1.0 =~= target.is_carry_1.0);
            assert(self.is_carry_2.0 =~= target.is_carry_2.0);
            assert(self.is_carry_3.0 =~= target.is_carry_3.0);
            assert(self.carry.0 =~= target.carry.0);
        }
        expected
    }
}

/// Adds four words, wrapping at `2^32`.
fn sum4(a: u32, b: u32, c: u32, d: u32) -> (sum: u32)
    ensures
        sum == wrapping_sum4(a, b, c, d),
{
    a.wrapping_add(b).wrapping_add(c).wrapping_add(d)
}

/// The carry out of each byte position, from the least significant up.
fn byte_carries(
    a: &[u8; 4],
    b: &[u8; 4],
    c: &[u8; 4],
    d: &[u8; 4],
    Ghost(words): Ghost<(u32, u32, u32, u32)>,
) -> (carry: [u8; 4])
    requires
        forall|i: int| 0 <= i < 4 ==> a[i] as int == le_byte(words.0, i),
        forall|i: int| 0 <= i < 4 ==> b[i] as int == le_byte(words.1, i),
        forall|i: int| 0 <= i < 4 ==> c[i] as int == le_byte(words.2, i),
        forall|i: int| 0 <= i < 4 ==> d[i] as int == le_byte(words.3, i),
    ensures
        forall|j: int|
            0 <= j < 4 ==> carry[j] as int == carry_out(words.0, words.1, words.2, words.3, j),
{
    let base: u32 = 256;
    let mut carry = [0u8, 0u8, 0u8, 0u8];
    for i in 0..4usize
        invariant
            base == 256,
            forall|i: int| 0 <= i < 4 ==> a[i] as int == le_byte(words.0, i),
            forall|i: int| 0 <= i < 4 ==> b[i] as int == le_byte(words.1, i),
            forall|i: int| 0 <= i < 4 ==> c[i] as int == le_byte(words.2, i),
            forall|i: int| 0 <= i < 4 ==> d[i] as int == le_byte(words.3, i),
            forall|j: int|
                0 <= j < i ==> carry[j] as int == carry_out(
                    words.0,
                    words.1,
                    words.2,
                    words.3,
                    j,
                ),
    {
        let mut res: u32 = (a[i] as u32) + (b[i] as u32) + (c[i] as u32) + (d[i] as u32);
        if i > 0 {
            res += carry[i - 1] as u32;
        }
        assert(res as int == byte_sum(words.0, words.1, words.2, words.3, i as int));
        carry[i] = (res / base) as u8;
    }
    carry
}

/// The word that says of each carry whether it is `k`.
fn flags_of(carry: &[u8; 4], k: u8) -> (flags: Word<u32>)
    ensures
        forall|j: int| 0 <= j < 4 ==> flags.0[j] == if carry[j] == k { 1u32 } else { 0u32 },
{
    Word(
        [
            if carry[0] == k { 1 } else { 0 },
            if carry[1] == k { 1 } else { 0 },
            if carry[2] == k { 1 } else { 0 },
            if carry[3] == k { 1 } else { 0 },
        ],
    )
}

/// The cells whose range is looked up: the bytes of the four summands and
/// of the sum.
pub open spec fn checked_bytes(
    a: Word<Var>,
    b: Word<Var>,
    c: Word<Var>,
    d: Word<Var>,
    value: Word<Var>,
) -> Seq<Var> {
    a.0@ + b.0@ + c.0@ + d.0@ + value.0@
}

/// The lookup that range-checks the cells `first` and `second` on the rows
/// where `is_real` is one.
pub open spec fn range_check(first: Var, second: Var, is_real: Var) -> Constraint {
    Constraint::BytePair {
        opcode: ByteOpcode::U8Range,
        aux1: Expr::Constant(0),
        aux2: Expr::Constant(0),
        first: var(first),
        second: var(second),
        multiplicity: var(is_real),
    }
}

/// The lookups for `bytes`, two cells at a time.
pub open spec fn range_checks(bytes: Seq<Var>, is_real: Var) -> Seq<Constraint> {
    Seq::new(bytes.len() / 2, |k: int| range_check(bytes[2 * k], bytes[2 * k + 1], is_real))
}

/// For byte `i`: each indicator is zero or one, and the four add up to one.
pub open spec fn flag_constraints(is_real: Var, cols: Add4Operation<Var>, i: int) -> Seq<
    Constraint,
> {
    seq![
        Constraint::AssertBool { when: Some(var(is_real)), value: var(cols.is_carry_0.0[i]) },
        Constraint::AssertBool { when: Some(var(is_real)), value: var(cols.is_carry_1.0[i]) },
        Constraint::AssertBool { when: Some(var(is_real)), value: var(cols.is_carry_2.0[i]) },
        Constraint::AssertBool { when: Some(var(is_real)), value: var(cols.is_carry_3.0[i]) },
        Constraint::AssertEq {
            when: Some(var(is_real)),
            left: sum(
                sum(
                    sum(var(cols.is_carry_0.0[i]), var(cols.is_carry_1.0[i])),
                    var(cols.is_carry_2.0[i]),
                ),
                var(cols.is_carry_3.0[i]),
            ),
            right: Expr::Constant(1),
        },
    ]
}

/// The indicator constraints of the bytes below `n`.
pub open spec fn flag_constraints_upto(is_real: Var, cols: Add4Operation<Var>, n: int) -> Seq<
    Constraint,
>
    decreases n,
{
    if n <= 0 {
        Seq::empty()
    } else {
        flag_constraints_upto(is_real, cols, n - 1) + flag_constraints(is_real, cols, n - 1)
    }
}

/// For byte `i`: the carry is the number that the indicators encode.
pub open spec fn carry_constraint(is_real: Var, cols: Add4Operation<Var>, i: int) -> Constraint {
    Constraint::AssertEq {
        when: Some(var(is_real)),
        left: var(cols.carry.0[i]),
        right: sum(
            sum(
                product(var(cols.is_carry_1.0[i]), Expr::Constant(1)),
                product(var(cols.is_carry_2.0[i]), Expr::Constant(2)),
            ),
            product(var(cols.is_carry_3.0[i]), Expr::Constant(3)),
        ),
    }
}

/// What byte `i` of the summands exceeds byte `i` of the sum by, the carry
/// into the byte included.
pub open spec fn overflow_expr(
    a: Word<Var>,
    b: Word<Var>,
    c: Word<Var>,
    d: Word<Var>,
    cols: Add4Operation<Var>,
    i: int,
) -> Expr {
    let column = difference(
        sum(sum(sum(var(a.0[i]), var(b.0[i])), var(c.0[i])), var(d.0[i])),
        var(cols.value.0[i]),
    );
    if i > 0 {
        sum(column, var(cols.carry.0[i - 1]))
    } else {
        column
    }
}

/// For byte `i`: the carry times 256 is the overflow of the byte.
pub open spec fn overflow_constraint(
    a: Word<Var>,
    b: Word<Var>,
    c: Word<Var>,
    d: Word<Var>,
    is_real: Var,
    cols: Add4Operation<Var>,
    i: int,
) -> Constraint {
    Constraint::AssertEq {
        when: Some(var(is_real)),
        left: product(var(cols.carry.0[i]), Expr::Constant(256)),
        right: overflow_expr(a, b, c, d, cols, i),
    }
}

/// A constraint of degree three that every row meets; it keeps the degree
/// of the whole set at three.
pub open spec fn degree_constraint(a: Word<Var>, b: Word<Var>, value: Word<Var>) -> Constraint {
    let cube = product(product(var(a.0[0]), var(b.0[0])), var(value.0[0]));
    Constraint::AssertZero { when: None, value: difference(cube, cube) }
}

/// The constraints that tie a row of columns `cols` to the sum of the words
/// in `a`, `b`, `c` and `d`, in the order in which `eval` asserts them.
pub open spec fn add4_constraints(
    a: Word<Var>,
    b: Word<Var>,
    c: Word<Var>,
    d: Word<Var>,
    is_real: Var,
    cols: Add4Operation<Var>,
) -> Seq<Constraint> {
    range_checks(checked_bytes(a, b, c, d, cols.value), is_real) + seq![
        Constraint::AssertBool { when: None, value: var(is_real) },
    ] + flag_constraints_upto(is_real, cols, 4) + Seq::new(
        4,
        |i: int| carry_constraint(is_real, cols, i),
    ) + Seq::new(4, |i: int| overflow_constraint(a, b, c, d, is_real, cols, i)) + seq![
        degree_constraint(a, b, cols.value),
    ]
}

/// Whether `row` holds `values` in the cells `vars`.
pub open spec fn word_assigned(vars: Word<Var>, values: Word<u32>, row: Seq<u32>) -> bool {
    forall|i: int| 0 <= i < 4 ==> cell(row, (#[trigger] vars.0[i]).0 as int) == values.0[i]
}

/// Whether `row` holds the row `values` in the columns `cols`.
pub open spec fn columns_assigned(
    cols: Add4Operation<Var>,
    values: Add4Operation<u32>,
    row: Seq<u32>,
) -> bool {
    &&& word_assigned(cols.value, values.value, row)
    &&& word_assigned(cols.is_carry_0, values.is_carry_0, row)
    &&& word_assigned(cols.is_carry_1, values.is_carry_1, row)
    &&& word_assigned(cols.is_carry_2, values.is_carry_2, row)
    &&& word_assigned(cols.is_carry_3, values.is_carry_3, row)
    &&& word_assigned(cols.carry, values.carry, row)
}

/// In the row of a sum, exactly one indicator of each byte is one, the
/// others are zero, and the carry is the number of the one that is set,
/// which is at most 3.
pub proof fn lemma_add4_row_one_hot(a: u32, b: u32, c: u32, d: u32, i: int)
    requires
        0 <= i < 4,
    ensures
        ({
            let row = add4_row(a, b, c, d);
            let f0 = row.is_carry_0.0[i];
            let f1 = row.is_carry_1.0[i];
            let f2 = row.is_carry_2.0[i];
            let f3 = row.is_carry_3.0[i];
            &&& f0 <= 1 && f1 <= 1 && f2 <= 1 && f3 <= 1
            &&& f0 + f1 + f2 + f3 == 1
            &&& row.carry.0[i] == f1 + 2 * f2 + 3 * f3
            &&& row.carry.0[i] <= 3
            &&& row.carry.0[i] == carry_out(a, b, c, d, i)
            &&& row.value.0[i] == byte_sum(a, b, c, d, i) % 256
        }),
{
    lemma_byte_sums(a, b, c, d);
    lemma_le_byte_bounds(wrapping_sum4(a, b, c, d));
    assert(0 <= carry_out(a, b, c, d, i) <= 3);
}

/// The row that `populate` writes meets every constraint that `eval`
/// asserts, whatever `is_real` is, as long as it is zero or one.
pub proof fn lemma_add4_round_trip(
    a_u32: u32,
    b_u32: u32,
    c_u32: u32,
    d_u32: u32,
    a: Word<Var>,
    b: Word<Var>,
    c: Word<Var>,
    d: Word<Var>,
    is_real: Var,
    cols: Add4Operation<Var>,
    row: Seq<u32>,
)
    requires
        word_assigned(a, word_of(a_u32), row),
        word_assigned(b, word_of(b_u32), row),
        word_assigned(c, word_of(c_u32), row),
        word_assigned(d, word_of(d_u32), row),
        columns_assigned(cols, add4_row(a_u32, b_u32, c_u32, d_u32), row),
        cell(row, is_real.0 as int) == 0 || cell(row, is_real.0 as int) == 1,
    ensures
        all_hold(add4_constraints(a, b, c, d, is_real, cols), row),
{
    let p1 = range_checks(checked_bytes(a, b, c, d, cols.value), is_real);
    let p2 = seq![Constraint::AssertBool { when: None, value: var(is_real) }];
    let p3 = flag_constraints_upto(is_real, cols, 4);
    let p4 = Seq::new(4, |i: int| carry_constraint(is_real, cols, i));
    let p5 = Seq::new(4, |i: int| overflow_constraint(a, b, c, d, is_real, cols, i));
    let p6 = seq![degree_constraint(a, b, cols.value)];

    assert(all_hold(p1, row)) by {
        lemma_word_holds_bytes(a, a_u32, row);
        lemma_word_holds_bytes(b, b_u32, row);
        lemma_word_holds_bytes(c, c_u32, row);
        lemma_word_holds_bytes(d, d_u32, row);
        lemma_word_holds_bytes(cols.value, wrapping_sum4(a_u32, b_u32, c_u32, d_u32), row);
        lemma_range_checks_hold(a, b, c, d, cols.value, is_real, row);
    }
    assert(all_hold(p2, row)) by {
        lemma_bool_holds(None, var(is_real), row);
    }
    assert(all_hold(p3, row)) by {
        lemma_flags_hold(a_u32, b_u32, c_u32, d_u32, is_real, cols, row, 4);
    }
    assert(all_hold(p4, row)) by {
        assert forall|i: int| 0 <= i < 4 implies (#[trigger] p4[i]).holds(row) by {
            lemma_carry_holds(a_u32, b_u32, c_u32, d_u32, is_real, cols, row, i);
        }
    }
    assert(all_hold(p5, row)) by {
        assert forall|i: int| 0 <= i < 4 implies (#[trigger] p5[i]).holds(row) by {
            lemma_overflow_holds(a_u32, b_u32, c_u32, d_u32, a, b, c, d, is_real, cols, row, i);
        }
    }
    assert(all_hold(p6, row)) by {
        let cube = product(product(var(a.0[0]), var(b.0[0])), var(cols.value.0[0]));
        cube.lemma_value_canonical(row);
        assert(difference(cube, cube).value(row) == 0);
        lemma_zero_holds(None, difference(cube, cube), row);
    }
    lemma_all_hold_concat(p1, p2, row);
    lemma_all_hold_concat(p1 + p2, p3, row);
    lemma_all_hold_concat(p1 + p2 + p3, p4, row);
    lemma_all_hold_concat(p1 + p2 + p3 + p4, p5, row);
    lemma_all_hold_concat(p1 + p2 + p3 + p4 + p5, p6, row);
}

/// Whether `row` holds a value below 256 in each cell of `vars`.
pub open spec fn holds_bytes(vars: Word<Var>, row: Seq<u32>) -> bool {
    forall|i: int| 0 <= i < 4 ==> cell(row, (#[trigger] vars.0[i]).0 as int) < 256
}

/// Cells that hold the bytes of a number hold bytes.
proof fn lemma_word_holds_bytes(vars: Word<Var>, x: u32, row: Seq<u32>)
    requires
        word_assigned(vars, word_of(x), row),
    ensures
        holds_bytes(vars, row),
{
    lemma_le_byte_bounds(x);
    assert forall|i: int| 0 <= i < 4 implies cell(row, (#[trigger] vars.0[i]).0 as int)
        < 256 by {
        assert(word_of(x).0[i] == le_byte(x, i));
    }
}

/// The range checks of five words hold on a row that holds bytes in their
/// cells.
proof fn lemma_range_checks_hold(
    a: Word<Var>,
    b: Word<Var>,
    c: Word<Var>,
    d: Word<Var>,
    value: Word<Var>,
    is_real: Var,
    row: Seq<u32>,
)
    requires
        holds_bytes(a, row),
        holds_bytes(b, row),
        holds_bytes(c, row),
        holds_bytes(d, row),
        holds_bytes(value, row),
    ensures
        all_hold(range_checks(checked_bytes(a, b, c, d, value), is_real), row),
{
    let bytes = checked_bytes(a, b, c, d, value);
    let p1 = range_checks(bytes, is_real);
    assert(bytes.len() == 20);
    assert forall|k: int| 0 <= k < 20 implies cell(row, (#[trigger] bytes[k]).0 as int) < 256 by {
        if k < 4 {
            assert(bytes[k] == a.0[k]);
        } else if k < 8 {
            assert(bytes[k] == b.0[k - 4]);
        } else if k < 12 {
            assert(bytes[k] == c.0[k - 8]);
        } else if k < 16 {
            assert(bytes[k] == d.0[k - 12]);
        } else {
            assert(bytes[k] == value.0[k - 16]);
        }
    }
    assert forall|k: int| 0 <= k < p1.len() implies (#[trigger] p1[k]).holds(row) by {
        assert(cell(row, bytes[2 * k].0 as int) < 256);
        assert(cell(row, bytes[2 * k + 1].0 as int) < 256);
        assert(var(bytes[2 * k]).value(row) < 256);
        assert(var(bytes[2 * k + 1]).value(row) < 256);
        assert(Expr::Constant(0).value(row) == 0);
    }
}

/// The carry constraint of byte `i` holds on a populated row.
proof fn lemma_carry_holds(
    a_u32: u32,
    b_u32: u32,
    c_u32: u32,
    d_u32: u32,
    is_real: Var,
    cols: Add4Operation<Var>,
    row: Seq<u32>,
    i: int,
)
    requires
        0 <= i < 4,
        columns_assigned(cols, add4_row(a_u32, b_u32, c_u32, d_u32), row),
    ensures
        carry_constraint(is_real, cols, i).holds(row),
{
    let values = add4_row(a_u32, b_u32, c_u32, d_u32);
    lemma_add4_row_one_hot(a_u32, b_u32, c_u32, d_u32, i);
    assert(cell(row, cols.carry.0[i].0 as int) == values.carry.0[i]);
    assert(cell(row, cols.is_carry_1.0[i].0 as int) == values.is_carry_1.0[i]);
    assert(cell(row, cols.is_carry_2.0[i].0 as int) == values.is_carry_2.0[i]);
    assert(cell(row, cols.is_carry_3.0[i].0 as int) == values.is_carry_3.0[i]);
    let t1 = product(var(cols.is_carry_1.0[i]), Expr::Constant(1));
    let t2 = product(var(cols.is_carry_2.0[i]), Expr::Constant(2));
    let t3 = product(var(cols.is_carry_3.0[i]), Expr::Constant(3));
    assert(var(cols.carry.0[i]).value(row) == values.carry.0[i]);
    assert(var(cols.is_carry_1.0[i]).value(row) == values.is_carry_1.0[i]);
    assert(var(cols.is_carry_2.0[i]).value(row) == values.is_carry_2.0[i]);
    assert(var(cols.is_carry_3.0[i]).value(row) == values.is_carry_3.0[i]);
    assert(Expr::Constant(1).value(row) == 1);
    assert(Expr::Constant(2).value(row) == 2);
    assert(Expr::Constant(3).value(row) == 3);
    assert(t1.value(row) == values.is_carry_1.0[i]);
    assert(t2.value(row) == 2 * values.is_carry_2.0[i]);
    assert(t3.value(row) == 3 * values.is_carry_3.0[i]);
    assert(sum(t1, t2).value(row) == values.is_carry_1.0[i] + 2 * values.is_carry_2.0[i]);
    assert(sum(sum(t1, t2), t3).value(row) == values.carry.0[i]);
    lemma_eq_holds(Some(var(is_real)), var(cols.carry.0[i]), sum(sum(t1, t2), t3), row);
}

/// The indicator constraints of the bytes below `n` hold on a populated row.
proof fn lemma_flags_hold(
    a_u32: u32,
    b_u32: u32,
    c_u32: u32,
    d_u32: u32,
    is_real: Var,
    cols: Add4Operation<Var>,
    row: Seq<u32>,
    n: int,
)
    requires
        0 <= n <= 4,
        columns_assigned(cols, add4_row(a_u32, b_u32, c_u32, d_u32), row),
    ensures
        all_hold(flag_constraints_upto(is_real, cols, n), row),
    decreases n,
{
    if n > 0 {
        let i = n - 1;
        let values = add4_row(a_u32, b_u32, c_u32, d_u32);
        lemma_flags_hold(a_u32, b_u32, c_u32, d_u32, is_real, cols, row, i);
        lemma_add4_row_one_hot(a_u32, b_u32, c_u32, d_u32, i);
        assert(cell(row, cols.is_carry_0.0[i].0 as int) == values.is_carry_0.0[i]);
        assert(cell(row, cols.is_carry_1.0[i].0 as int) == values.is_carry_1.0[i]);
        assert(cell(row, cols.is_carry_2.0[i].0 as int) == values.is_carry_2.0[i]);
        assert(cell(row, cols.is_carry_3.0[i].0 as int) == values.is_carry_3.0[i]);
        let these = flag_constraints(is_real, cols, i);
        let when = Some(var(is_real));
        let f0 = var(cols.is_carry_0.0[i]);
        let f1 = var(cols.is_carry_1.0[i]);
        let f2 = var(cols.is_carry_2.0[i]);
        let f3 = var(cols.is_carry_3.0[i]);
        lemma_bool_holds(when, f0, row);
        lemma_bool_holds(when, f1, row);
        lemma_bool_holds(when, f2, row);
        lemma_bool_holds(when, f3, row);
        assert(sum(f0, f1).value(row) == f0.value(row) + f1.value(row));
        assert(sum(sum(f0, f1), f2).value(row) == f0.value(row) + f1.value(row) + f2.value(row));
        assert(sum(sum(sum(f0, f1), f2), f3).value(row) == 1);
        assert(Expr::Constant(1).value(row) == 1);
        lemma_eq_holds(when, sum(sum(sum(f0, f1), f2), f3), Expr::Constant(1), row);
        assert forall|k: int| 0 <= k < these.len() implies (#[trigger] these[k]).holds(row) by {
            if k == 0 {
            } else if k == 1 {
            } else if k == 2 {
            } else if k == 3 {
            } else {
            }
        }
        lemma_all_hold_concat(flag_constraints_upto(is_real, cols, i), these, row);
    }
}

/// The value of the overflow expression of byte `i`, from the cells it reads.
proof fn lemma_overflow_value(
    a: Word<Var>,
    b: Word<Var>,
    c: Word<Var>,
    d: Word<Var>,
    cols: Add4Operation<Var>,
    row: Seq<u32>,
    i: int,
)
    requires
        0 <= i < 4,
    ensures
        overflow_expr(a, b, c, d, cols, i).value(row) == (cell(row, a.0[i].0 as int) + cell(
            row,
            b.0[i].0 as int,
        ) + cell(row, c.0[i].0 as int) + cell(row, d.0[i].0 as int) - cell(
            row,
            cols.value.0[i].0 as int,
        ) + if i > 0 {
            cell(row, cols.carry.0[i - 1].0 as int)
        } else {
            0
        }) % order(),
{
    let av = cell(row, a.0[i].0 as int);
    let bv = cell(row, b.0[i].0 as int);
    let cv = cell(row, c.0[i].0 as int);
    let dv = cell(row, d.0[i].0 as int);
    let sv = cell(row, cols.value.0[i].0 as int);
    let ab = sum(var(a.0[i]), var(b.0[i]));
    let abc = sum(ab, var(c.0[i]));
    let abcd = sum(abc, var(d.0[i]));
    let column = difference(abcd, var(cols.value.0[i]));
    assert(var(a.0[i]).value(row) == av);
    assert(var(b.0[i]).value(row) == bv);
    assert(var(c.0[i]).value(row) == cv);
    assert(var(d.0[i]).value(row) == dv);
    assert(var(cols.value.0[i]).value(row) == sv);
    assert(ab.value(row) == f_add(av, bv));
    lemma_f_add(ab.value(row), cv, av + bv, cv);
    assert(abc.value(row) == (av + bv + cv) % order());
    lemma_f_add(abc.value(row), dv, av + bv + cv, dv);
    assert(abcd.value(row) == (av + bv + cv + dv) % order());
    lemma_f_sub(abcd.value(row), sv, av + bv + cv + dv, sv);
    assert(column.value(row) == (av + bv + cv + dv - sv) % order());
    if i > 0 {
        let pv = cell(row, cols.carry.0[i - 1].0 as int);
        assert(var(cols.carry.0[i - 1]).value(row) == pv);
        lemma_f_add(column.value(row), pv, av + bv + cv + dv - sv, pv);
    }
}

/// The overflow constraint of byte `i` holds on a populated row.
proof fn lemma_overflow_holds(
    a_u32: u32,
    b_u32: u32,
    c_u32: u32,
    d_u32: u32,
    a: Word<Var>,
    b: Word<Var>,
    c: Word<Var>,
    d: Word<Var>,
    is_real: Var,
    cols: Add4Operation<Var>,
    row: Seq<u32>,
    i: int,
)
    requires
        0 <= i < 4,
        word_assigned(a, word_of(a_u32), row),
        word_assigned(b, word_of(b_u32), row),
        word_assigned(c, word_of(c_u32), row),
        word_assigned(d, word_of(d_u32), row),
        columns_assigned(cols, add4_row(a_u32, b_u32, c_u32, d_u32), row),
    ensures
        overflow_constraint(a, b, c, d, is_real, cols, i).holds(row),
{
    let values = add4_row(a_u32, b_u32, c_u32, d_u32);
    lemma_add4_row_one_hot(a_u32, b_u32, c_u32, d_u32, i);
    lemma_overflow_value(a, b, c, d, cols, row, i);
    let av = cell(row, a.0[i].0 as int);
    let bv = cell(row, b.0[i].0 as int);
    let cv = cell(row, c.0[i].0 as int);
    let dv = cell(row, d.0[i].0 as int);
    let sv = cell(row, cols.value.0[i].0 as int);
    let kv = cell(row, cols.carry.0[i].0 as int);
    let pv = if i > 0 {
        cell(row, cols.carry.0[i - 1].0 as int)
    } else {
        0
    };
    assert(av == word_of(a_u32).0[i]);
    assert(bv == word_of(b_u32).0[i]);
    assert(cv == word_of(c_u32).0[i]);
    assert(dv == word_of(d_u32).0[i]);
    assert(sv == values.value.0[i]);
    assert(kv == values.carry.0[i]);
    let total = byte_sum(a_u32, b_u32, c_u32, d_u32, i);
    assert(av + bv + cv + dv + pv == total) by {
        lemma_le_byte_bounds(a_u32);
        lemma_le_byte_bounds(b_u32);
        lemma_le_byte_bounds(c_u32);
        lemma_le_byte_bounds(d_u32);
        if i > 0 {
            lemma_add4_row_one_hot(a_u32, b_u32, c_u32, d_u32, i - 1);
            assert(pv == values.carry.0[i - 1]);
        }
    }
    assert(av + bv + cv + dv - sv + pv == 256 * kv) by {
        assert(total == 256 * (total / 256) + total % 256);
    }
    let left = product(var(cols.carry.0[i]), Expr::Constant(256));
    assert(left.value(row) == 256 * kv) by {
        assert(var(cols.carry.0[i]).value(row) == kv);
        assert(Expr::Constant(256).value(row) == 256);
    }
    assert(0 <= 256 * kv < order());
    lemma_eq_holds(Some(var(is_real)), left, overflow_expr(a, b, c, d, cols, i), row);
}

impl Add4Operation<Var> {
    /// Asserts on `builder` that the row with columns `cols` shows the sum
    /// of the words in `a`, `b`, `c` and `d`, and requests the range checks
    /// of their bytes. All of it binds only the rows where `is_real` is one.
    pub fn eval(
        builder: &mut ConstraintBuilder,
        a: Word<Var>,
        b: Word<Var>,
        c: Word<Var>,
        d: Word<Var>,
        is_real: Var,
        cols: Add4Operation<Var>,
    )
        ensures
            final(builder)@ == old(builder)@ + add4_constraints(a, b, c, d, is_real, cols),
    {
        let ghost before = builder@;
        let bytes = gather_bytes(&a, &b, &c, &d, &cols.value);
        send_range_checks(builder, &bytes, is_real);

        builder.assert_bool(Expr::var(is_real));
        assert_flags(builder, is_real, &cols);
        assert_carries(builder, is_real, &cols);
        assert_overflows(builder, &a, &b, &c, &d, is_real, &cols);

        let cube = Expr::var(a.0[0]).times(Expr::var(b.0[0])).times(Expr::var(cols.value.0[0]));
        let cube_again = Expr::var(a.0[0]).times(Expr::var(b.0[0])).times(
            Expr::var(cols.value.0[0]),
        );
        builder.assert_zero(cube.minus(cube_again));
        assert(builder@ =~= before + add4_constraints(a, b, c, d, is_real, cols));
    }
}

/// The cells of the five words in one list.
fn gather_bytes(
    a: &Word<Var>,
    b: &Word<Var>,
    c: &Word<Var>,
    d: &Word<Var>,
    value: &Word<Var>,
) -> (bytes: Vec<Var>)
    ensures
        bytes@ == checked_bytes(*a, *b, *c, *d, *value),
{
    let mut bytes: Vec<Var> = Vec::new();
    let words = [*a, *b, *c, *d, *value];
    for w in 0..5usize
        invariant
            words@ == seq![*a, *b, *c, *d, *value],
            bytes@.len() == 4 * w,
            forall|k: int| 0 <= k < 4 * w ==> bytes@[k] == #[trigger] words[k / 4].0[k % 4],
    {
        for i in 0..4usize
            invariant
                w < 5,
                words@ == seq![*a, *b, *c, *d, *value],
                bytes@.len() == 4 * w + i,
                forall|k: int|
                    0 <= k < 4 * w + i ==> bytes@[k] == #[trigger] words[k / 4].0[k % 4],
        {
            bytes.push(words[w].0[i]);
        }
    }
    proof {
        let all = checked_bytes(*a, *b, *c, *d, *value);
        assert(all.len() == 20);
        assert forall|k: int| 0 <= k < 20 implies bytes@[k] == all[k] by {
            assert(bytes@[k] == words[k / 4].0[k % 4]);
        }
        assert(bytes@ =~= all);
    }
    bytes
}

/// Requests the range check of `bytes`, two cells at a time.
fn send_range_checks(builder: &mut ConstraintBuilder, bytes: &Vec<Var>, is_real: Var)
    requires
        bytes@.len() % 2 == 0,
    ensures
        final(builder)@ == old(builder)@ + range_checks(bytes@, is_real),
{
    let pairs = bytes.len() / 2;
    for k in 0..pairs
        invariant
            2 * pairs == bytes@.len() <= usize::MAX,
            builder@ == old(builder)@ + range_checks(bytes@, is_real).take(k as int),
    {
        builder.send_byte_pair(
            ByteOpcode::U8Range,
            Expr::Constant(0),
            Expr::Constant(0),
            Expr::var(bytes[2 * k]),
            Expr::var(bytes[2 * k + 1]),
            Expr::var(is_real),
        );
        assert(builder@ =~= old(builder)@ + range_checks(bytes@, is_real).take(k + 1));
    }
    assert(range_checks(bytes@, is_real).take(pairs as int) =~= range_checks(bytes@, is_real));
}

/// Asserts that the indicators of each byte are boolean and add up to one.
fn assert_flags(builder: &mut ConstraintBuilder, is_real: Var, cols: &Add4Operation<Var>)
    ensures
        final(builder)@ == old(builder)@ + flag_constraints_upto(is_real, *cols, 4),
{
    for i in 0..4usize
        invariant
            builder@ == old(builder)@ + flag_constraints_upto(is_real, *cols, i as int),
    {
        let ghost start = builder@;
        builder.when_assert_bool(Expr::var(is_real), Expr::var(cols.is_carry_0.0[i]));
        builder.when_assert_bool(Expr::var(is_real), Expr::var(cols.is_carry_1.0[i]));
        builder.when_assert_bool(Expr::var(is_real), Expr::var(cols.is_carry_2.0[i]));
        builder.when_assert_bool(Expr::var(is_real), Expr::var(cols.is_carry_3.0[i]));
        builder.when_assert_eq(
            Expr::var(is_real),
            Expr::var(cols.is_carry_0.0[i]).plus(Expr::var(cols.is_carry_1.0[i])).plus(
                Expr::var(cols.is_carry_2.0[i]),
            ).plus(Expr::var(cols.is_carry_3.0[i])),
            Expr::Constant(1),
        );
        assert(builder@ =~= start + flag_constraints(is_real, *cols, i as int));
        assert(builder@ =~= old(builder)@ + flag_constraints_upto(is_real, *cols, i + 1));
    }
}

/// Asserts that each carry is the number that its indicators encode.
fn assert_carries(builder: &mut ConstraintBuilder, is_real: Var, cols: &Add4Operation<Var>)
    ensures
        final(builder)@ == old(builder)@ + Seq::new(
            4,
            |i: int| carry_constraint(is_real, *cols, i),
        ),
{
    let ghost all = Seq::new(4, |i: int| carry_constraint(is_real, *cols, i));
    for i in 0..4usize
        invariant
            all == Seq::new(4, |i: int| carry_constraint(is_real, *cols, i)),
            builder@ == old(builder)@ + all.take(i as int),
    {
        builder.when_assert_eq(
            Expr::var(is_real),
            Expr::var(cols.carry.0[i]),
            Expr::var(cols.is_carry_1.0[i]).times(Expr::Constant(1)).plus(
                Expr::var(cols.is_carry_2.0[i]).times(Expr::Constant(2)),
            ).plus(Expr::var(cols.is_carry_3.0[i]).times(Expr::Constant(3))),
        );
        assert(builder@ =~= old(builder)@ + all.take(i + 1));
    }
    assert(all.take(4) =~= all);
}

/// Asserts that each carry times 256 is the overflow of its byte.
fn assert_overflows(
    builder: &mut ConstraintBuilder,
    a: &Word<Var>,
    b: &Word<Var>,
    c: &Word<Var>,
    d: &Word<Var>,
    is_real: Var,
    cols: &Add4Operation<Var>,
)
    ensures
        final(builder)@ == old(builder)@ + Seq::new(
            4,
            |i: int| overflow_constraint(*a, *b, *c, *d, is_real, *cols, i),
        ),
{
    let ghost all = Seq::new(4, |i: int| overflow_constraint(*a, *b, *c, *d, is_real, *cols, i));
    for i in 0..4usize
        invariant
            all == Seq::new(4, |i: int| overflow_constraint(*a, *b, *c, *d, is_real, *cols, i)),
            builder@ == old(builder)@ + all.take(i as int),
    {
        let mut overflow = Expr::var(a.0[i]).plus(Expr::var(b.0[i])).plus(Expr::var(c.0[i])).plus(
            Expr::var(d.0[i]),
        ).minus(Expr::var(cols.value.0[i]));
        if i > 0 {
            overflow = overflow.plus(Expr::var(cols.carry.0[i - 1]));
        }
        builder.when_assert_eq(
            Expr::var(is_real),
            Expr::var(cols.carry.0[i]).times(Expr::Constant(256)),
            overflow,
        );
        assert(builder@ =~= old(builder)@ + all.take(i + 1));
    }
    assert(all.take(4) =~= all);
}

} // verus!
