use fp_gadgets::add4::Add4Operation;
use fp_gadgets::builder::ConstraintBuilder;
use fp_gadgets::expr::Var;
use fp_gadgets::segment::Segment;
use fp_gadgets::word::Word;

/// Lays the four summands, the flag and the populated columns out in one
/// row: summands in cells 0..16, the flag in cell 16, the columns after it.
fn row_of(a: u32, b: u32, c: u32, d: u32, is_real: u32, cols: &Add4Operation<u32>) -> Vec<u32> {
    let mut row = Vec::new();
    for x in [a, b, c, d] {
        for byte in x.to_le_bytes() {
            row.push(byte as u32);
        }
    }
    row.push(is_real);
    row.extend(cols.to_flat());
    row
}

fn word_at(start: usize) -> Word<Var> {
    Word([Var(start), Var(start + 1), Var(start + 2), Var(start + 3)])
}

fn columns() -> Add4Operation<Var> {
    Add4Operation::<Var>::at(17)
}

fn constraints() -> ConstraintBuilder {
    let mut builder = ConstraintBuilder::new();
    Add4Operation::<Var>::eval(
        &mut builder,
        word_at(0),
        word_at(4),
        word_at(8),
        word_at(12),
        Var(16),
        columns(),
    );
    builder
}

#[test]
fn add4_wraps_at_u32_max() {
    let mut cols = Add4Operation::<u32>::new();
    let mut segment = Segment::new();
    let sum = cols.populate(&mut segment, u32::MAX, 1, 0, 0);
    assert_eq!(sum, 0);
    assert_eq!(cols.value.0, [0, 0, 0, 0]);
    assert_eq!(cols.carry.0, [1, 1, 1, 1]);
    assert_eq!(cols.is_carry_0.0, [0, 0, 0, 0]);
    assert_eq!(cols.is_carry_1.0, [1, 1, 1, 1]);
    assert_eq!(cols.is_carry_2.0, [0, 0, 0, 0]);
    assert_eq!(cols.is_carry_3.0, [0, 0, 0, 0]);
}

#[test]
fn add4_largest_carry_is_three() {
    let mut cols = Add4Operation::<u32>::new();
    let mut segment = Segment::new();
    let sum = cols.populate(&mut segment, u32::MAX, u32::MAX, u32::MAX, u32::MAX);
    assert_eq!(sum, 0xffff_fffc);
    assert_eq!(cols.value.0, [0xfc, 0xff, 0xff, 0xff]);
    assert_eq!(cols.carry.0, [3, 3, 3, 3]);
    assert_eq!(cols.is_carry_3.0, [1, 1, 1, 1]);
    assert_eq!(cols.is_carry_0.0, [0, 0, 0, 0]);
}

#[test]
fn add4_exact_sum_and_mixed_carries() {
    let mut cols = Add4Operation::<u32>::new();
    let mut segment = Segment::new();
    let sum = cols.populate(&mut segment, 0x0000_01ff, 0x0000_00ff, 0x0000_0002, 0);
    assert_eq!(sum, 0x0000_0300);
    assert_eq!(cols.value.0, [0x00, 0x03, 0, 0]);
    assert_eq!(cols.carry.0, [2, 0, 0, 0]);
    assert_eq!(cols.is_carry_2.0, [1, 0, 0, 0]);
    assert_eq!(cols.is_carry_0.0, [0, 1, 1, 1]);
}

#[test]
fn add4_registers_every_byte() {
    let mut cols = Add4Operation::<u32>::new();
    let mut segment = Segment::new();
    segment.add_u8_range_checks(&[9]);
    let sum = cols.populate(&mut segment, 0x0403_0201, 0x0807_0605, 0x0c0b_0a09, 0x100f_0e0d);
    assert_eq!(sum, 0x2824_201c);
    assert_eq!(
        segment.byte_range_checks,
        vec![9, 1, 2, 3, 4, 5, 6, 7, 8, 9, 10, 11, 12, 13, 14, 15, 16, 0x1c, 0x20, 0x24, 0x28]
    );
}

#[test]
fn add4_one_indicator_per_byte() {
    let inputs = [
        (0u32, 0u32, 0u32, 0u32),
        (u32::MAX, 1, 0, 0),
        (0x8000_0000, 0x8000_0000, 0x8000_0000, 0x8000_0000),
        (0x1234_5678, 0x9abc_def0, 0x0fed_cba9, 0x8765_4321),
    ];
    for (a, b, c, d) in inputs {
        let mut cols = Add4Operation::<u32>::new();
        let mut segment = Segment::new();
        let sum = cols.populate(&mut segment, a, b, c, d);
        assert_eq!(sum, a.wrapping_add(b).wrapping_add(c).wrapping_add(d));
        for i in 0..4 {
            let flags = [
                cols.is_carry_0.0[i],
                cols.is_carry_1.0[i],
                cols.is_carry_2.0[i],
                cols.is_carry_3.0[i],
            ];
            assert_eq!(flags.iter().sum::<u32>(), 1);
            assert!(cols.carry.0[i] <= 3);
            assert_eq!(flags[cols.carry.0[i] as usize], 1);
        }
    }
}

#[test]
fn add4_eval_emits_the_expected_number_of_constraints() {
    let builder = constraints();
    // 10 lookups, the flag, 4 * 5 indicator constraints, 4 carries,
    // 4 overflows, and the degree constraint.
    assert_eq!(builder.constraints.len(), 10 + 1 + 20 + 4 + 4 + 1);
}

#[test]
fn add4_populated_rows_meet_the_constraints() {
    let builder = constraints();
    let inputs = [
        (0u32, 0u32, 0u32, 0u32),
        (u32::MAX, 1, 0, 0),
        (u32::MAX, u32::MAX, u32::MAX, u32::MAX),
        (0x1234_5678, 0x9abc_def0, 0x0fed_cba9, 0x8765_4321),
    ];
    for (a, b, c, d) in inputs {
        let mut cols = Add4Operation::<u32>::new();
        let mut segment = Segment::new();
        cols.populate(&mut segment, a, b, c, d);
        assert!(builder.check(&row_of(a, b, c, d, 1, &cols)));
        assert!(builder.check(&row_of(a, b, c, d, 0, &cols)));
    }
}

#[test]
fn add4_wrong_rows_are_rejected() {
    let builder = constraints();
    let mut cols = Add4Operation::<u32>::new();
    let mut segment = Segment::new();
    cols.populate(&mut segment, 200, 100, 0, 0);

    let mut wrong_sum = cols;
    wrong_sum.value.0[0] += 1;
    assert!(!builder.check(&row_of(200, 100, 0, 0, 1, &wrong_sum)));

    let mut two_flags = cols;
    two_flags.is_carry_0.0[0] = 1;
    assert!(!builder.check(&row_of(200, 100, 0, 0, 1, &two_flags)));

    let mut wrong_carry = cols;
    wrong_carry.carry.0[1] = 1;
    assert!(!builder.check(&row_of(200, 100, 0, 0, 1, &wrong_carry)));

    // A flag that is neither zero nor one.
    assert!(!builder.check(&row_of(200, 100, 0, 0, 2, &cols)));
    // On a padding row the same cells are not bound.
    assert!(builder.check(&row_of(200, 100, 0, 0, 0, &wrong_sum)));
    // A cell that is no byte fails its lookup, though every sum agrees:
    // 456 + 100 = 44 + 2 * 256 in the lowest cells, and the carry 2 goes
    // into the byte above.
    let mut no_byte = row_of(200, 100, 0, 0, 1, &cols);
    no_byte[0] = 456;
    no_byte[17 + 1] = 2;
    no_byte[25] = 0;
    no_byte[29] = 1;
    no_byte[37] = 2;
    let mut only_sums = ConstraintBuilder::new();
    only_sums.constraints.extend(constraints().constraints.into_iter().skip(10));
    assert!(only_sums.check(&no_byte));
    assert!(!builder.check(&no_byte));
}

#[test]
fn add4_columns_lie_in_the_order_of_the_fields() {
    let cols = Add4Operation::<Var>::at(17);
    assert_eq!(cols.value.0, [Var(17), Var(18), Var(19), Var(20)]);
    assert_eq!(cols.is_carry_0.0[0], Var(21));
    assert_eq!(cols.is_carry_1.0[0], Var(25));
    assert_eq!(cols.is_carry_2.0[0], Var(29));
    assert_eq!(cols.is_carry_3.0[0], Var(33));
    assert_eq!(cols.carry.0, [Var(37), Var(38), Var(39), Var(40)]);

    let flat: Vec<u32> = (100..124).collect();
    let row = Add4Operation::<u32>::from_flat(&flat);
    assert_eq!(row.value.0, [100, 101, 102, 103]);
    assert_eq!(row.carry.0, [120, 121, 122, 123]);
    assert_eq!(row.to_flat(), flat);
}
