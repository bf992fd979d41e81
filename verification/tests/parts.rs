use fp_gadgets::bignat::BigNat;
use fp_gadgets::builder::{ByteOpcode, Constraint, ConstraintBuilder};
use fp_gadgets::expr::{Expr, Var};
use fp_gadgets::expr_poly::ExprPolynomial;
use fp_gadgets::field::FIELD_ORDER;
use fp_gadgets::params::{FieldParameters, MAX_QUOTIENT, NB_BITS_PER_LIMB, NUM_LIMBS, NUM_WITNESS_LIMBS};
use fp_gadgets::polynomial::Polynomial;
use fp_gadgets::segment::Segment;
use fp_gadgets::witness::{compute_root_quotient_and_shift, split_u16_limbs_to_u8_limbs};
use fp_gadgets::word::{u32_to_le_bytes, Word, WORD_SIZE};

const P: u32 = FIELD_ORDER;

fn number(bytes: &[u8]) -> BigNat {
    BigNat::from_bytes_le(bytes.to_vec())
}

#[test]
fn field_order_is_the_baby_bear_prime() {
    assert_eq!(P, (1 << 31) - (1 << 27) + 1);
}

#[test]
fn expressions_evaluate_in_the_field() {
    let row = vec![P - 1, 2, 5, P + 3];
    let x = || Expr::var(Var(0));
    let y = || Expr::var(Var(1));
    let z = || Expr::var(Var(2));
    assert_eq!(x().evaluate(&row), P - 1);
    assert_eq!(x().plus(y()).evaluate(&row), 1);
    assert_eq!(y().minus(z()).evaluate(&row), P - 3);
    assert_eq!(x().times(x()).evaluate(&row), 1);
    assert_eq!(z().times(y()).plus(z()).evaluate(&row), 15);
    assert_eq!(Expr::Constant(P).evaluate(&row), 0);
    assert_eq!(Expr::Constant(7).evaluate(&row), 7);
    // A cell that is not canonical counts by its residue, a cell beyond
    // the row as zero.
    assert_eq!(Expr::var(Var(3)).evaluate(&row), 3);
    assert_eq!(Expr::var(Var(4)).evaluate(&row), 0);
}

#[test]
fn expression_copies_are_equal_in_value() {
    let row = vec![11, 13];
    let e = Expr::var(Var(0)).times(Expr::var(Var(1))).minus(Expr::Constant(3));
    assert_eq!(e.duplicate().evaluate(&row), 140);
    assert_eq!(e.evaluate(&row), 140);
}

#[test]
fn constraints_hold_or_fail_as_their_kind_says() {
    let row = vec![0, 1, 2, 255, 256];
    let cell = |i: usize| Expr::var(Var(i));
    let check = |c: Constraint| c.check(&row);

    assert!(check(Constraint::AssertZero { when: None, value: cell(0) }));
    assert!(!check(Constraint::AssertZero { when: None, value: cell(1) }));
    assert!(check(Constraint::AssertZero { when: Some(cell(0)), value: cell(1) }));
    assert!(!check(Constraint::AssertZero { when: Some(cell(2)), value: cell(1) }));

    assert!(check(Constraint::AssertBool { when: None, value: cell(0) }));
    assert!(check(Constraint::AssertBool { when: None, value: cell(1) }));
    assert!(!check(Constraint::AssertBool { when: None, value: cell(2) }));
    assert!(check(Constraint::AssertBool { when: Some(cell(0)), value: cell(2) }));

    assert!(check(Constraint::AssertEq { when: None, left: cell(2), right: cell(1).plus(cell(1)) }));
    assert!(!check(Constraint::AssertEq { when: None, left: cell(2), right: cell(1) }));
    assert!(check(Constraint::AssertEq { when: Some(cell(0)), left: cell(2), right: cell(1) }));

    let lookup = |first: usize, second: usize, multiplicity: usize| Constraint::BytePair {
        opcode: ByteOpcode::U8Range,
        aux1: Expr::Constant(0),
        aux2: Expr::Constant(0),
        first: cell(first),
        second: cell(second),
        multiplicity: cell(multiplicity),
    };
    assert!(check(lookup(3, 2, 1)));
    assert!(!check(lookup(4, 2, 1)));
    assert!(!check(lookup(2, 4, 1)));
    assert!(check(lookup(4, 4, 0)));
}

#[test]
fn builder_records_in_order() {
    let mut builder = ConstraintBuilder::new();
    assert!(builder.check(&vec![]));
    builder.assert_zero(Expr::var(Var(0)));
    builder.assert_bool(Expr::var(Var(1)));
    builder.assert_eq(Expr::var(Var(2)), Expr::Constant(9));
    builder.when_assert_bool(Expr::var(Var(1)), Expr::var(Var(3)));
    builder.when_assert_eq(Expr::var(Var(1)), Expr::var(Var(3)), Expr::Constant(1));
    builder.send_byte_pair(
        ByteOpcode::U8Range,
        Expr::Constant(0),
        Expr::Constant(0),
        Expr::var(Var(2)),
        Expr::var(Var(3)),
        Expr::var(Var(1)),
    );
    assert_eq!(builder.constraints.len(), 6);
    assert!(matches!(builder.constraints[0], Constraint::AssertZero { when: None, .. }));
    assert!(matches!(builder.constraints[1], Constraint::AssertBool { when: None, .. }));
    assert!(matches!(builder.constraints[2], Constraint::AssertEq { when: None, .. }));
    assert!(matches!(builder.constraints[3], Constraint::AssertBool { when: Some(_), .. }));
    assert!(matches!(builder.constraints[4], Constraint::AssertEq { when: Some(_), .. }));
    assert!(matches!(builder.constraints[5], Constraint::BytePair { .. }));
    assert!(builder.check(&vec![0, 1, 9, 1]));
    assert!(!builder.check(&vec![0, 1, 9, 0]));
    assert!(builder.check(&vec![0, 0, 9, 5]));
    assert!(!builder.check(&vec![1, 0, 9, 5]));
}

#[test]
fn polynomial_arithmetic_in_the_field() {
    let p = |c: &[u32]| Polynomial::new(c.to_vec());
    assert_eq!(p(&[1, 2]).plus(&p(&[3])).coefficients, vec![4, 2]);
    assert_eq!(p(&[P - 1]).plus(&p(&[5, 6])).coefficients, vec![4, 6]);
    assert_eq!(p(&[1]).minus(&p(&[2, 3])).coefficients, vec![P - 1, P - 3]);
    assert_eq!(p(&[1, 2]).times(&p(&[3, 4])).coefficients, vec![3, 10, 8]);
    assert_eq!(p(&[P - 1]).times(&p(&[P - 1])).coefficients, vec![1]);
    assert_eq!(p(&[1, 1, 1]).times(&p(&[P - 1, 1])).coefficients, vec![P - 1, 0, 0, 1]);
    assert_eq!(p(&[4, 5, 6]).degree(), 2);
    assert_eq!(Polynomial::from_limbs(&[7, 255]).coefficients, vec![7, 255]);
}

#[test]
fn expression_polynomials_mean_what_field_polynomials_compute() {
    let row = vec![3, 4, 5, 6, 7];
    let a = ExprPolynomial::from_vars(&[Var(0), Var(1), Var(2)]);
    let b = ExprPolynomial::from_vars(&[Var(3), Var(4)]);
    let values = |p: &ExprPolynomial| -> Vec<u32> {
        p.coefficients.iter().map(|e| e.evaluate(&row)).collect()
    };
    assert_eq!(values(&a.plus(&b)), vec![9, 11, 5]);
    assert_eq!(values(&b.minus(&a)), vec![3, 3, P - 5]);
    assert_eq!(values(&a.times(&b)), vec![18, 45, 58, 35]);
    assert_eq!(values(&a.scaled(&Expr::Constant(256))), vec![768, 1024, 1280]);
    assert_eq!(values(&ExprPolynomial::from_constants(&[1, 255])), vec![1, 255]);
}

#[test]
fn quotient_by_the_root_factor() {
    // x - 256 = 1 * (x - 256).
    let v = Polynomial::new(vec![P - 256, 1]);
    assert_eq!(compute_root_quotient_and_shift(&v, 8192, 8), vec![8193]);
    // 3x^2 - 770x + 512 = (3x - 2) * (x - 256).
    let v = Polynomial::new(vec![512, P - 770, 3]);
    assert_eq!(compute_root_quotient_and_shift(&v, 8192, 8), vec![8190, 8195]);
    // x^2 - 20x + 64 = (x - 4) * (x - 16), with the root 16.
    let v = Polynomial::new(vec![64, P - 20, 1]);
    assert_eq!(compute_root_quotient_and_shift(&v, 100, 4), vec![96, 101]);
    // The zero polynomial.
    let v = Polynomial::new(vec![0, 0, 0]);
    assert_eq!(compute_root_quotient_and_shift(&v, 5, 8), vec![5, 5]);
}

#[test]
fn limbs_split_into_two_bytes() {
    let (low, high) = split_u16_limbs_to_u8_limbs(&vec![0, 255, 256, 8191, 65535, 65536 + 513]);
    assert_eq!(low, vec![0, 255, 0, 255, 255, 1]);
    assert_eq!(high, vec![0, 0, 1, 31, 255, 2]);
    let (low, high) = split_u16_limbs_to_u8_limbs(&vec![]);
    assert!(low.is_empty() && high.is_empty());
}

#[test]
fn numbers_compare_by_value() {
    assert!(BigNat::zero().is_zero());
    assert!(number(&[]).is_zero());
    assert!(number(&[0, 0, 0]).is_zero());
    assert!(!number(&[0, 1]).is_zero());
    assert!(number(&[5]).is_equal_to(&number(&[5, 0, 0])));
    assert!(!number(&[5]).is_equal_to(&number(&[0, 5])));
    assert!(number(&[255]).is_less_than(&number(&[0, 1])));
    assert!(!number(&[0, 1]).is_less_than(&number(&[255])));
    assert!(!number(&[7]).is_less_than(&number(&[7, 0])));
    assert_eq!(number(&[1, 2, 3]).duplicate().bytes, vec![1, 2, 3]);
}

#[test]
fn limbs_of_a_number() {
    let short = FieldParameters::to_limbs(&number(&[1, 2, 3]));
    assert_eq!(short.len(), NUM_LIMBS);
    assert_eq!(&short[..4], &[1, 2, 3, 0]);
    assert!(short[4..].iter().all(|&limb| limb == 0));

    let mut long = vec![9u8; 32];
    long.extend_from_slice(&[0, 0, 0]);
    assert_eq!(FieldParameters::to_limbs(&number(&long)), vec![9u8; 32]);
    assert_eq!(FieldParameters::to_limbs(&BigNat::zero()), vec![0u8; 32]);
}

#[test]
fn parameters_are_checked() {
    let offset = 1 << 13;
    assert!(FieldParameters::new(number(&[7]), offset).is_some());
    assert!(FieldParameters::new(BigNat::zero(), offset).is_none());
    assert!(FieldParameters::new(number(&[255; 32]), offset).is_some());
    let mut too_large = vec![0u8; 32];
    too_large.push(1);
    assert!(FieldParameters::new(number(&too_large), offset).is_none());
    assert!(FieldParameters::new(number(&[7]), MAX_QUOTIENT).is_some());
    assert!(FieldParameters::new(number(&[7]), MAX_QUOTIENT - 1).is_none());
    assert!(FieldParameters::new(number(&[7]), 65535 - MAX_QUOTIENT).is_some());
    assert!(FieldParameters::new(number(&[7]), 65536 - MAX_QUOTIENT).is_none());
    let params = FieldParameters::new(number(&[237, 1]), offset).unwrap();
    assert_eq!(params.modulus().bytes, vec![237, 1]);
    assert_eq!(params.witness_offset, offset);
}

#[test]
fn layout_constants() {
    assert_eq!(WORD_SIZE, 4);
    assert_eq!(NUM_LIMBS, 32);
    assert_eq!(NUM_WITNESS_LIMBS, 2 * NUM_LIMBS - 2);
    assert_eq!(NB_BITS_PER_LIMB, 8);
    assert_eq!(MAX_QUOTIENT * 255, 32 * 255 * 255 + 255);
}

#[test]
fn words_and_bytes() {
    assert_eq!(u32_to_le_bytes(0x0403_0201), [1, 2, 3, 4]);
    assert_eq!(u32_to_le_bytes(u32::MAX), [255; 4]);
    assert_eq!(Word::from_u32(0x8000_00ff).0, [255, 0, 0, 128]);
}

#[test]
fn segment_keeps_bytes_in_order() {
    let mut segment = Segment::new();
    assert!(segment.byte_range_checks.is_empty());
    segment.add_u8_range_checks(&[1, 2]);
    segment.add_u8_range_checks(&[]);
    segment.add_u8_range_checks(&[3]);
    assert_eq!(segment.byte_range_checks, vec![1, 2, 3]);
}
