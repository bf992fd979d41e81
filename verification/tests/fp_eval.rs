use fp_gadgets::bignat::BigNat;
use fp_gadgets::builder::{Constraint, ConstraintBuilder};
use fp_gadgets::expr::Var;
use fp_gadgets::fp_op::{check_operands, FpOpCols, FpOperation};
use fp_gadgets::layout::FP_OP_WIDTH;
use fp_gadgets::params::{FieldParameters, Limbs};
use num::BigUint;

const A_AT: usize = 0;
const B_AT: usize = 32;
const RESULT_AT: usize = 64;
const WIDTH: usize = RESULT_AT + FP_OP_WIDTH;

fn from_big(x: &BigUint) -> BigNat {
    BigNat::from_bytes_le(x.to_bytes_le())
}

fn big(x: &BigNat) -> BigUint {
    BigUint::from_bytes_le(&x.bytes)
}

fn ed25519_base_field() -> FieldParameters {
    let modulus = (BigUint::from(1u32) << 255u32) - BigUint::from(19u32);
    FieldParameters { modulus: from_big(&modulus), witness_offset: 1 << 13 }
}

fn columns() -> FpOpCols<Var> {
    FpOpCols::<Var>::at(RESULT_AT)
}

fn constraints(params: &FieldParameters, op: FpOperation) -> ConstraintBuilder {
    let mut builder = ConstraintBuilder::new();
    columns().eval(&mut builder, params, &Limbs::<Var>::at(A_AT), &Limbs::<Var>::at(B_AT), op);
    builder
}

fn limbs(params_value: &BigNat) -> Vec<u32> {
    FieldParameters::to_limbs(params_value).iter().map(|&byte| byte as u32).collect()
}

fn row_of(a: &BigNat, b: &BigNat, cols: &FpOpCols<u32>) -> Vec<u32> {
    let mut row = Vec::with_capacity(WIDTH);
    row.extend(limbs(a));
    row.extend(limbs(b));
    row.extend(cols.to_flat());
    assert_eq!(row.len(), WIDTH);
    row
}

/// A fixed sequence of numbers below the modulus, from a linear
/// congruential generator.
struct Operands {
    state: u64,
}

impl Operands {
    fn next_below(&mut self, modulus: &BigUint) -> BigUint {
        let mut bytes = Vec::with_capacity(32);
        for _ in 0..32 {
            self.state =
                self.state.wrapping_mul(6364136223846793005).wrapping_add(1442695040888963407);
            bytes.push((self.state >> 56) as u8);
        }
        BigUint::from_bytes_le(&bytes) % modulus
    }
}

fn operands(params: &FieldParameters, seed: u64) -> Vec<(BigUint, BigUint)> {
    let modulus = big(&params.modulus);
    let mut source = Operands { state: seed };
    let num_rows = 1 << 8;
    let mut operands: Vec<(BigUint, BigUint)> = (0..num_rows - 5)
        .map(|_| (source.next_below(&modulus), source.next_below(&modulus)))
        .collect();
    // Edge cases, 0 / 0 among them: padded rows are all zero.
    operands.extend(vec![
        (BigUint::from(0u32), BigUint::from(0u32)),
        (BigUint::from(0u32), BigUint::from(1u32)),
        (BigUint::from(1u32), BigUint::from(2u32)),
        (BigUint::from(4u32), BigUint::from(5u32)),
        (BigUint::from(10u32), BigUint::from(19u32)),
    ]);
    operands
}

fn trace(params: &FieldParameters, op: FpOperation, seed: u64) -> Vec<Vec<u32>> {
    let modulus = big(&params.modulus);
    operands(params, seed)
        .iter()
        .map(|(a, b)| {
            let (a_nat, b_nat) = (from_big(a), from_big(b));
            assert!(check_operands(params, &a_nat, &b_nat, op));
            let mut cols = FpOpCols::<u32>::new();
            let result = big(&cols.populate(params, &a_nat, &b_nat, op));
            match op {
                FpOperation::Add => assert_eq!(result, (a + b) % &modulus),
                FpOperation::Mul => assert_eq!(result, (a * b) % &modulus),
                FpOperation::Sub => assert_eq!(result, (&modulus + a - b) % &modulus),
                FpOperation::Div => assert_eq!((&result * b) % &modulus, *a),
            }
            row_of(&a_nat, &b_nat, &cols)
        })
        .collect()
}

#[test]
fn generate_trace() {
    let params = ed25519_base_field();
    for op in [FpOperation::Add, FpOperation::Mul, FpOperation::Sub].iter() {
        println!("op: {:?}", op);
        let rows = trace(&params, *op, 1);
        assert_eq!(rows.len(), 1 << 8);
        assert!(rows.iter().all(|row| row.len() == WIDTH));
    }
}

#[test]
fn prove_babybear() {
    let params = ed25519_base_field();
    for op in [FpOperation::Add, FpOperation::Sub, FpOperation::Mul, FpOperation::Div].iter() {
        println!("op: {:?}", op);
        let builder = constraints(&params, *op);
        for row in trace(&params, *op, 2) {
            assert!(builder.check(&row));
        }
        // A padding row, all zero, meets the constraints only if the
        // witness is shifted; the populated row of 0 op 0 does.
        let zero = BigNat::zero();
        let mut cols = FpOpCols::<u32>::new();
        cols.populate(&params, &zero, &zero, *op);
        assert!(builder.check(&row_of(&zero, &zero, &cols)));
    }
}

#[test]
fn fp_eval_asserts_one_identity_per_coefficient() {
    let params = ed25519_base_field();
    for op in [FpOperation::Add, FpOperation::Sub, FpOperation::Mul, FpOperation::Div] {
        let builder = constraints(&params, op);
        assert_eq!(builder.constraints.len(), 63);
        for constraint in &builder.constraints {
            assert!(matches!(constraint, Constraint::AssertZero { when: None, .. }));
        }
    }
}

#[test]
fn fp_eval_rejects_a_wrong_result() {
    let params = ed25519_base_field();
    let a = from_big(&BigUint::from(1234567u32));
    let b = from_big(&BigUint::from(7654321u32));
    for op in [FpOperation::Add, FpOperation::Sub, FpOperation::Mul, FpOperation::Div] {
        let builder = constraints(&params, op);
        let mut cols = FpOpCols::<u32>::new();
        cols.populate(&params, &a, &b, op);
        assert!(builder.check(&row_of(&a, &b, &cols)));

        let mut wrong = cols.clone();
        wrong.result.0[0] = (wrong.result.0[0] + 1) % 256;
        assert!(!builder.check(&row_of(&a, &b, &wrong)));

        let mut wrong = cols.clone();
        wrong.carry.0[0] = (wrong.carry.0[0] + 1) % 256;
        assert!(!builder.check(&row_of(&a, &b, &wrong)));

        let mut wrong = cols.clone();
        wrong.witness_low[3] = (wrong.witness_low[3] + 1) % 256;
        assert!(!builder.check(&row_of(&a, &b, &wrong)));

        let mut wrong = cols.clone();
        wrong.witness_high[61] = (wrong.witness_high[61] + 1) % 256;
        assert!(!builder.check(&row_of(&a, &b, &wrong)));

        // The same row under another operand.
        let other = from_big(&BigUint::from(1234568u32));
        assert!(!builder.check(&row_of(&other, &b, &cols)));
    }
}

#[test]
fn fp_eval_ties_each_operation_to_its_own_rows() {
    let params = ed25519_base_field();
    let a = from_big(&BigUint::from(1000u32));
    let b = from_big(&BigUint::from(3u32));
    let mut cols = FpOpCols::<u32>::new();
    cols.populate(&params, &a, &b, FpOperation::Add);
    let row = row_of(&a, &b, &cols);
    assert!(constraints(&params, FpOperation::Add).check(&row));
    assert!(!constraints(&params, FpOperation::Mul).check(&row));
    assert!(!constraints(&params, FpOperation::Sub).check(&row));
    assert!(!constraints(&params, FpOperation::Div).check(&row));
}

#[test]
fn toy_modulus_round_trip() {
    let params =
        FieldParameters { modulus: from_big(&BigUint::from(7u32)), witness_offset: 1 << 13 };
    for op in [FpOperation::Add, FpOperation::Sub, FpOperation::Mul, FpOperation::Div] {
        let builder = constraints(&params, op);
        for a in 0..7u32 {
            for b in 0..7u32 {
                let (a_nat, b_nat) = (from_big(&BigUint::from(a)), from_big(&BigUint::from(b)));
                if !check_operands(&params, &a_nat, &b_nat, op) {
                    assert!(op == FpOperation::Div && b == 0 && a != 0);
                    continue;
                }
                let mut cols = FpOpCols::<u32>::new();
                cols.populate(&params, &a_nat, &b_nat, op);
                assert!(builder.check(&row_of(&a_nat, &b_nat, &cols)));
            }
        }
    }
}

#[test]
fn fp_columns_lie_in_the_order_of_the_fields() {
    let cols = FpOpCols::<Var>::at(64);
    assert_eq!(cols.result.0[0], Var(64));
    assert_eq!(cols.result.0[31], Var(95));
    assert_eq!(cols.carry.0[0], Var(96));
    assert_eq!(cols.carry.0[31], Var(127));
    assert_eq!(cols.witness_low[0], Var(128));
    assert_eq!(cols.witness_low[61], Var(189));
    assert_eq!(cols.witness_high[0], Var(190));
    assert_eq!(cols.witness_high[61], Var(251));
    assert_eq!(Limbs::<Var>::at(32).0[0], Var(32));
    assert_eq!(Limbs::<Var>::at(32).0[31], Var(63));

    let flat: Vec<u32> = (0..188).collect();
    let row = FpOpCols::<u32>::from_flat(&flat);
    assert_eq!(row.result.0[5], 5);
    assert_eq!(row.carry.0[5], 37);
    assert_eq!(row.witness_low[5], 69);
    assert_eq!(row.witness_high[5], 131);
    assert_eq!(row.to_flat(), flat);
}
