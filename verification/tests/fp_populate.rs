use fp_gadgets::bignat::BigNat;
use fp_gadgets::fp_op::{check_operands, FpOpCols, FpOperation};
use fp_gadgets::params::FieldParameters;
use num::BigUint;

fn small(x: u64) -> BigNat {
    BigNat::from_bytes_le(x.to_le_bytes().to_vec())
}

fn big(x: &BigNat) -> BigUint {
    BigUint::from_bytes_le(&x.bytes)
}

fn from_big(x: &BigUint) -> BigNat {
    BigNat::from_bytes_le(x.to_bytes_le())
}

fn params(modulus: &BigUint) -> FieldParameters {
    FieldParameters { modulus: from_big(modulus), witness_offset: 1 << 13 }
}

fn ed25519_modulus() -> BigUint {
    (BigUint::from(1u32) << 255u32) - BigUint::from(19u32)
}

fn limbs_value(limbs: &[u32]) -> BigUint {
    let bytes: Vec<u8> = limbs.iter().map(|&limb| {
        assert!(limb < 256);
        limb as u8
    }).collect();
    BigUint::from_bytes_le(&bytes)
}

#[test]
fn toy_modulus_addition() {
    let p = params(&BigUint::from(7u32));
    let mut cols = FpOpCols::<u32>::new();
    let result = cols.populate(&p, &small(3), &small(5), FpOperation::Add);
    assert_eq!(big(&result), BigUint::from(1u32));
    assert_eq!(limbs_value(&cols.result.0), BigUint::from(1u32));
    assert_eq!(limbs_value(&cols.carry.0), BigUint::from(1u32));
    assert_eq!(cols.result.0[0], 1);
    assert_eq!(cols.carry.0[0], 1);
    assert!(cols.result.0[1..].iter().all(|&limb| limb == 0));
    assert!(cols.carry.0[1..].iter().all(|&limb| limb == 0));
}

#[test]
fn toy_modulus_witness_of_addition() {
    // 3 + 5 - 1 - 1 * 7 = 0: the vanishing polynomial is the zero
    // polynomial, so every witness coefficient is the offset itself.
    let p = params(&BigUint::from(7u32));
    let mut cols = FpOpCols::<u32>::new();
    cols.populate(&p, &small(3), &small(5), FpOperation::Add);
    for i in 0..62 {
        assert_eq!(cols.witness_low[i] + 256 * cols.witness_high[i], 8192);
    }
}

#[test]
fn witness_of_a_carry_between_limbs() {
    // 200 + 100 = 300 = 44 + 256 * 1 below the modulus 65521: the vanishing
    // polynomial is 256 - x, whose quotient by x - 256 is -1.
    let p = params(&BigUint::from(65521u32));
    let mut cols = FpOpCols::<u32>::new();
    let result = cols.populate(&p, &small(200), &small(100), FpOperation::Add);
    assert_eq!(big(&result), BigUint::from(300u32));
    assert_eq!(&cols.result.0[..3], &[44, 1, 0]);
    assert!(cols.carry.0.iter().all(|&limb| limb == 0));
    assert_eq!(cols.witness_low[0] + 256 * cols.witness_high[0], 8191);
    assert_eq!(cols.witness_low[0], 0xff);
    assert_eq!(cols.witness_high[0], 0x1f);
    for i in 1..62 {
        assert_eq!(cols.witness_low[i] + 256 * cols.witness_high[i], 8192);
    }
}

#[test]
fn toy_modulus_all_operations() {
    let p = params(&BigUint::from(7u32));
    for a in 0..7u64 {
        for b in 0..7u64 {
            let mut cols = FpOpCols::<u32>::new();
            let sum = cols.populate(&p, &small(a), &small(b), FpOperation::Add);
            assert_eq!(big(&sum), BigUint::from((a + b) % 7));
            assert_eq!(limbs_value(&cols.carry.0), BigUint::from((a + b) / 7));

            let product = cols.populate(&p, &small(a), &small(b), FpOperation::Mul);
            assert_eq!(big(&product), BigUint::from((a * b) % 7));
            assert_eq!(limbs_value(&cols.carry.0), BigUint::from((a * b) / 7));

            let difference = cols.populate(&p, &small(a), &small(b), FpOperation::Sub);
            assert_eq!(big(&difference), BigUint::from((7 + a - b) % 7));
            assert_eq!(limbs_value(&cols.result.0), BigUint::from((7 + a - b) % 7));
            assert_eq!(limbs_value(&cols.carry.0), BigUint::from(((7 + a - b) % 7 + b) / 7));

            if b != 0 {
                let quotient = cols.populate(&p, &small(a), &small(b), FpOperation::Div);
                let q = big(&quotient);
                assert!(q < BigUint::from(7u32));
                assert_eq!((q * BigUint::from(b)) % BigUint::from(7u32), BigUint::from(a));
            }
        }
    }
}

#[test]
fn zero_divided_by_zero_is_zero() {
    let p = params(&ed25519_modulus());
    let mut cols = FpOpCols::<u32>::new();
    assert!(check_operands(&p, &small(0), &small(0), FpOperation::Div));
    let result = cols.populate(&p, &small(0), &small(0), FpOperation::Div);
    assert_eq!(big(&result), BigUint::from(0u32));
    assert!(cols.result.0.iter().all(|&limb| limb == 0));
    assert!(cols.carry.0.iter().all(|&limb| limb == 0));
}

#[test]
fn nonzero_divided_by_zero_is_refused() {
    let p = params(&ed25519_modulus());
    assert!(!check_operands(&p, &small(1), &small(0), FpOperation::Div));
    assert!(check_operands(&p, &small(1), &small(0), FpOperation::Mul));
    assert!(check_operands(&p, &small(1), &small(2), FpOperation::Div));
}

#[test]
fn operands_at_or_above_the_modulus_are_refused() {
    let p = params(&BigUint::from(7u32));
    assert!(!check_operands(&p, &small(7), &small(1), FpOperation::Add));
    assert!(!check_operands(&p, &small(1), &small(8), FpOperation::Sub));
    assert!(check_operands(&p, &small(6), &small(6), FpOperation::Mul));
    let one = params(&BigUint::from(1u32));
    assert!(!check_operands(&one, &small(0), &small(0), FpOperation::Div));
    assert!(check_operands(&one, &small(0), &small(0), FpOperation::Add));
}

#[test]
fn large_operands_agree_with_big_integers() {
    let m = ed25519_modulus();
    let p = params(&m);
    let a = &m - BigUint::from(1u32);
    let b = &m - BigUint::from(2u32);
    let mut cols = FpOpCols::<u32>::new();

    let sum = cols.populate(&p, &from_big(&a), &from_big(&b), FpOperation::Add);
    assert_eq!(big(&sum), (&a + &b) % &m);
    assert_eq!(limbs_value(&cols.result.0), (&a + &b) % &m);
    assert_eq!(limbs_value(&cols.carry.0), (&a + &b) / &m);

    let product = cols.populate(&p, &from_big(&a), &from_big(&b), FpOperation::Mul);
    assert_eq!(big(&product), (&a * &b) % &m);
    assert_eq!(limbs_value(&cols.carry.0), (&a * &b) / &m);

    let difference = cols.populate(&p, &from_big(&b), &from_big(&a), FpOperation::Sub);
    assert_eq!(big(&difference), &m - BigUint::from(1u32));

    let quotient = cols.populate(&p, &from_big(&a), &from_big(&b), FpOperation::Div);
    assert_eq!((big(&quotient) * &b) % &m, a);
    assert_eq!(limbs_value(&cols.result.0), big(&quotient));
    for i in 0..62 {
        assert!(cols.witness_low[i] < 256);
        assert!(cols.witness_high[i] < 256);
    }
}
