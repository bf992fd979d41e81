//! Addition, subtraction, multiplication and division in an emulated prime
//! field, shown in a row of byte limbs.

use crate::bignat::{
    big_add, big_div, big_modpow, big_mul, big_rem, big_sub, bytes_as_ints, BigNat,
};
use crate::builder::{Constraint, ConstraintBuilder};
use crate::expr::{difference, var, Expr, Var};
use crate::expr_poly::{ep_add, ep_mul, ep_scale, ep_sub, ExprPolynomial};
use crate::field::{order, reduce};
use crate::fp_spec::{
    combine, lemma_centered_reduce, lemma_limbs_of, lemma_reduce_canonical, lemma_reduce_sub,
    lemma_vanishing_bounds, lemma_vanishing_value, vanishing, vanishing_bound,
};
use crate::params::{
    limb_bound, limb_bytes, limbs_of, FieldParameters, Limbs, MAX_QUOTIENT, NB_BITS_PER_LIMB,
};
use crate::poly::{eval_at, ip_mul, ip_sub};
use crate::polynomial::Polynomial;
use crate::witness::{
    compute_root_quotient_and_shift, lemma_quotient_bound, quotient_coeff,
    split_u16_limbs_to_u8_limbs,
};
use vstd::arithmetic::div_mod::*;
use vstd::arithmetic::power::*;
use vstd::prelude::*;

verus! {

/// The operations of the emulated field.
#[derive(PartialEq, Eq, Structural, Copy, Clone, Debug)]
pub enum FpOperation {
    Add,
    Mul,
    Sub,
    /// The divisor is not constrained to be nonzero.
    Div,
}

/// The columns that show `a op b` for two numbers of the emulated field.
#[derive(Clone, Debug)]
pub struct FpOpCols<T> {
    /// The result of `a op b`.
    pub result: Limbs<T>,
    /// The quotient of the integer combination by the modulus.
    pub carry: Limbs<T>,
    /// The low bytes of the shifted witness coefficients.
    pub witness_low: [T; 62],
    /// The high bytes of the shifted witness coefficients.
    pub witness_high: [T; 62],
}

/// Whether the operation multiplies where the identity is formed.
pub open spec fn is_product(op: FpOperation) -> bool {
    op is Mul || op is Div
}

/// The result of `a op b` modulo `m`. A quotient is the product with the
/// power `m - 2` of the divisor, its inverse where `m` is prime.
pub open spec fn fp_result(a: nat, b: nat, op: FpOperation, m: nat) -> nat {
    match op {
        FpOperation::Add => (a + b) % m,
        FpOperation::Mul => (a * b) % m,
        FpOperation::Sub => ((m + a - b) % (m as int)) as nat,
        FpOperation::Div => (a * ((pow(b as int, (m - 2) as nat) % (m as int)) as nat)) % m,
    }
}

/// The number that stands left of `b` in the identity that the row shows:
/// `a` itself for a sum or a product, the result for a difference or a
/// quotient, which are shown as `result + b = a` and `result * b = a`.
pub open spec fn left_operand(a: nat, b: nat, op: FpOperation, m: nat) -> nat {
    match op {
        FpOperation::Add | FpOperation::Mul => a,
        FpOperation::Sub | FpOperation::Div => fp_result(a, b, op, m),
    }
}

/// The integer that the identity reduces: `left + b` or `left * b`.
pub open spec fn combination(a: nat, b: nat, op: FpOperation, m: nat) -> nat {
    if is_product(op) {
        left_operand(a, b, op, m) * b
    } else {
        left_operand(a, b, op, m) + b
    }
}

/// How often the modulus goes into the combination.
pub open spec fn fp_carry(a: nat, b: nat, op: FpOperation, m: nat) -> nat {
    combination(a, b, op, m) / m
}

/// What the combination leaves on division by the modulus.
pub open spec fn fp_remainder(a: nat, b: nat, op: FpOperation, m: nat) -> nat {
    combination(a, b, op, m) % m
}

/// The polynomial in the limbs that vanishes at 256 because the identity
/// holds.
pub open spec fn fp_vanishing(a: nat, b: nat, op: FpOperation, m: nat) -> Seq<int> {
    vanishing(
        limbs_of(left_operand(a, b, op, m)),
        limbs_of(b),
        limbs_of(fp_remainder(a, b, op, m)),
        limbs_of(fp_carry(a, b, op, m)),
        limbs_of(m),
        is_product(op),
    )
}

/// Coefficient `i` of the witness: that of the quotient of the vanishing
/// polynomial by `x - 256`, plus the offset.
pub open spec fn fp_witness(a: nat, b: nat, op: FpOperation, m: nat, offset: int, i: int) -> int {
    quotient_coeff(fp_vanishing(a, b, op, m), 256, i) + offset
}

/// The cells as integers.
pub open spec fn ints(cells: Seq<u32>) -> Seq<int> {
    Seq::new(cells.len(), |k: int| cells[k] as int)
}

/// Whether `row` is the row of `a op b` under `params`.
pub open spec fn is_fp_row(
    row: FpOpCols<u32>,
    a: nat,
    b: nat,
    op: FpOperation,
    params: FieldParameters,
) -> bool {
    let m = params.modulus@;
    let offset = params.witness_offset as int;
    &&& ints(row.result.0@) == limbs_of(fp_result(a, b, op, m))
    &&& ints(row.carry.0@) == limbs_of(fp_carry(a, b, op, m))
    &&& forall|i: int|
        0 <= i < 62 ==> (#[trigger] row.witness_low@[i]) as int
            == fp_witness(a, b, op, m, offset, i) % 256
    &&& forall|i: int|
        0 <= i < 62 ==> (#[trigger] row.witness_high@[i]) as int
            == fp_witness(a, b, op, m, offset, i) / 256
}

/// Whether `populate` accepts the operands: both below the modulus; for a
/// division the modulus at least 2, and a zero divisor only under a zero
/// dividend.
pub open spec fn operands_allowed(a: nat, b: nat, op: FpOperation, m: nat) -> bool {
    &&& a < m
    &&& b < m
    &&& op is Div ==> m >= 2 && (b == 0 ==> a == 0)
}

/// The integer that `x (+ or *) b` is.
pub open spec fn combined(x: nat, b: nat, product: bool) -> nat {
    if product {
        x * b
    } else {
        x + b
    }
}

/// The vanishing polynomial of the identity `x (+ or *) b = r + c * m`, with
/// `r` the remainder and `c` the quotient of the combination by `m`.
pub open spec fn base_vanishing(x: nat, b: nat, m: nat, product: bool) -> Seq<int> {
    vanishing(
        limbs_of(x),
        limbs_of(b),
        limbs_of(combined(x, b, product) % m),
        limbs_of(combined(x, b, product) / m),
        limbs_of(m),
        product,
    )
}

/// The facts on which the row of `x (+ or *) b` rests: remainder and
/// quotient fit in the limbs, the vanishing polynomial has 63 small
/// coefficients and vanishes at 256, and its quotient by `x - 256` has
/// coefficients of at most `MAX_QUOTIENT` in absolute value.
pub proof fn lemma_base_vanishing(x: nat, b: nat, m: nat, product: bool)
    requires
        0 < m < limb_bound(),
        x < m,
        b < m,
    ensures
        combined(x, b, product) % m < limb_bound(),
        combined(x, b, product) / m < limb_bound(),
        base_vanishing(x, b, m, product).len() == 63,
        forall|k: int|
            0 <= k < 63 ==> -vanishing_bound() <= #[trigger] base_vanishing(x, b, m, product)[k]
                <= vanishing_bound(),
        eval_at(base_vanishing(x, b, m, product), 256) == 0,
        forall|i: int|
            -1 <= i ==> -MAX_QUOTIENT <= #[trigger] quotient_coeff(
                base_vanishing(x, b, m, product),
                256,
                i,
            ) <= MAX_QUOTIENT,
{
    let comb = combined(x, b, product);
    let r = comb % m;
    let c = comb / m;
    lemma_fundamental_div_mod(comb as int, m as int);
    lemma_mod_bound(comb as int, m as int);
    assert(c < limb_bound()) by {
        if product {
            assert(x * b < m * m) by (nonlinear_arith)
                requires
                    x < m,
                    b < m,
            ;
            lemma_multiply_divide_lt(comb as int, m as int, m as int);
        } else {
            lemma_multiply_divide_lt(comb as int, m as int, 2);
        }
    }
    lemma_limbs_of(x);
    lemma_limbs_of(b);
    lemma_limbs_of(r);
    lemma_limbs_of(c);
    lemma_limbs_of(m);
    let v = base_vanishing(x, b, m, product);
    lemma_vanishing_bounds(
        limbs_of(x),
        limbs_of(b),
        limbs_of(r),
        limbs_of(c),
        limbs_of(m),
        product,
    );
    lemma_vanishing_value(limbs_of(x), limbs_of(b), limbs_of(r), limbs_of(c), limbs_of(m), product);
    assert(eval_at(v, 256) == comb - r - c * m);
    assert(c * m == m * c) by (nonlinear_arith);
    assert forall|i: int| -1 <= i implies -MAX_QUOTIENT <= #[trigger] quotient_coeff(v, 256, i)
        <= MAX_QUOTIENT by {
        lemma_quotient_bound(v, 256, vanishing_bound(), MAX_QUOTIENT as int, i);
    }
}

/// The cells of 32 limbs as a column.
fn limbs_from(cells: &Vec<u32>) -> (limbs: Limbs<u32>)
    requires
        cells@.len() == 32,
    ensures
        limbs.0@ == cells@,
{
    let mut array = [0u32;32];
    for i in 0..32usize
        invariant
            cells@.len() == 32,
            forall|k: int| 0 <= k < i ==> array@[k] == cells@[k],
    {
        array[i] = cells[i];
    }
    assert(array@ =~= cells@);
    Limbs(array)
}

/// The cells of a witness as a column.
fn witness_from(cells: &Vec<u32>) -> (column: [u32; 62])
    requires
        cells@.len() == 62,
    ensures
        column@ == cells@,
{
    let mut array = [0u32;62];
    for i in 0..62usize
        invariant
            cells@.len() == 62,
            forall|k: int| 0 <= k < i ==> array@[k] == cells@[k],
    {
        array[i] = cells[i];
    }
    assert(array@ =~= cells@);
    array
}

/// The polynomial of the limbs of `x`.
fn limb_polynomial(x: &BigNat) -> (p: Polynomial)
    requires
        x@ < limb_bound(),
    ensures
        p.wf(),
        p@ == limbs_of(x@),
        p.coefficients@.len() == 32,
{
    let limbs = FieldParameters::to_limbs(x);
    let p = Polynomial::from_limbs(limbs.as_slice());
    proof {
        assert(p@ =~= bytes_as_ints(limbs@));
        assert(p@.len() == 32);
        lemma_limbs_of(x@);
    }
    p
}

impl FpOpCols<u32> {
    /// A row of zero cells, to be filled by `populate`.
    pub fn new() -> (row: Self)
        ensures
            forall|k: int| 0 <= k < 32 ==> row.result.0@[k] == 0 && row.carry.0@[k] == 0,
            forall|k: int| 0 <= k < 62 ==> row.witness_low@[k] == 0 && row.witness_high@[k] == 0,
    {
        FpOpCols {
            result: Limbs([0u32;32]),
            carry: Limbs([0u32;32]),
            witness_low: [0u32;62],
            witness_high: [0u32;62],
        }
    }

    /// Fills the row for `x + b`, or for `x * b` where `product` is set, and
    /// returns the result.
    fn populate_base(
        &mut self,
        params: &FieldParameters,
        x: &BigNat,
        b: &BigNat,
        product: bool,
    ) -> (result: BigNat)
        requires
            params.wf(),
            x@ < params.modulus@,
            b@ < params.modulus@,
        ensures
            result@ == combined(x@, b@, product) % params.modulus@,
            ints(final(self).result.0@) == limbs_of(result@),
            ints(final(self).carry.0@) == limbs_of(combined(x@, b@, product) / params.modulus@),
            forall|i: int|
                0 <= i < 62 ==> (#[trigger] final(self).witness_low@[i]) as int == (quotient_coeff(
                    base_vanishing(x@, b@, params.modulus@, product),
                    256,
                    i,
                ) + params.witness_offset) % 256,
            forall|i: int|
                0 <= i < 62 ==> (#[trigger] final(self).witness_high@[i]) as int
                    == (quotient_coeff(base_vanishing(x@, b@, params.modulus@, product), 256, i)
                    + params.witness_offset) / 256,
    {
        let modulus = params.modulus();
        let ghost m = modulus@;
        let ghost comb = combined(x@, b@, product);
        let ghost v = base_vanishing(x@, b@, m, product);
        proof {
            lemma_base_vanishing(x@, b@, m, product);
            lemma_fundamental_div_mod(comb as int, m as int);
        }
        let p_a = limb_polynomial(x);
        let p_b = limb_polynomial(b);

        // The operation over the integers, with its quotient by the modulus.
        let whole = if product {
            big_mul(x, b)
        } else {
            big_add(x, b)
        };
        let result = big_rem(&whole, &modulus);
        let above = big_sub(&whole, &result);
        let carry = big_div(&above, &modulus);
        proof {
            assert(above@ == m * (comb / m));
            lemma_div_multiples_vanish((comb / m) as int, m as int);
            assert(carry@ == comb / m);
        }

        let p_modulus = limb_polynomial(&modulus);
        let p_result = limb_polynomial(&result);
        let p_carry = limb_polynomial(&carry);

        // The vanishing polynomial.
        let p_op = if product {
            p_a.times(&p_b)
        } else {
            p_a.plus(&p_b)
        };
        let p_op_minus_result = p_op.minus(&p_result);
        let p_carry_times_modulus = p_carry.times(&p_modulus);
        let p_vanishing = p_op_minus_result.minus(&p_carry_times_modulus);
        proof {
            let top = combine(limbs_of(x@), limbs_of(b@), product);
            assert(p_op@ == reduce(top));
            lemma_reduce_canonical(p_result@);
            lemma_reduce_sub(top, p_result@);
            lemma_reduce_sub(ip_sub(top, p_result@), ip_mul(p_carry@, p_modulus@));
            assert(p_vanishing@ == reduce(v));
            lemma_centered_reduce(v, vanishing_bound());
            assert(pow(2, 8) == 256) by {
                vstd::arithmetic::power2::lemma2_to64();
                vstd::arithmetic::power2::lemma_pow2(8);
            }
        }

        let p_witness = compute_root_quotient_and_shift(
            &p_vanishing,
            params.witness_offset,
            NB_BITS_PER_LIMB,
        );
        let (p_witness_low, p_witness_high) = split_u16_limbs_to_u8_limbs(&p_witness);
        proof {
            assert forall|i: int| 0 <= i < 62 implies (#[trigger] p_witness@[i]) as int
                == quotient_coeff(v, 256, i) + params.witness_offset by {
                let w = quotient_coeff(v, 256, i) + params.witness_offset;
                assert(-MAX_QUOTIENT <= quotient_coeff(v, 256, i) <= MAX_QUOTIENT);
                lemma_small_mod(w as nat, order() as nat);
            }
        }

        self.result = limbs_from(&p_result.coefficients);
        self.carry = limbs_from(&p_carry.coefficients);
        self.witness_low = witness_from(&p_witness_low);
        self.witness_high = witness_from(&p_witness_high);
        proof {
            assert(ints(self.result.0@) =~= p_result@);
            assert(ints(self.carry.0@) =~= p_carry@);
            assert forall|i: int| 0 <= i < 62 implies (#[trigger] self.witness_low@[i]) as int == (
            quotient_coeff(v, 256, i) + params.witness_offset) % 256 by {
                assert(self.witness_low@[i] == p_witness_low@[i]);
                assert(p_witness@[i] as int == quotient_coeff(v, 256, i) + params.witness_offset);
            }
            assert forall|i: int| 0 <= i < 62 implies (#[trigger] self.witness_high@[i]) as int
                == (quotient_coeff(v, 256, i) + params.witness_offset) / 256 by {
                assert(self.witness_high@[i] == p_witness_high@[i]);
                assert(p_witness@[i] as int == quotient_coeff(v, 256, i) + params.witness_offset);
                assert(-MAX_QUOTIENT <= quotient_coeff(v, 256, i) <= MAX_QUOTIENT);
            }
        }
        result
    }

    /// Fills the row for `a op b` and returns the result.
    ///
    /// A difference and a quotient are shown by the sum and the product that
    /// they undo: the carry and the witness are those of `result + b` and of
    /// `result * b`, and only the result column holds the result itself.
    /// `eval` swaps `a` and the result in the same way.
    pub fn populate(
        &mut self,
        params: &FieldParameters,
        a: &BigNat,
        b: &BigNat,
        op: FpOperation,
    ) -> (result: BigNat)
        requires
            params.wf(),
            operands_allowed(a@, b@, op, params.modulus@),
        ensures
            result@ == fp_result(a@, b@, op, params.modulus@),
            is_fp_row(*final(self), a@, b@, op, *params),
    {
        let modulus = params.modulus();
        let ghost m = modulus@;
        match op {
            FpOperation::Sub => {
                let lifted = big_add(&modulus, a);
                let difference = big_sub(&lifted, b);
                let result = big_rem(&difference, &modulus);
                proof {
                    lemma_mod_bound((m + a@ - b@) as int, m as int);
                }
                self.populate_base(params, &result, b, false);
                let p_result = limb_polynomial(&result);
                self.result = limbs_from(&p_result.coefficients);
                proof {
                    assert(ints(self.result.0@) =~= p_result@);
                    assert(base_vanishing(result@, b@, m, false) == fp_vanishing(a@, b@, op, m));
                }
                result
            },
            FpOperation::Div => {
                let two = small_number(2);
                let exponent = big_sub(&modulus, &two);
                let inverse = big_modpow(b, &exponent, &modulus);
                let scaled = big_mul(a, &inverse);
                let result = big_rem(&scaled, &modulus);
                proof {
                    lemma_mod_bound((a@ * inverse@) as int, m as int);
                }
                self.populate_base(params, &result, b, true);
                let p_result = limb_polynomial(&result);
                self.result = limbs_from(&p_result.coefficients);
                proof {
                    assert(ints(self.result.0@) =~= p_result@);
                    assert(base_vanishing(result@, b@, m, true) == fp_vanishing(a@, b@, op, m));
                }
                result
            },
            FpOperation::Add => {
                let result = self.populate_base(params, a, b, false);
                proof {
                    assert(base_vanishing(a@, b@, m, false) == fp_vanishing(a@, b@, op, m));
                }
                result
            },
            FpOperation::Mul => {
                let result = self.populate_base(params, a, b, true);
                proof {
                    assert(base_vanishing(a@, b@, m, true) == fp_vanishing(a@, b@, op, m));
                }
                result
            },
        }
    }
}

/// The number `x` of one byte.
fn small_number(x: u8) -> (n: BigNat)
    ensures
        n@ == x,
{
    let mut bytes: Vec<u8> = Vec::new();
    bytes.push(x);
    proof {
        let digits = bytes_as_ints(bytes@);
        assert(digits.drop_last().len() == 0);
        assert(eval_at(digits.drop_last(), 256) == 0);
        assert(pow(256, 0) == 1) by {
            reveal(pow);
        }
        assert(digits.last() == x);
    }
    BigNat::from_bytes_le(bytes)
}

/// Decides whether `populate` accepts the operands.
pub fn check_operands(params: &FieldParameters, a: &BigNat, b: &BigNat, op: FpOperation) -> (ok:
    bool)
    ensures
        ok == operands_allowed(a@, b@, op, params.modulus@),
{
    if !a.is_less_than(&params.modulus) || !b.is_less_than(&params.modulus) {
        return false;
    }
    match op {
        FpOperation::Div => {
            let one = small_number(1);
            one.is_less_than(&params.modulus) && (!b.is_zero() || a.is_zero())
        },
        _ => true,
    }
}

/// The polynomial whose coefficients read the cells `vars`.
pub open spec fn var_poly(vars: Seq<Var>) -> Seq<Expr> {
    Seq::new(vars.len(), |k: int| var(vars[k]))
}

/// The polynomial whose coefficients are the constants `limbs`.
pub open spec fn const_poly(limbs: Seq<u8>) -> Seq<Expr> {
    Seq::new(limbs.len(), |k: int| Expr::Constant(limbs[k] as u32))
}

/// The vanishing polynomial over the cells of a row: `left (+ or *) b -
/// right - carry * modulus`, where `a` stands left and the result right for
/// a sum or a product, and the other way round for a difference or a
/// quotient.
pub open spec fn vanishing_exprs(
    cols: FpOpCols<Var>,
    a: Limbs<Var>,
    b: Limbs<Var>,
    op: FpOperation,
    modulus_limbs: Seq<u8>,
) -> Seq<Expr> {
    let p_a_param = var_poly(a.0@);
    let p_b = var_poly(b.0@);
    let p_res = var_poly(cols.result.0@);
    let p_a = match op {
        FpOperation::Add | FpOperation::Mul => p_a_param,
        FpOperation::Sub | FpOperation::Div => p_res,
    };
    let p_result = match op {
        FpOperation::Add | FpOperation::Mul => p_res,
        FpOperation::Sub | FpOperation::Div => p_a_param,
    };
    let p_op = if is_product(op) {
        ep_mul(p_a, p_b)
    } else {
        ep_add(p_a, p_b)
    };
    ep_sub(ep_sub(p_op, p_result), ep_mul(var_poly(cols.carry.0@), const_poly(modulus_limbs)))
}

/// The witness polynomial over the cells of a row: `low + 256 * high -
/// offset`, coefficient by coefficient.
pub open spec fn witness_exprs(cols: FpOpCols<Var>, offset: u32) -> Seq<Expr> {
    let shifted = ep_add(
        var_poly(cols.witness_low@),
        ep_scale(var_poly(cols.witness_high@), Expr::Constant(256)),
    );
    ep_sub(shifted, Seq::new(shifted.len(), |k: int| Expr::Constant(offset)))
}

/// The polynomial `x - 256`.
pub open spec fn root_monomial() -> Seq<Expr> {
    seq![difference(Expr::Constant(0), Expr::Constant(256)), Expr::Constant(1)]
}

/// The polynomial whose coefficients `eval` asserts to be zero: the
/// vanishing polynomial minus the witness times `x - 256`.
pub open spec fn identity_exprs(
    cols: FpOpCols<Var>,
    a: Limbs<Var>,
    b: Limbs<Var>,
    op: FpOperation,
    modulus_limbs: Seq<u8>,
    offset: u32,
) -> Seq<Expr> {
    ep_sub(
        vanishing_exprs(cols, a, b, op, modulus_limbs),
        ep_mul(witness_exprs(cols, offset), root_monomial()),
    )
}

/// The constraints that tie a row of columns `cols` to `a op b`, in the
/// order in which `eval` asserts them.
pub open spec fn fp_constraints(
    cols: FpOpCols<Var>,
    a: Limbs<Var>,
    b: Limbs<Var>,
    op: FpOperation,
    params: FieldParameters,
) -> Seq<Constraint> {
    let identity = identity_exprs(
        cols,
        a,
        b,
        op,
        limb_bytes(params.modulus),
        params.witness_offset as u32,
    );
    Seq::new(identity.len(), |k: int| Constraint::AssertZero { when: None, value: identity[k] })
}

impl FpOpCols<Var> {
    /// Asserts on `builder` that the row with columns `self` shows `a op b`
    /// for the numbers whose limbs the cells `a` and `b` hold: each
    /// coefficient of the vanishing polynomial equals that of the witness
    /// times `x - 256`.
    pub fn eval(
        &self,
        builder: &mut ConstraintBuilder,
        params: &FieldParameters,
        a: &Limbs<Var>,
        b: &Limbs<Var>,
        op: FpOperation,
    )
        requires
            params.wf(),
        ensures
            final(builder)@ == old(builder)@ + fp_constraints(*self, *a, *b, op, *params),
    {
        let p_a_param = ExprPolynomial::from_vars(a.0.as_slice());
        let p_b = ExprPolynomial::from_vars(b.0.as_slice());
        let p_res = ExprPolynomial::from_vars(self.result.0.as_slice());

        let (p_a, p_result) = match op {
            FpOperation::Add | FpOperation::Mul => (p_a_param, p_res),
            FpOperation::Sub | FpOperation::Div => (p_res, p_a_param),
        };
        let p_carry = ExprPolynomial::from_vars(self.carry.0.as_slice());
        let p_op = match op {
            FpOperation::Add | FpOperation::Sub => p_a.plus(&p_b),
            FpOperation::Mul | FpOperation::Div => p_a.times(&p_b),
        };
        let p_op_minus_result = p_op.minus(&p_result);
        let modulus_limbs = FieldParameters::to_limbs(&params.modulus);
        let p_limbs = ExprPolynomial::from_constants(modulus_limbs.as_slice());
        let p_vanishing = p_op_minus_result.minus(&p_carry.times(&p_limbs));
        let p_witness_low = ExprPolynomial::from_vars(self.witness_low.as_slice());
        let p_witness_high = ExprPolynomial::from_vars(self.witness_high.as_slice());
        assert(p_vanishing@ == vanishing_exprs(*self, *a, *b, op, limb_bytes(params.modulus)));
        eval_field_operation(builder, params, &p_vanishing, &p_witness_low, &p_witness_high);
        proof {
            let identity = identity_exprs(
                *self,
                *a,
                *b,
                op,
                limb_bytes(params.modulus),
                params.witness_offset as u32,
            );
            assert(builder@ =~= old(builder)@ + fp_constraints(*self, *a, *b, op, *params));
        }
    }
}

/// The polynomial asserted to vanish coefficient by coefficient.
pub open spec fn checked_identity(
    vanishing: Seq<Expr>,
    low: Seq<Expr>,
    high: Seq<Expr>,
    offset: u32,
) -> Seq<Expr> {
    let shifted = ep_add(low, ep_scale(high, Expr::Constant(256)));
    let witness = ep_sub(shifted, Seq::new(shifted.len(), |k: int| Expr::Constant(offset)));
    ep_sub(vanishing, ep_mul(witness, root_monomial()))
}

/// Asserts that `p_vanishing` is the witness times `x - 256`, where the
/// witness is `p_witness_low + 256 * p_witness_high` shifted back by the
/// offset.
pub fn eval_field_operation(
    builder: &mut ConstraintBuilder,
    params: &FieldParameters,
    p_vanishing: &ExprPolynomial,
    p_witness_low: &ExprPolynomial,
    p_witness_high: &ExprPolynomial,
)
    requires
        params.wf(),
        p_witness_low@.len() + p_witness_high@.len() > 0,
        p_witness_low@.len() < usize::MAX - 2,
        p_witness_high@.len() < usize::MAX - 2,
    ensures
        final(builder)@ == old(builder)@ + Seq::new(
            checked_identity(
                p_vanishing@,
                p_witness_low@,
                p_witness_high@,
                params.witness_offset as u32,
            ).len(),
            |k: int|
                Constraint::AssertZero {
                    when: None,
                    value: checked_identity(
                        p_vanishing@,
                        p_witness_low@,
                        p_witness_high@,
                        params.witness_offset as u32,
                    )[k],
                },
        ),
{
    // Put the two halves of the witness together and shift it back.
    let limb = Expr::Constant(256);
    let p_witness_shifted = p_witness_low.plus(&p_witness_high.scaled(&limb));
    let offset = params.witness_offset as u32;
    let len = p_witness_shifted.coefficients.len();
    let mut offsets: Vec<Expr> = Vec::new();
    for k in 0..len
        invariant
            offsets@ == Seq::new(k as nat, |i: int| Expr::Constant(offset)),
    {
        offsets.push(Expr::Constant(offset));
        assert(offsets@ =~= Seq::new((k + 1) as nat, |i: int| Expr::Constant(offset)));
    }
    let p_witness = p_witness_shifted.minus(&ExprPolynomial { coefficients: offsets });

    // Multiply by x - 256 and assert the identity.
    let mut root: Vec<Expr> = Vec::new();
    root.push(Expr::Constant(0).minus(limb));
    root.push(Expr::Constant(1));
    let root_monomial_poly = ExprPolynomial { coefficients: root };
    assert(root_monomial_poly@ =~= root_monomial());

    let constraints = p_vanishing.minus(&p_witness.times(&root_monomial_poly));
    let ghost identity = checked_identity(p_vanishing@, p_witness_low@, p_witness_high@, offset);
    assert(constraints@ == identity);
    let ghost all = Seq::new(
        identity.len(),
        |k: int| Constraint::AssertZero { when: None, value: identity[k] },
    );
    for k in 0..constraints.coefficients.len()
        invariant
            constraints@ == identity,
            all == Seq::new(
                identity.len(),
                |k: int| Constraint::AssertZero { when: None, value: identity[k] },
            ),
            builder@ == old(builder)@ + all.take(k as int),
    {
        builder.assert_zero(constraints.coefficients[k].duplicate());
        assert(builder@ =~= old(builder)@ + all.take(k + 1));
    }
    assert(all.take(identity.len() as int) =~= all);
}

} // verus!
