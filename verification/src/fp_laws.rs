//! What the constraints of a field operation mean on a row, and that the
//! rows that `populate` writes meet them.

use crate::bignat::bytes_as_ints;
use crate::builder::{all_hold, lemma_zero_holds};
use crate::expr::{cell, difference, product, sum, Expr, Var};
use crate::expr_poly::{
    ep_add, ep_mul, ep_scale, ep_sub, lemma_values_add, lemma_values_mul, lemma_values_sub, values,
};
use crate::field::{f_add, f_mul, f_sub, lemma_f_sub_residues, order, reduce};
use crate::fp_op::{
    base_vanishing, combination, combined, const_poly, fp_carry, fp_constraints, fp_remainder,
    fp_result, fp_vanishing, fp_witness, identity_exprs, ints, is_fp_row, is_product,
    lemma_base_vanishing, left_operand, operands_allowed, root_monomial, var_poly,
    vanishing_exprs, witness_exprs, FpOpCols, FpOperation,
};
use crate::fp_spec::{combine, lemma_reduce_canonical, lemma_reduce_sub, vanishing};
use crate::params::{lemma_limb_bytes, limb_bytes, limbs_of, FieldParameters, Limbs, MAX_QUOTIENT};
use crate::poly::{coeff, conv, eval_at, ip_mul, ip_sub};
use crate::prime::{is_prime, lemma_fermat};
use crate::witness::{lemma_quotient_identity, quotient_coeff};
use vstd::arithmetic::div_mod::*;
use vstd::arithmetic::power::pow;
use vstd::prelude::*;

verus! {

/// What `row` holds in the cells `vars`.
pub open spec fn cells(vars: Seq<Var>, row: Seq<u32>) -> Seq<int> {
    Seq::new(vars.len(), |k: int| cell(row, vars[k].0 as int))
}

/// The values of a polynomial of cells are what the cells hold.
pub proof fn lemma_var_poly_values(vars: Seq<Var>, row: Seq<u32>)
    ensures
        values(var_poly(vars), row) == cells(vars, row),
        reduce(cells(vars, row)) == cells(vars, row),
{
    assert(values(var_poly(vars), row) =~= cells(vars, row));
    lemma_reduce_canonical(cells(vars, row));
}

/// The values of a polynomial of constant bytes are the bytes.
pub proof fn lemma_const_poly_values(limbs: Seq<u8>, row: Seq<u32>)
    ensures
        values(const_poly(limbs), row) == bytes_as_ints(limbs),
{
    assert(values(const_poly(limbs), row) =~= bytes_as_ints(limbs));
}

/// Partial product coefficients of congruent polynomials are congruent.
proof fn lemma_conv_congruent(x: Seq<int>, y: Seq<int>, n: int, k: int)
    requires
        0 <= n <= x.len(),
    ensures
        conv(reduce(x), reduce(y), n, k) % order() == conv(x, y, n, k) % order(),
    decreases n,
{
    if n > 0 {
        lemma_conv_congruent(x, y, n - 1, k);
        let p = order();
        let before_r = conv(reduce(x), reduce(y), n - 1, k);
        let before = conv(x, y, n - 1, k);
        let xr = reduce(x)[n - 1];
        let yr = coeff(reduce(y), k - (n - 1));
        let xi = x[n - 1];
        let yi = coeff(y, k - (n - 1));
        assert(xr == xi % p);
        assert(yr == yi % p);
        lemma_mul_mod_noop(xi, yi, p);
        lemma_mul_mod_noop(xr, yr, p);
        lemma_mod_twice(xi, p);
        lemma_mod_twice(yi, p);
        assert((xr * yr) % p == (xi * yi) % p);
        lemma_add_mod_noop(before_r, xr * yr, p);
        lemma_add_mod_noop(before, xi * yi, p);
    }
}

/// Reducing both factors before a multiplication does not change the
/// reduced product.
pub proof fn lemma_reduce_mul(x: Seq<int>, y: Seq<int>)
    ensures
        reduce(ip_mul(reduce(x), reduce(y))) == reduce(ip_mul(x, y)),
{
    let l = reduce(ip_mul(reduce(x), reduce(y)));
    let r = reduce(ip_mul(x, y));
    assert forall|k: int| 0 <= k < l.len() implies l[k] == r[k] by {
        lemma_conv_congruent(x, y, x.len() as int, k);
    }
    assert(l =~= r);
}

/// The polynomial `x - root`.
pub open spec fn linear_factor(root: int) -> Seq<int> {
    seq![-root, 1]
}

/// A partial product coefficient of `q * (x - root)`.
proof fn lemma_conv_linear(q: Seq<int>, root: int, n: int, k: int)
    requires
        0 <= n <= q.len(),
    ensures
        conv(q, linear_factor(root), n, k) == (if 0 <= k < n {
            -root * q[k]
        } else {
            0
        }) + (if 1 <= k <= n {
            q[k - 1]
        } else {
            0
        }),
    decreases n,
{
    if n > 0 {
        lemma_conv_linear(q, root, n - 1, k);
        let f = linear_factor(root);
        let i = n - 1;
        if k == i {
            assert(coeff(f, 0) == -root);
            assert(q[i] * (-root) == -root * q[i]) by (nonlinear_arith);
        } else if k == i + 1 {
            assert(coeff(f, 1) == 1);
            assert(q[i] * 1 == q[i]);
        } else {
            assert(coeff(f, k - i) == 0);
            assert(q[i] * 0 == 0);
        }
    }
}

/// Where `v` vanishes at `root`, it is its quotient times `x - root`.
pub proof fn lemma_quotient_times_factor(v: Seq<int>, q: Seq<int>, root: int)
    requires
        v.len() >= 2,
        q.len() == v.len() - 1,
        eval_at(v, root) == 0,
        forall|i: int| 0 <= i < q.len() ==> q[i] == quotient_coeff(v, root, i),
    ensures
        ip_sub(v, ip_mul(q, linear_factor(root))) == Seq::new(v.len(), |k: int| 0int),
{
    let d = ip_sub(v, ip_mul(q, linear_factor(root)));
    assert forall|k: int| 0 <= k < v.len() implies d[k] == 0 by {
        lemma_conv_linear(q, root, q.len() as int, k);
        lemma_quotient_identity(v, root, k);
        assert(coeff(ip_mul(q, linear_factor(root)), k) == conv(
            q,
            linear_factor(root),
            q.len() as int,
            k,
        ));
        let n = q.len() as int;
        let here = quotient_coeff(v, root, k);
        let below = quotient_coeff(v, root, k - 1);
        assert(v[k] == below - root * here);
        assert(-root * here == -(root * here)) by (nonlinear_arith);
        if k < n {
            assert(q[k] == here);
        } else {
            assert(here == 0);
            assert(root * 0 == 0);
        }
        if k >= 1 {
            assert(q[k - 1] == below);
        } else {
            assert(below == 0);
        }
        assert(d[k] == coeff(v, k) - coeff(ip_mul(q, linear_factor(root)), k));
    }
    assert(d =~= Seq::new(v.len(), |k: int| 0int));
}

/// The cells that stand left of `b` in the identity: those of `a` for a sum
/// or a product, those of the result for a difference or a quotient.
pub open spec fn left_cells(
    cols: FpOpCols<Var>,
    a: Limbs<Var>,
    op: FpOperation,
    row: Seq<u32>,
) -> Seq<int> {
    match op {
        FpOperation::Add | FpOperation::Mul => cells(a.0@, row),
        FpOperation::Sub | FpOperation::Div => cells(cols.result.0@, row),
    }
}

/// The cells that stand right of the equals sign in the identity.
pub open spec fn right_cells(
    cols: FpOpCols<Var>,
    a: Limbs<Var>,
    op: FpOperation,
    row: Seq<u32>,
) -> Seq<int> {
    match op {
        FpOperation::Add | FpOperation::Mul => cells(cols.result.0@, row),
        FpOperation::Sub | FpOperation::Div => cells(a.0@, row),
    }
}

/// The vanishing polynomial that a row holds, over the integers.
pub open spec fn row_vanishing(
    cols: FpOpCols<Var>,
    a: Limbs<Var>,
    b: Limbs<Var>,
    op: FpOperation,
    modulus_limbs: Seq<u8>,
    row: Seq<u32>,
) -> Seq<int> {
    vanishing(
        left_cells(cols, a, op, row),
        cells(b.0@, row),
        right_cells(cols, a, op, row),
        cells(cols.carry.0@, row),
        bytes_as_ints(modulus_limbs),
        is_product(op),
    )
}

/// The witness polynomial that a row holds, over the integers.
pub open spec fn row_witness(cols: FpOpCols<Var>, offset: u32, row: Seq<u32>) -> Seq<int> {
    Seq::new(
        62,
        |i: int|
            cell(row, cols.witness_low@[i].0 as int) + 256 * cell(
                row,
                cols.witness_high@[i].0 as int,
            ) - offset,
    )
}

/// On every row, the values of the vanishing expressions are the residues
/// of the vanishing polynomial that the row holds.
pub proof fn lemma_vanishing_values(
    cols: FpOpCols<Var>,
    a: Limbs<Var>,
    b: Limbs<Var>,
    op: FpOperation,
    modulus_limbs: Seq<u8>,
    row: Seq<u32>,
)
    requires
        modulus_limbs.len() == 32,
    ensures
        values(vanishing_exprs(cols, a, b, op, modulus_limbs), row) == reduce(
            row_vanishing(cols, a, b, op, modulus_limbs, row),
        ),
{
    let p_a_param = var_poly(a.0@);
    let p_b = var_poly(b.0@);
    let p_res = var_poly(cols.result.0@);
    let p_a = match op {
        FpOperation::Add | FpOperation::Mul => p_a_param,
        FpOperation::Sub | FpOperation::Div => p_res,
    };
    let p_result = match op {
        FpOperation::Add | FpOperation::Mul => p_res,
        FpOperation::Sub | FpOperation::Div => p_a_param,
    };
    let p_op = if is_product(op) {
        ep_mul(p_a, p_b)
    } else {
        ep_add(p_a, p_b)
    };
    let p_carry = var_poly(cols.carry.0@);
    let p_limbs = const_poly(modulus_limbs);
    lemma_var_poly_values(a.0@, row);
    lemma_var_poly_values(b.0@, row);
    lemma_var_poly_values(cols.result.0@, row);
    lemma_var_poly_values(cols.carry.0@, row);
    lemma_const_poly_values(modulus_limbs, row);
    let x = left_cells(cols, a, op, row);
    let bv = cells(b.0@, row);
    let r = right_cells(cols, a, op, row);
    let c = cells(cols.carry.0@, row);
    let m = bytes_as_ints(modulus_limbs);
    let top = combine(x, bv, is_product(op));
    assert(values(p_a, row) == x);
    assert(values(p_result, row) == r);
    if is_product(op) {
        lemma_values_mul(p_a, p_b, row);
    } else {
        lemma_values_add(p_a, p_b, row);
    }
    assert(values(p_op, row) == reduce(top));
    lemma_values_sub(p_op, p_result, row);
    lemma_reduce_sub(top, r);
    assert(values(ep_sub(p_op, p_result), row) == reduce(ip_sub(top, r)));
    lemma_values_mul(p_carry, p_limbs, row);
    lemma_values_sub(ep_sub(p_op, p_result), ep_mul(p_carry, p_limbs), row);
    lemma_reduce_sub(ip_sub(top, r), ip_mul(c, m));
}

/// On every row, the values of the witness expressions are the residues of
/// the witness polynomial that the row holds.
pub proof fn lemma_witness_values(cols: FpOpCols<Var>, offset: u32, row: Seq<u32>)
    ensures
        values(witness_exprs(cols, offset), row) == reduce(row_witness(cols, offset, row)),
{
    let low = var_poly(cols.witness_low@);
    let high = var_poly(cols.witness_high@);
    let scaled = ep_scale(high, Expr::Constant(256));
    let shifted = ep_add(low, scaled);
    let offsets = Seq::new(shifted.len(), |k: int| Expr::Constant(offset));
    let l = values(witness_exprs(cols, offset), row);
    let r = reduce(row_witness(cols, offset, row));
    assert(l.len() == 62);
    assert forall|i: int| 0 <= i < 62 implies l[i] == r[i] by {
        let lo = cell(row, cols.witness_low@[i].0 as int);
        let hi = cell(row, cols.witness_high@[i].0 as int);
        assert(low[i].value(row) == lo);
        assert(high[i].value(row) == hi);
        assert(Expr::Constant(256).value(row) == 256);
        assert(scaled[i].value(row) == f_mul(hi, 256));
        assert(shifted[i] == sum(low[i], scaled[i]));
        assert(shifted[i].value(row) == f_add(lo, f_mul(hi, 256)));
        assert(hi * 256 == 256 * hi);
        lemma_add_mod_noop(lo, 256 * hi, order());
        assert(shifted[i].value(row) == (lo + 256 * hi) % order());
        assert(offsets[i].value(row) == offset as int % order());
        assert(witness_exprs(cols, offset)[i] == difference(shifted[i], offsets[i]));
        lemma_f_sub_residues(lo + 256 * hi, offset as int);
    }
    assert(l =~= r);
}

/// What the asserted expressions are worth on a row: the residues of the
/// vanishing polynomial that the row holds minus its witness polynomial
/// times `x - 256`.
pub proof fn lemma_identity_values(
    cols: FpOpCols<Var>,
    a: Limbs<Var>,
    b: Limbs<Var>,
    op: FpOperation,
    modulus_limbs: Seq<u8>,
    offset: u32,
    row: Seq<u32>,
)
    requires
        modulus_limbs.len() == 32,
    ensures
        values(identity_exprs(cols, a, b, op, modulus_limbs, offset), row) == reduce(
            ip_sub(
                row_vanishing(cols, a, b, op, modulus_limbs, row),
                ip_mul(row_witness(cols, offset, row), linear_factor(256)),
            ),
        ),
{
    let ve = vanishing_exprs(cols, a, b, op, modulus_limbs);
    let we = witness_exprs(cols, offset);
    let v = row_vanishing(cols, a, b, op, modulus_limbs, row);
    let w = row_witness(cols, offset, row);
    lemma_vanishing_values(cols, a, b, op, modulus_limbs, row);
    lemma_witness_values(cols, offset, row);
    let root = root_monomial();
    assert(values(root, row) =~= reduce(linear_factor(256))) by {
        assert(Expr::Constant(0).value(row) == 0);
        assert(Expr::Constant(256).value(row) == 256);
        assert(root[0].value(row) == f_sub(0, 256));
        assert(root[1].value(row) == 1);
    }
    assert(we.len() == 62);
    lemma_values_mul(we, root, row);
    lemma_reduce_mul(w, linear_factor(256));
    lemma_values_sub(ve, ep_mul(we, root), row);
    lemma_reduce_sub(v, ip_mul(w, linear_factor(256)));
}

/// Whether `row` holds the row `values` in the columns `cols`.
pub open spec fn fp_assigned(cols: FpOpCols<Var>, values: FpOpCols<u32>, row: Seq<u32>) -> bool {
    &&& cells(cols.result.0@, row) == ints(values.result.0@)
    &&& cells(cols.carry.0@, row) == ints(values.carry.0@)
    &&& cells(cols.witness_low@, row) == ints(values.witness_low@)
    &&& cells(cols.witness_high@, row) == ints(values.witness_high@)
}

/// The row of `a op b` meets the constraints of the operation, provided
/// that the combination of the left operand with `b` leaves the number on
/// the right of the identity.
pub proof fn lemma_row_meets_constraints(
    a: nat,
    b: nat,
    op: FpOperation,
    params: FieldParameters,
    filled: FpOpCols<u32>,
    cols: FpOpCols<Var>,
    a_vars: Limbs<Var>,
    b_vars: Limbs<Var>,
    row: Seq<u32>,
)
    requires
        params.wf(),
        operands_allowed(a, b, op, params.modulus@),
        is_fp_row(filled, a, b, op, params),
        cells(a_vars.0@, row) == limbs_of(a),
        cells(b_vars.0@, row) == limbs_of(b),
        fp_assigned(cols, filled, row),
        op is Sub || op is Div ==> fp_remainder(a, b, op, params.modulus@) == a,
    ensures
        all_hold(fp_constraints(cols, a_vars, b_vars, op, params), row),
{
    let m = params.modulus@;
    let offset = params.witness_offset as u32;
    let modulus_limbs = limb_bytes(params.modulus);
    let left = left_operand(a, b, op, m);
    let v = fp_vanishing(a, b, op, m);
    let rv = row_vanishing(cols, a_vars, b_vars, op, modulus_limbs, row);
    let w = row_witness(cols, offset, row);
    lemma_limb_bytes(params.modulus);
    assert(left < m) by {
        if op is Sub {
            lemma_mod_bound((m + a - b) as int, m as int);
        } else if op is Div {
            lemma_mod_bound(
                (a * ((pow(b as int, (m - 2) as nat) % (m as int)) as nat)) as int,
                m as int,
            );
        }
    }
    assert(base_vanishing(left, b, m, is_product(op)) == v);
    lemma_base_vanishing(left, b, m, is_product(op));
    assert(rv == v) by {
        assert(left_cells(cols, a_vars, op, row) == limbs_of(left));
        assert(right_cells(cols, a_vars, op, row) == limbs_of(fp_remainder(a, b, op, m)));
    }
    assert forall|i: int| 0 <= i < 62 implies w[i] == quotient_coeff(v, 256, i) by {
        let fw = fp_witness(a, b, op, m, params.witness_offset as int, i);
        let lo = cell(row, cols.witness_low@[i].0 as int);
        let hi = cell(row, cols.witness_high@[i].0 as int);
        assert(lo == cells(cols.witness_low@, row)[i]);
        assert(hi == cells(cols.witness_high@, row)[i]);
        assert(lo == ints(filled.witness_low@)[i]);
        assert(hi == ints(filled.witness_high@)[i]);
        assert(lo == filled.witness_low@[i] as int);
        assert(hi == filled.witness_high@[i] as int);
        lemma_fundamental_div_mod(fw, 256);
    }
    lemma_quotient_times_factor(v, w, 256);
    lemma_identity_values(cols, a_vars, b_vars, op, modulus_limbs, offset, row);
    let identity = identity_exprs(cols, a_vars, b_vars, op, modulus_limbs, offset);
    let constraints = fp_constraints(cols, a_vars, b_vars, op, params);
    assert forall|k: int| 0 <= k < constraints.len() implies (#[trigger] constraints[k]).holds(
        row,
    ) by {
        assert(values(identity, row)[k] == identity[k].value(row));
        assert(ip_sub(v, ip_mul(w, linear_factor(256)))[k] == 0);
        assert(identity[k].value(row) == 0);
        lemma_zero_holds(None, identity[k], row);
    }
}

/// A difference is shown by the sum that it undoes: the result plus `b`
/// leaves `a` on division by the modulus.
pub proof fn lemma_sub_remainder(a: nat, b: nat, m: nat)
    requires
        a < m,
        b < m,
    ensures
        fp_remainder(a, b, FpOperation::Sub, m) == a,
{
    let r = fp_result(a, b, FpOperation::Sub, m);
    let mi = m as int;
    if a >= b {
        lemma_mod_add_multiples_vanish(a - b, mi);
        lemma_small_mod((a - b) as nat, m);
        assert(r == a - b);
        lemma_small_mod(a, m);
    } else {
        lemma_small_mod((m + a - b) as nat, m);
        assert(r == m + a - b);
        lemma_mod_add_multiples_vanish(a as int, mi);
        lemma_small_mod(a, m);
    }
}

/// The sum and the product are reduced: the result is below the modulus,
/// and the modulus divides what the result falls short of the integer sum
/// or product.
pub proof fn lemma_result_reduces(a: nat, b: nat, op: FpOperation, m: nat)
    requires
        m > 0,
        op is Add || op is Mul,
    ensures
        fp_result(a, b, op, m) < m,
        (combined(a, b, is_product(op)) - fp_result(a, b, op, m)) % (m as int) == 0,
        combined(a, b, is_product(op)) - fp_result(a, b, op, m) == m * fp_carry(a, b, op, m),
{
    let whole = combined(a, b, is_product(op)) as int;
    let mi = m as int;
    lemma_mod_bound(whole, mi);
    lemma_fundamental_div_mod(whole, mi);
    lemma_mod_multiples_basic(whole / mi, mi);
    assert(mi * (whole / mi) == (whole / mi) * mi) by (nonlinear_arith);
}

/// In a prime field a quotient times the divisor is the dividend.
pub proof fn lemma_div_undone(a: nat, b: nat, m: nat)
    requires
        is_prime(m),
        a < m,
        0 < b < m,
    ensures
        (fp_result(a, b, FpOperation::Div, m) * b) % m == a,
{
    let mi = m as int;
    let bi = b as int;
    let ai = a as int;
    let power = pow(bi, (m - 2) as nat);
    let inverse = power % mi;
    let result = (ai * inverse) % mi;
    lemma_mod_bound(power, mi);
    lemma_mod_bound(ai * inverse, mi);
    assert(fp_result(a, b, FpOperation::Div, m) == result);
    lemma_small_mod(b, m);
    lemma_fermat(m, b);
    assert(pow(bi, (m - 1) as nat) == bi * power) by {
        reveal(pow);
    }
    assert((inverse * bi) % mi == 1) by {
        lemma_mul_mod_noop_left(power, bi, mi);
        assert(power * bi == bi * power) by (nonlinear_arith);
    }
    lemma_mul_mod_noop_left(ai * inverse, bi, mi);
    assert((ai * inverse) * bi == ai * (inverse * bi)) by (nonlinear_arith);
    lemma_mul_mod_noop_right(ai, inverse * bi, mi);
    assert(ai * 1 == ai);
    lemma_small_mod(a, m);
}

/// Zero divided by zero is zero.
pub proof fn lemma_zero_by_zero(m: nat)
    requires
        m >= 2,
    ensures
        fp_result(0, 0, FpOperation::Div, m) == 0,
{
    let inverse = (pow(0, (m - 2) as nat) % (m as int)) as nat;
    assert(0 * inverse == 0);
    lemma_small_mod(0, m);
}

/// A quotient is shown by the product that it undoes: in a prime field the
/// result times `b` leaves `a` on division by the modulus, also where both
/// are zero.
pub proof fn lemma_div_remainder(a: nat, b: nat, m: nat)
    requires
        is_prime(m),
        operands_allowed(a, b, FpOperation::Div, m),
    ensures
        fp_remainder(a, b, FpOperation::Div, m) == a,
{
    if b == 0 {
        let r = fp_result(a, b, FpOperation::Div, m);
        assert(r * 0 == 0);
        lemma_small_mod(0, m);
    } else {
        lemma_div_undone(a, b, m);
    }
}

/// Every cell of the row of `a op b` holds a byte, and the two bytes of a
/// witness coefficient put together are the coefficient.
pub proof fn lemma_fp_row_holds_bytes(
    a: nat,
    b: nat,
    op: FpOperation,
    params: FieldParameters,
    filled: FpOpCols<u32>,
)
    requires
        params.wf(),
        operands_allowed(a, b, op, params.modulus@),
        is_fp_row(filled, a, b, op, params),
    ensures
        forall|k: int| 0 <= k < 32 ==> (#[trigger] filled.result.0@[k]) < 256,
        forall|k: int| 0 <= k < 32 ==> (#[trigger] filled.carry.0@[k]) < 256,
        forall|i: int| 0 <= i < 62 ==> (#[trigger] filled.witness_low@[i]) < 256,
        forall|i: int| 0 <= i < 62 ==> (#[trigger] filled.witness_high@[i]) < 256,
        forall|i: int|
            0 <= i < 62 ==> (#[trigger] filled.witness_low@[i]) + 256 * filled.witness_high@[i]
                == fp_witness(a, b, op, params.modulus@, params.witness_offset as int, i),
{
    let m = params.modulus@;
    let offset = params.witness_offset as int;
    let left = left_operand(a, b, op, m);
    assert(left < m) by {
        if op is Sub {
            lemma_mod_bound((m + a - b) as int, m as int);
        } else if op is Div {
            lemma_mod_bound(
                (a * ((pow(b as int, (m - 2) as nat) % (m as int)) as nat)) as int,
                m as int,
            );
        }
    }
    assert(base_vanishing(left, b, m, is_product(op)) == fp_vanishing(a, b, op, m));
    lemma_base_vanishing(left, b, m, is_product(op));
    assert forall|k: int| 0 <= k < 32 implies (#[trigger] filled.result.0@[k]) < 256 by {
        assert(ints(filled.result.0@)[k] == limbs_of(fp_result(a, b, op, m))[k]);
    }
    assert forall|k: int| 0 <= k < 32 implies (#[trigger] filled.carry.0@[k]) < 256 by {
        assert(ints(filled.carry.0@)[k] == limbs_of(fp_carry(a, b, op, m))[k]);
    }
    assert forall|i: int| 0 <= i < 62 implies (#[trigger] filled.witness_low@[i]) < 256
        && filled.witness_high@[i] < 256 && filled.witness_low@[i] + 256
        * filled.witness_high@[i] == fp_witness(a, b, op, m, offset, i) by {
        let fw = fp_witness(a, b, op, m, offset, i);
        assert(-MAX_QUOTIENT <= quotient_coeff(fp_vanishing(a, b, op, m), 256, i)
            <= MAX_QUOTIENT);
        assert(0 <= fw < 0x1_0000);
        lemma_fundamental_div_mod(fw, 256);
        assert(filled.witness_low@[i] as int == fw % 256);
        assert(filled.witness_high@[i] as int == fw / 256);
    }
}

/// The row that `populate` writes for `a op b` meets every constraint that
/// `eval` asserts: on a row that holds the limbs of `a` and `b` in the
/// cells `a_vars` and `b_vars` and the populated row in the columns `cols`,
/// all of them hold. For a division the modulus has to be prime.
pub proof fn lemma_fp_round_trip(
    a: nat,
    b: nat,
    op: FpOperation,
    params: FieldParameters,
    filled: FpOpCols<u32>,
    cols: FpOpCols<Var>,
    a_vars: Limbs<Var>,
    b_vars: Limbs<Var>,
    row: Seq<u32>,
)
    requires
        params.wf(),
        operands_allowed(a, b, op, params.modulus@),
        op is Div ==> is_prime(params.modulus@),
        is_fp_row(filled, a, b, op, params),
        cells(a_vars.0@, row) == limbs_of(a),
        cells(b_vars.0@, row) == limbs_of(b),
        fp_assigned(cols, filled, row),
    ensures
        all_hold(fp_constraints(cols, a_vars, b_vars, op, params), row),
{
    if op is Sub {
        lemma_sub_remainder(a, b, params.modulus@);
    } else if op is Div {
        lemma_div_remainder(a, b, params.modulus@);
    }
    lemma_row_meets_constraints(a, b, op, params, filled, cols, a_vars, b_vars, row);
}

} // verus!
