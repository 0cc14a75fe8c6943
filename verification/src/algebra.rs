//! The mathematical model of the scalar field and of polynomial evaluation.
//!
//! Scalars are modelled as natural numbers below `field_r()`, the prime order
//! of the BLS12-381 scalar field; group elements are modelled by their
//! discrete logarithm with respect to the standard generator, which is again
//! a natural number below `field_r()`.  All contracts of the crate are stated
//! over this model.

use vstd::prelude::*;

verus! {

/// The prime order of the BLS12-381 scalar field,
/// 0x73eda753299d7d483339d80809a1d80553bda402fffe5bfeffffffff00000001,
/// written as high half * 2^127 * 2 + low half so that each literal fits.
pub open spec fn field_r() -> nat {
    0x73eda753299d7d483339d80809a1d805 * 0x80000000000000000000000000000000 * 2
        + 0x53bda402fffe5bfeffffffff00000001
}

/// Field addition: `(a + b) mod r`.
pub open spec fn fadd(a: nat, b: nat) -> nat {
    (((a + b) as int) % (field_r() as int)) as nat
}

/// Field subtraction for operands below `r`: `(a - b) mod r`.
pub open spec fn fsub(a: nat, b: nat) -> nat {
    ((a + field_r() - b) % (field_r() as int)) as nat
}

/// Field multiplication: `(a * b) mod r`.
pub open spec fn fmul(a: nat, b: nat) -> nat {
    (((a * b) as int) % (field_r() as int)) as nat
}

/// Field negation: `(-a) mod r`.
pub open spec fn fneg(a: nat) -> nat {
    fsub(0, a)
}

/// The value of a little-endian byte string.
pub open spec fn le_val(s: Seq<u8>) -> nat
    decreases s.len(),
{
    if s.len() == 0 {
        0
    } else {
        (s[0] + 256 * le_val(s.drop_first())) as nat
    }
}

/// Evaluation of the polynomial with coefficient values `c` (constant term
/// first) at the point `x`, in the scalar field.
pub open spec fn poly_eval(c: Seq<nat>, x: nat) -> nat
    decreases c.len(),
{
    if c.len() == 0 {
        0
    } else {
        fadd(c[0], fmul(x, poly_eval(c.drop_first(), x)))
    }
}

pub proof fn lemma_field_r_bounds()
    ensures
        field_r() > 0x100000000000000000000000000000000,
        field_r() > 2,
{
}

/// Two byte strings of the same length with the same little-endian value
/// are the same string.
pub proof fn lemma_le_val_injective(a: Seq<u8>, b: Seq<u8>)
    requires
        a.len() == b.len(),
        le_val(a) == le_val(b),
    ensures
        a == b,
    decreases a.len(),
{
    if a.len() == 0 {
        assert(a =~= b);
    } else {
        assert(a[0] == b[0] && le_val(a.drop_first()) == le_val(b.drop_first()));
        lemma_le_val_injective(a.drop_first(), b.drop_first());
        assert forall|i: int| 0 <= i < a.len() implies a[i] == b[i] by {
            if i > 0 {
                assert(a[i] == a.drop_first()[i - 1]);
                assert(b[i] == b.drop_first()[i - 1]);
            }
        }
        assert(a =~= b);
    }
}

pub proof fn lemma_fmul_comm(a: nat, b: nat)
    ensures
        fmul(a, b) == fmul(b, a),
{
    assert(a * b == b * a) by (nonlinear_arith);
}

/// Field multiplication is associative.
pub proof fn lemma_fmul_assoc(a: nat, b: nat, c: nat)
    ensures
        fmul(fmul(a, b), c) == fmul(a, fmul(b, c)),
{
    let r = field_r() as int;
    vstd::arithmetic::div_mod::lemma_mul_mod_noop_left((a * b) as int, c as int, r);
    vstd::arithmetic::div_mod::lemma_mul_mod_noop_right(a as int, (b * c) as int, r);
    assert((a * b) * c == a * (b * c)) by (nonlinear_arith);
}

/// Field multiplication distributes over field subtraction.
pub proof fn lemma_fmul_dist_fsub(a: nat, b: nat, c: nat)
    ensures
        fmul(a, fsub(b, c)) == fsub(fmul(a, b), fmul(a, c)),
{
    let r = field_r() as int;
    vstd::arithmetic::div_mod::lemma_mul_mod_noop_right(a as int, b + r - c, r);
    assert(a * (b + r - c) == a * b + a * r - a * c) by (nonlinear_arith);
    assert(a * r == r * a) by (nonlinear_arith);
    vstd::arithmetic::div_mod::lemma_mod_multiples_vanish(a as int, a * b - a * c, r);
    vstd::arithmetic::div_mod::lemma_sub_mod_noop((a * b) as int, (a * c) as int, r);
    vstd::arithmetic::div_mod::lemma_mod_add_multiples_vanish((a * b) as int % r - (a * c) as int % r, r);
}

/// Field multiplication distributes over field addition.
pub proof fn lemma_fmul_dist_fadd(a: nat, b: nat, c: nat)
    ensures
        fmul(a, fadd(b, c)) == fadd(fmul(a, b), fmul(a, c)),
{
    let r = field_r() as int;
    vstd::arithmetic::div_mod::lemma_mul_mod_noop_right(a as int, (b + c) as int, r);
    assert(a * (b + c) == a * b + a * c) by (nonlinear_arith);
    vstd::arithmetic::div_mod::lemma_add_mod_noop((a * b) as int, (a * c) as int, r);
}

/// Two sums of two terms each can be regrouped across the additions.
pub proof fn lemma_fadd_4(a: nat, b: nat, c: nat, d: nat)
    ensures
        fadd(fadd(a, b), fadd(c, d)) == fadd(fadd(a, c), fadd(b, d)),
{
    let r = field_r() as int;
    vstd::arithmetic::div_mod::lemma_add_mod_noop((a + b) as int, (c + d) as int, r);
    vstd::arithmetic::div_mod::lemma_add_mod_noop((a + c) as int, (b + d) as int, r);
}

/// Two products of two factors each can be regrouped across the
/// multiplications.
pub proof fn lemma_fmul_4(a: nat, b: nat, c: nat, d: nat)
    ensures
        fmul(fmul(a, b), fmul(c, d)) == fmul(fmul(a, c), fmul(b, d)),
{
    lemma_field_r_bounds();
    lemma_fmul_cong(a, b);
    lemma_fmul_cong(c, d);
    lemma_fmul_cong(a, c);
    lemma_fmul_cong(b, d);
    lemma_cong_mul(fmul(a, b) as int, fmul(c, d) as int, (a * b) as int, (c * d) as int);
    lemma_cong_mul(fmul(a, c) as int, fmul(b, d) as int, (a * c) as int, (b * d) as int);
    assert((a * b) * (c * d) == (a * c) * (b * d)) by (nonlinear_arith);
    lemma_fmul_cong(fmul(a, b), fmul(c, d));
    lemma_fmul_cong(fmul(a, c), fmul(b, d));
    lemma_cong_eq(fmul(fmul(a, b), fmul(c, d)), fmul(fmul(a, c), fmul(b, d)));
}

/// Adding back what was subtracted returns the reduced value.
pub proof fn lemma_fadd_fsub_cancel(x: nat, y: nat)
    requires
        y < field_r(),
    ensures
        fadd(x, fsub(y, x)) == y,
{
    let r = field_r() as int;
    vstd::arithmetic::div_mod::lemma_add_mod_noop_right(x as int, y + r - x, r);
    vstd::arithmetic::div_mod::lemma_mod_add_multiples_vanish(y as int, r);
    vstd::arithmetic::div_mod::lemma_small_mod(y, field_r());
}

/// Adding a negation is subtraction.
pub proof fn lemma_fadd_fneg(t: nat, x: nat)
    ensures
        fadd(t, fneg(x)) == fsub(t, x),
{
    lemma_field_r_bounds();
    lemma_fsub_cong(0, x);
    lemma_cong_add(t as int, fneg(x) as int, t as int, 0 - x);
    lemma_fadd_cong(t, fneg(x));
    lemma_fsub_cong(t, x);
    lemma_cong_eq(fadd(t, fneg(x)), fsub(t, x));
}

/// Subtracting a value from itself gives zero.
pub proof fn lemma_fsub_self(x: nat)
    ensures
        fsub(x, x) == 0,
{
    lemma_field_r_bounds();
    vstd::arithmetic::div_mod::lemma_mod_self_0(field_r() as int);
}

/// A vanishing difference of reduced values means they are equal.
pub proof fn lemma_fsub_zero_eq(a: nat, b: nat)
    requires
        fsub(a, b) == 0,
        a < field_r(),
        b < field_r(),
    ensures
        a == b,
{
    let r = field_r() as int;
    if a > b {
        vstd::arithmetic::div_mod::lemma_mod_add_multiples_vanish(a - b, r);
        vstd::arithmetic::div_mod::lemma_small_mod((a - b) as nat, field_r());
    } else if a < b {
        vstd::arithmetic::div_mod::lemma_small_mod((a + field_r() - b) as nat, field_r());
    }
}

/// Multiplying by zero gives zero in the field.
pub proof fn lemma_fmul_zero(a: nat)
    ensures
        fmul(a, 0) == 0,
        fmul(0, a) == 0,
{
    assert(a * 0 == 0);
    assert(0 * a == 0);
    vstd::arithmetic::div_mod::lemma_small_mod(0, field_r());
}

/// Adding zero keeps a reduced value.
pub proof fn lemma_fadd_zero(a: nat)
    requires
        a < field_r(),
    ensures
        fadd(a, 0) == a,
        fadd(0, a) == a,
{
    vstd::arithmetic::div_mod::lemma_small_mod(a, field_r());
}

/// Congruence modulo the field order, for reasoning that mixes reduced
/// values with unreduced integer expressions.
pub open spec fn cong(a: int, b: int) -> bool {
    a % (field_r() as int) == b % (field_r() as int)
}

/// A field sum is congruent to the integer sum of its operands.
pub proof fn lemma_fadd_cong(a: nat, b: nat)
    ensures
        cong(fadd(a, b) as int, (a + b) as int),
{
    vstd::arithmetic::div_mod::lemma_mod_twice((a + b) as int, field_r() as int);
}

/// A field difference is congruent to the integer difference.
pub proof fn lemma_fsub_cong(a: nat, b: nat)
    ensures
        cong(fsub(a, b) as int, a - b),
{
    let r = field_r() as int;
    vstd::arithmetic::div_mod::lemma_mod_twice(a + r - b, r);
    vstd::arithmetic::div_mod::lemma_mod_add_multiples_vanish(a - b, r);
}

/// A field product is congruent to the integer product.
pub proof fn lemma_fmul_cong(a: nat, b: nat)
    ensures
        cong(fmul(a, b) as int, (a * b) as int),
{
    vstd::arithmetic::div_mod::lemma_mod_twice((a * b) as int, field_r() as int);
}

/// Congruence is preserved by integer addition.
pub proof fn lemma_cong_add(a: int, b: int, a2: int, b2: int)
    requires
        cong(a, a2),
        cong(b, b2),
    ensures
        cong(a + b, a2 + b2),
{
    let r = field_r() as int;
    vstd::arithmetic::div_mod::lemma_add_mod_noop(a, b, r);
    vstd::arithmetic::div_mod::lemma_add_mod_noop(a2, b2, r);
}

/// Congruence is preserved by integer subtraction.
pub proof fn lemma_cong_sub(a: int, b: int, a2: int, b2: int)
    requires
        cong(a, a2),
        cong(b, b2),
    ensures
        cong(a - b, a2 - b2),
{
    let r = field_r() as int;
    vstd::arithmetic::div_mod::lemma_sub_mod_noop(a, b, r);
    vstd::arithmetic::div_mod::lemma_sub_mod_noop(a2, b2, r);
}

/// Congruence is preserved by integer multiplication.
pub proof fn lemma_cong_mul(a: int, b: int, a2: int, b2: int)
    requires
        cong(a, a2),
        cong(b, b2),
    ensures
        cong(a * b, a2 * b2),
{
    let r = field_r() as int;
    vstd::arithmetic::div_mod::lemma_mul_mod_noop_general(a, b, r);
    vstd::arithmetic::div_mod::lemma_mul_mod_noop_general(a2, b2, r);
}

/// Congruent reduced values are equal.
pub proof fn lemma_cong_eq(a: nat, b: nat)
    requires
        cong(a as int, b as int),
        a < field_r(),
        b < field_r(),
    ensures
        a == b,
{
    vstd::arithmetic::div_mod::lemma_small_mod(a, field_r());
    vstd::arithmetic::div_mod::lemma_small_mod(b, field_r());
}

pub proof fn lemma_fmul_bound(a: nat, b: nat)
    ensures
        fmul(a, b) < field_r(),
{
}

} // verus!
