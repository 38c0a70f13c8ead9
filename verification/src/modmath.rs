//! Small facts about arithmetic modulo the group order.

use vstd::prelude::*;
use vstd::arithmetic::div_mod::{
    lemma_mod_bound, lemma_mul_mod_noop_general, lemma_small_mod,
};
use vstd::arithmetic::mul::{lemma_mul_is_associative, lemma_mul_nonnegative};
use crate::curve::{fadd, fmul, fsub, group_order};

verus! {

/// The multiplicative inverse modulo the group order, where one exists.
pub open spec fn inv_mod(a: nat) -> nat {
    choose|b: nat| b < group_order() && fmul(a, b) == 1
}

/// Every residue is below the modulus.
pub proof fn lemma_fmul_bound(a: nat, b: nat)
    ensures
        fmul(a, b) < group_order(),
{
    lemma_mul_nonnegative(a as int, b as int);
    lemma_mod_bound((a * b) as int, group_order() as int);
}

pub proof fn lemma_fadd_bound(a: nat, b: nat)
    ensures
        fadd(a, b) < group_order(),
{
    lemma_mod_bound((a + b) as int, group_order() as int);
}

/// Multiplication modulo the order is associative.
pub proof fn lemma_fmul_assoc(a: nat, b: nat, c: nat)
    ensures
        fmul(fmul(a, b), c) == fmul(a, fmul(b, c)),
{
    let q = group_order() as int;
    let ai = a as int;
    let bi = b as int;
    let ci = c as int;
    lemma_mul_nonnegative(ai, bi);
    lemma_mul_nonnegative(bi, ci);
    lemma_mul_nonnegative(ai * bi, ci);
    lemma_mul_nonnegative(ai, bi * ci);
    lemma_mul_mod_noop_general(ai * bi, ci, q);
    lemma_mul_mod_noop_general(ai, bi * ci, q);
    lemma_mul_is_associative(ai, bi, ci);
}

/// Multiplying by one reduces the operand.
pub proof fn lemma_fmul_one(a: nat)
    requires
        a < group_order(),
    ensures
        fmul(1, a) == a,
        fmul(a, 1) == a,
{
    lemma_small_mod(a, group_order());
}

/// An element has at most one inverse below the modulus: if the wrapped
/// field inversion returned `r`, then `inv_mod` denotes `r`.
pub proof fn lemma_inv_mod_eq(d: nat, r: nat)
    requires
        r < group_order(),
        fmul(d, r) == 1,
    ensures
        inv_mod(d) == r,
{
    assert(r < group_order() && fmul(d, r) == 1);
    let b = inv_mod(d);
    assert(b < group_order() && fmul(d, b) == 1) by {
        assert(exists|b: nat| b < group_order() && fmul(d, b) == 1);
    }
    // b == fmul(b, fmul(d, r)) == fmul(fmul(b, d), r) == fmul(fmul(d, b), r)
    //   == fmul(r, fmul(d, b)) == r
    lemma_fmul_one(b);
    lemma_fmul_one(r);
    lemma_fmul_assoc(b, d, r);
    assert(fmul(b, d) == fmul(d, b)) by {
        assert(b * d == d * b) by (nonlinear_arith);
    }
    assert(fmul(b, fmul(d, r)) == fmul(fmul(b, d), r));
    assert(fmul(b, 1) == b);
    assert(fmul(1, r) == r);
}

/// Multiplying by zero gives zero; adding zero reduces the operand.
pub proof fn lemma_fmul_zero(x: nat)
    ensures
        fmul(0, x) == 0,
{
    lemma_small_mod(0, group_order());
}

pub proof fn lemma_fadd_zero(a: nat)
    requires
        a < group_order(),
    ensures
        fadd(a, 0) == a,
        fadd(0, a) == a,
{
    lemma_small_mod(a, group_order());
}

/// Evaluating a non-empty polynomial at zero gives its reduced constant
/// coefficient.
pub proof fn lemma_poly_eval_zero(coeffs: Seq<nat>)
    requires
        coeffs.len() > 0,
        coeffs[0] < group_order(),
    ensures
        crate::poly::poly_eval(coeffs, 0) == coeffs[0],
{
    lemma_fmul_zero(crate::poly::poly_eval(coeffs.drop_first(), 0));
    lemma_fadd_zero(coeffs[0]);
    assert(coeffs.first() == coeffs[0]);
}

/// Addition modulo the order is associative and commutative.
#[verifier::rlimit(50)]
pub proof fn lemma_fadd_assoc(a: nat, b: nat, c: nat)
    ensures
        fadd(fadd(a, b), c) == fadd(a, fadd(b, c)),
        fadd(a, b) == fadd(b, a),
{
    let q = group_order() as int;
    vstd::arithmetic::div_mod::lemma_add_mod_noop((a + b) as int, c as int, q);
    vstd::arithmetic::div_mod::lemma_add_mod_noop(a as int, (b + c) as int, q);
    vstd::arithmetic::div_mod::lemma_mod_twice((a + b) as int, q);
    vstd::arithmetic::div_mod::lemma_mod_twice((b + c) as int, q);
    vstd::arithmetic::div_mod::lemma_mod_twice(((a + b) as int % q) + c, q);
    assert(((a + b) % q as nat + c) % q as nat == ((a + b) + c) % q as nat) by {
        vstd::arithmetic::div_mod::lemma_add_mod_noop((a + b) as int, c as int, q);
        vstd::arithmetic::div_mod::lemma_mod_twice(c as int, q);
        assert(c as int % q == (c as int % q) % q);
    }
    assert((a + (b + c) % q as nat) % q as nat == (a + (b + c)) % q as nat) by {
        vstd::arithmetic::div_mod::lemma_add_mod_noop(a as int, (b + c) as int, q);
    }
    assert((a + b) + c == a + (b + c));
}

/// A three-way modular sum reduces in one step.
pub proof fn lemma_fadd3(a: nat, b: nat, c: nat)
    ensures
        fadd(fadd(a, b), c) == (((a + b + c) as int) % (group_order() as int)) as nat,
{
    let q = group_order() as int;
    vstd::arithmetic::div_mod::lemma_add_mod_noop((a + b) as int, c as int, q);
    vstd::arithmetic::div_mod::lemma_mod_twice(c as int, q);
}

/// Sums of sums reorder: pairing the first operands and the second
/// operands gives the same modular total.
pub proof fn lemma_fadd_shuffle(a: nat, b: nat, x: nat, y: nat)
    ensures
        fadd(fadd(a, b), fadd(x, y)) == fadd(fadd(a, x), fadd(b, y)),
{
    let q = group_order() as int;
    vstd::arithmetic::div_mod::lemma_add_mod_noop((a + b) as int, (x + y) as int, q);
    vstd::arithmetic::div_mod::lemma_add_mod_noop((a + x) as int, (b + y) as int, q);
    assert((a + b) + (x + y) == (a + x) + (b + y));
}

/// Multiplication distributes over modular addition.
pub proof fn lemma_fmul_distributes(c: nat, a: nat, b: nat)
    ensures
        fmul(c, fadd(a, b)) == fadd(fmul(c, a), fmul(c, b)),
{
    let q = group_order() as int;
    let ci = c as int;
    let ai = a as int;
    let bi = b as int;
    lemma_mul_nonnegative(ci, ai + bi);
    lemma_mul_nonnegative(ci, ai);
    lemma_mul_nonnegative(ci, bi);
    lemma_mul_mod_noop_general(ci, ai + bi, q);
    assert(ci * (ai + bi) == ci * ai + ci * bi) by {
        vstd::arithmetic::mul::lemma_mul_is_distributive_add(ci, ai, bi);
    }
    vstd::arithmetic::div_mod::lemma_add_mod_noop(ci * ai, ci * bi, q);
}

/// Two distinct residues below the modulus have a non-zero difference.
pub proof fn lemma_fsub_nonzero(a: nat, b: nat)
    requires
        a < group_order(),
        b < group_order(),
        a != b,
    ensures
        fsub(a, b) != 0,
        fsub(a, b) < group_order(),
{
    let q = group_order() as int;
    let x = a + q - b;
    if x < q {
        lemma_small_mod(x as nat, q as nat);
    } else {
        assert(q <= x < 2 * q);
        assert(x % q == x - q) by {
            lemma_small_mod((x - q) as nat, q as nat);
            vstd::arithmetic::div_mod::lemma_mod_sub_multiples_vanish(x - q, q);
        }
        assert(x - q == a - b);
    }
    lemma_mod_bound(x, q);
}

} // verus!
