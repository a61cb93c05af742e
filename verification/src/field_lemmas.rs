//! The laws of arithmetic modulo the field order that the proofs of this crate
//! rest on. None of them needs the order to be prime: they hold in every ring
//! of residues.
use crate::field::{fadd, finv, fmul, fneg, fpow, fsub, is_inverse, lemma_modulus_bounds, modulus};
use vstd::arithmetic::div_mod::{
    lemma_add_mod_noop, lemma_mod_multiples_vanish, lemma_mul_mod_noop_general, lemma_small_mod,
    lemma_sub_mod_noop,
};
use vstd::arithmetic::mul::{
    lemma_mul_is_associative, lemma_mul_is_commutative, lemma_mul_is_distributive_add,
    lemma_mul_is_distributive_sub,
};
use vstd::prelude::*;

verus! {

/// Whether two integers have the same residue modulo the field order.
pub open spec fn congruent(a: int, b: int) -> bool {
    a % (modulus() as int) == b % (modulus() as int)
}

/// A sum in the field is congruent to the sum of integers that the operands
/// are congruent to.
pub proof fn lemma_fadd_congruent(a: nat, b: nat, x: int, y: int)
    requires
        congruent(a as int, x),
        congruent(b as int, y),
    ensures
        congruent(fadd(a, b) as int, x + y),
{
    lemma_modulus_bounds();
    let p = modulus() as int;
    lemma_add_mod_noop(a as int, b as int, p);
    lemma_add_mod_noop(x, y, p);
    vstd::arithmetic::div_mod::lemma_mod_twice((a + b) as int, p);
}

/// A difference in the field is congruent to the difference of integers that
/// the operands are congruent to.
pub proof fn lemma_fsub_congruent(a: nat, b: nat, x: int, y: int)
    requires
        congruent(a as int, x),
        congruent(b as int, y),
    ensures
        congruent(fsub(a, b) as int, x - y),
{
    lemma_modulus_bounds();
    let p = modulus() as int;
    lemma_sub_mod_noop(a as int, b as int, p);
    lemma_sub_mod_noop(x, y, p);
    vstd::arithmetic::div_mod::lemma_mod_twice(a as int - b as int, p);
}

/// A product in the field is congruent to the product of integers that the
/// operands are congruent to.
pub proof fn lemma_fmul_congruent(a: nat, b: nat, x: int, y: int)
    requires
        congruent(a as int, x),
        congruent(b as int, y),
    ensures
        congruent(fmul(a, b) as int, x * y),
{
    lemma_modulus_bounds();
    let p = modulus() as int;
    lemma_mul_mod_noop_general(a as int, b as int, p);
    lemma_mul_mod_noop_general(x, y, p);
    vstd::arithmetic::div_mod::lemma_mod_twice((a * b) as int, p);
}

/// Two integers are congruent where their difference is a combination of two
/// integers that are congruent to zero.
pub proof fn lemma_congruent_by_kernel(lhs: int, rhs: int, k1: int, a1: int, k2: int, a2: int)
    requires
        lhs - rhs == k1 * a1 + k2 * a2,
        congruent(k1, 0),
        congruent(k2, 0),
    ensures
        congruent(lhs, rhs),
{
    lemma_modulus_bounds();
    let p = modulus() as int;
    vstd::arithmetic::div_mod::lemma_mul_mod_noop_left(k1, a1, p);
    vstd::arithmetic::div_mod::lemma_mul_mod_noop_left(k2, a2, p);
    assert(0 * a1 == 0);
    assert(0 * a2 == 0);
    lemma_small_mod(0, modulus());
    lemma_add_mod_noop(k1 * a1, k2 * a2, p);
    vstd::arithmetic::div_mod::lemma_mod_equivalence(lhs, rhs, p);
}

/// A product that is one in the field is, as an integer, congruent to one.
pub proof fn lemma_unit_kernel(a: nat, b: nat)
    requires
        fmul(a, b) == 1,
    ensures
        congruent(a * b - 1, 0),
        congruent(b * a - 1, 0),
{
    lemma_modulus_bounds();
    let p = modulus() as int;
    lemma_small_mod(1, modulus());
    lemma_small_mod(0, modulus());
    vstd::arithmetic::div_mod::lemma_mod_equivalence((a * b) as int, 1, p);
    lemma_mul_is_commutative(a as int, b as int);
}

/// Congruent residues are equal.
pub proof fn lemma_congruent_reduced(a: nat, b: nat)
    requires
        a < modulus(),
        b < modulus(),
        congruent(a as int, b as int),
    ensures
        a == b,
{
    lemma_small_mod(a, modulus());
    lemma_small_mod(b, modulus());
}

/// Every result of a field operation is a residue.
pub proof fn lemma_results_reduced(a: nat, b: nat)
    ensures
        fadd(a, b) < modulus(),
        fsub(a, b) < modulus(),
        fmul(a, b) < modulus(),
        fneg(a) < modulus(),
{
    lemma_modulus_bounds();
}

pub proof fn lemma_fadd_comm(a: nat, b: nat)
    ensures
        fadd(a, b) == fadd(b, a),
{
    lemma_modulus_bounds();
}

pub proof fn lemma_fmul_comm(a: nat, b: nat)
    ensures
        fmul(a, b) == fmul(b, a),
{
    lemma_modulus_bounds();
    lemma_mul_is_commutative(a as int, b as int);
}

pub proof fn lemma_fadd_assoc(a: nat, b: nat, c: nat)
    ensures
        fadd(fadd(a, b), c) == fadd(a, fadd(b, c)),
{
    lemma_modulus_bounds();
    let p = modulus() as int;
    lemma_add_mod_noop((a + b) as int, c as int, p);
    lemma_add_mod_noop(a as int, (b + c) as int, p);
    lemma_small_mod(fadd(a, b), modulus());
    lemma_small_mod(fadd(b, c), modulus());
    lemma_add_mod_noop(fadd(a, b) as int, c as int, p);
    lemma_add_mod_noop(a as int, fadd(b, c) as int, p);
}

pub proof fn lemma_fmul_assoc(a: nat, b: nat, c: nat)
    ensures
        fmul(fmul(a, b), c) == fmul(a, fmul(b, c)),
{
    lemma_modulus_bounds();
    let p = modulus() as int;
    lemma_mul_mod_noop_general((a * b) as int, c as int, p);
    lemma_mul_mod_noop_general(a as int, (b * c) as int, p);
    lemma_mul_is_associative(a as int, b as int, c as int);
}

/// Operands may be reduced before an addition.
pub proof fn lemma_fadd_reduce(a: nat, b: nat)
    ensures
        fadd(a % modulus(), b) == fadd(a, b),
        fadd(a, b % modulus()) == fadd(a, b),
{
    lemma_modulus_bounds();
    let p = modulus() as int;
    lemma_add_mod_noop(a as int, b as int, p);
    lemma_add_mod_noop((a % modulus()) as int, b as int, p);
    lemma_add_mod_noop(a as int, (b % modulus()) as int, p);
    lemma_small_mod(a % modulus(), modulus());
    lemma_small_mod(b % modulus(), modulus());
}

/// Operands may be reduced before a multiplication.
pub proof fn lemma_fmul_reduce(a: nat, b: nat)
    ensures
        fmul(a % modulus(), b) == fmul(a, b),
        fmul(a, b % modulus()) == fmul(a, b),
{
    lemma_modulus_bounds();
    lemma_mul_mod_noop_general(a as int, b as int, modulus() as int);
}

/// Operands may be reduced before a subtraction.
pub proof fn lemma_fsub_reduce(a: nat, b: nat)
    ensures
        fsub(a % modulus(), b) == fsub(a, b),
        fsub(a, b % modulus()) == fsub(a, b),
{
    lemma_modulus_bounds();
    let p = modulus() as int;
    lemma_sub_mod_noop(a as int, b as int, p);
    lemma_sub_mod_noop((a % modulus()) as int, b as int, p);
    lemma_sub_mod_noop(a as int, (b % modulus()) as int, p);
    lemma_small_mod(a % modulus(), modulus());
    lemma_small_mod(b % modulus(), modulus());
}

pub proof fn lemma_fmul_distributes_add(a: nat, b: nat, c: nat)
    ensures
        fmul(a, fadd(b, c)) == fadd(fmul(a, b), fmul(a, c)),
        fmul(fadd(b, c), a) == fadd(fmul(b, a), fmul(c, a)),
{
    lemma_modulus_bounds();
    let p = modulus() as int;
    lemma_mul_mod_noop_general(a as int, (b + c) as int, p);
    lemma_mul_is_distributive_add(a as int, b as int, c as int);
    lemma_add_mod_noop((a * b) as int, (a * c) as int, p);
    lemma_fmul_comm(a, fadd(b, c));
    lemma_fmul_comm(a, b);
    lemma_fmul_comm(a, c);
}

pub proof fn lemma_fmul_distributes_sub(a: nat, b: nat, c: nat)
    ensures
        fmul(a, fsub(b, c)) == fsub(fmul(a, b), fmul(a, c)),
        fmul(fsub(b, c), a) == fsub(fmul(b, a), fmul(c, a)),
{
    lemma_modulus_bounds();
    let p = modulus() as int;
    lemma_mul_mod_noop_general(a as int, b as int - c as int, p);
    lemma_mul_is_distributive_sub(a as int, b as int, c as int);
    lemma_sub_mod_noop((a * b) as int, (a * c) as int, p);
    lemma_fmul_comm(a, fsub(b, c));
    lemma_fmul_comm(a, b);
    lemma_fmul_comm(a, c);
}

/// Zero and one are neutral; zero absorbs.
pub proof fn lemma_identities(a: nat)
    ensures
        fadd(a, 0) == a % modulus(),
        fadd(0, a) == a % modulus(),
        fsub(a, 0) == a % modulus(),
        fmul(a, 1) == a % modulus(),
        fmul(1, a) == a % modulus(),
        fmul(a, 0) == 0,
        fmul(0, a) == 0,
        fsub(a, a) == 0,
{
    lemma_modulus_bounds();
    assert(a * 1 == a) by (nonlinear_arith);
    assert(1 * a == a) by (nonlinear_arith);
    assert(a * 0 == 0) by (nonlinear_arith);
    assert(0 * a == 0) by (nonlinear_arith);
}

/// On a residue the neutral elements change nothing.
pub proof fn lemma_identities_reduced(a: nat)
    requires
        a < modulus(),
    ensures
        fadd(a, 0) == a,
        fadd(0, a) == a,
        fsub(a, 0) == a,
        fmul(a, 1) == a,
        fmul(1, a) == a,
{
    lemma_modulus_bounds();
    lemma_identities(a);
    lemma_small_mod(a, modulus());
}

/// Subtraction is addition of the negative.
pub proof fn lemma_fsub_is_add_neg(a: nat, b: nat)
    ensures
        fsub(a, b) == fadd(a, fneg(b)),
{
    lemma_modulus_bounds();
    let p = modulus() as int;
    lemma_add_mod_noop(a as int, 0 - b as int, p);
    lemma_add_mod_noop(a as int, fneg(b) as int, p);
    lemma_small_mod(fneg(b), modulus());
}

/// A product with a negative is the negative of the product.
pub proof fn lemma_fmul_neg(a: nat, b: nat)
    ensures
        fmul(a, fneg(b)) == fneg(fmul(a, b)),
        fmul(fneg(a), b) == fneg(fmul(a, b)),
{
    lemma_modulus_bounds();
    lemma_fmul_distributes_sub(a, 0, b);
    lemma_identities(a);
    lemma_fmul_comm(a, fneg(b));
    lemma_fmul_distributes_sub(b, 0, a);
    lemma_identities(b);
    lemma_fmul_comm(b, fneg(a));
    lemma_fmul_comm(a, b);
}

/// The negative of the negative.
pub proof fn lemma_fneg_fneg(a: nat)
    ensures
        fneg(fneg(a)) == a % modulus(),
{
    lemma_modulus_bounds();
    let p = modulus() as int;
    lemma_sub_mod_noop(0, 0 - a as int, p);
    lemma_small_mod(fneg(a), modulus());
}

/// `modulus() - 1` is the negative of one, and its square is one.
pub proof fn lemma_minus_one()
    ensures
        fneg(1) == (modulus() - 1) as nat,
        fmul(fneg(1), fneg(1)) == 1,
{
    lemma_modulus_bounds();
    lemma_small_mod((modulus() - 1) as nat, modulus());
    lemma_mod_multiples_vanish(1, -1, modulus() as int);
    lemma_fmul_neg(fneg(1), 1);
    lemma_identities(fneg(1));
    lemma_fneg_fneg(1);
    lemma_small_mod(1, modulus());
}

/// Multiplying by minus one negates.
pub proof fn lemma_fmul_minus_one(a: nat)
    ensures
        fmul(a, fneg(1)) == fneg(a),
        fmul(fneg(1), a) == fneg(a),
{
    lemma_modulus_bounds();
    lemma_fmul_neg(a, 1);
    lemma_identities(a);
    lemma_fsub_reduce(0, a);
    lemma_fmul_comm(a, fneg(1));
}

/// Powers are residues.
pub proof fn lemma_fpow_reduced(a: nat, n: nat)
    ensures
        fpow(a, n) < modulus(),
    decreases n,
{
    lemma_modulus_bounds();
    if n > 0 {
        lemma_fpow_reduced(a, (n - 1) as nat);
    }
}

/// The first power is the base itself.
pub proof fn lemma_fpow_one(a: nat)
    ensures
        fpow(a, 1) == a % modulus(),
{
    lemma_modulus_bounds();
    reveal_with_fuel(fpow, 2);
    lemma_identities(a);
}

/// Exponents add when powers are multiplied.
pub proof fn lemma_fpow_add(a: nat, m: nat, n: nat)
    ensures
        fpow(a, m + n) == fmul(fpow(a, m), fpow(a, n)),
    decreases m,
{
    lemma_modulus_bounds();
    if m == 0 {
        lemma_fpow_reduced(a, n);
        lemma_identities_reduced(fpow(a, n));
    } else {
        lemma_fpow_add(a, (m - 1) as nat, n);
        lemma_fmul_assoc(a, fpow(a, (m - 1) as nat), fpow(a, n));
        assert((m + n - 1) as nat == (m - 1) as nat + n);
    }
}

/// The power of a product is the product of the powers.
pub proof fn lemma_fpow_mul_base(a: nat, b: nat, n: nat)
    ensures
        fpow(fmul(a, b), n) == fmul(fpow(a, n), fpow(b, n)),
    decreases n,
{
    lemma_modulus_bounds();
    if n == 0 {
        lemma_identities_reduced(1);
    } else {
        let m = (n - 1) as nat;
        lemma_fpow_mul_base(a, b, m);
        let pa = fpow(a, m);
        let pb = fpow(b, m);
        // (a*b) * (pa*pb) == (a*pa) * (b*pb)
        lemma_fmul_assoc(a, b, fmul(pa, pb));
        lemma_fmul_assoc(b, pa, pb);
        lemma_fmul_comm(b, pa);
        lemma_fmul_assoc(pa, b, pb);
        lemma_fmul_assoc(a, pa, fmul(b, pb));
    }
}

/// A power of a power multiplies the exponents.
pub proof fn lemma_fpow_pow(a: nat, m: nat, n: nat)
    ensures
        fpow(fpow(a, m), n) == fpow(a, m * n),
    decreases n,
{
    lemma_modulus_bounds();
    if n == 0 {
        assert(m * 0 == 0) by (nonlinear_arith);
    } else {
        lemma_fpow_pow(a, m, (n - 1) as nat);
        assert(m * n == m + m * (n - 1)) by (nonlinear_arith)
            requires
                n > 0,
        ;
        assert(m * (n - 1) >= 0) by (nonlinear_arith)
            requires
                n > 0,
        ;
        lemma_fpow_add(a, m, (m * (n - 1)) as nat);
    }
}

/// A reduced base has the same powers.
pub proof fn lemma_fpow_reduce_base(a: nat, n: nat)
    ensures
        fpow(a % modulus(), n) == fpow(a, n),
    decreases n,
{
    lemma_modulus_bounds();
    if n > 0 {
        lemma_fpow_reduce_base(a, (n - 1) as nat);
        lemma_fmul_reduce(a, fpow(a, (n - 1) as nat));
    }
}

/// Every power of one is one.
pub proof fn lemma_fpow_of_one(n: nat)
    ensures
        fpow(1, n) == 1,
    decreases n,
{
    lemma_modulus_bounds();
    if n > 0 {
        lemma_fpow_of_one((n - 1) as nat);
        lemma_identities_reduced(1);
    }
}

/// The powers of minus one alternate.
pub proof fn lemma_fpow_minus_one(m: nat)
    ensures
        fpow(fneg(1), m) == if m % 2 == 0 {
            1
        } else {
            fneg(1)
        },
    decreases m,
{
    lemma_modulus_bounds();
    if m > 0 {
        lemma_fpow_minus_one((m - 1) as nat);
        lemma_minus_one();
        lemma_results_reduced(0, 1);
        lemma_identities_reduced(fneg(1));
    }
}

/// An element has at most one inverse.
pub proof fn lemma_inverse_unique(a: nat, r: nat, s: nat)
    requires
        is_inverse(a, r),
        is_inverse(a, s),
    ensures
        r == s,
{
    lemma_modulus_bounds();
    // r == r * (a * s) == (r * a) * s == s
    lemma_identities_reduced(r);
    lemma_identities_reduced(s);
    lemma_fmul_assoc(r, a, s);
    lemma_fmul_comm(r, a);
}

/// An inverse that was found is the inverse.
pub proof fn lemma_finv_is(a: nat, r: nat)
    requires
        is_inverse(a, r),
    ensures
        finv(a) == r,
        is_inverse(a, finv(a)),
{
    lemma_inverse_unique(a, r, finv(a));
}

} // verus!
