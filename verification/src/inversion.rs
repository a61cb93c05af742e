//! The inverse transform undoes the transform.
//!
//! The proof follows the recursion of the transform. Transforming twice on a
//! subgroup domain of `n` points reflects the coefficients and multiplies them
//! by `n`: the entry at position `m` becomes `n` times the coefficient at
//! position `-m` modulo `n`. The inverse transform reads the second transform
//! at the reflected position and divides by `n`.
use crate::fft::{
    dft, evens, generator, inverse_dft, is_subgroup_domain, lemma_domain_points,
    lemma_domain_second_half, lemma_eval_split, lemma_squared_half_is_domain, odds, poly_eval,
    squared_half,
};
use crate::field::{
    fadd, finv, fmul, fneg, fpow, is_inverse, lemma_modulus_bounds, modulus, values, FieldElement,
};
use crate::field_lemmas::{
    congruent, lemma_congruent_reduced, lemma_fadd_assoc, lemma_fadd_congruent, lemma_fadd_reduce,
    lemma_fmul_assoc, lemma_fmul_comm, lemma_fmul_congruent, lemma_fmul_distributes_add,
    lemma_fpow_add, lemma_fpow_minus_one, lemma_fpow_pow, lemma_fsub_congruent, lemma_identities,
    lemma_identities_reduced, lemma_minus_one,
};
use crate::fri_prover::padded;
use crate::numeric::is_pow2;
use crate::unipoly::{highest_nonzero, trimmed};
use vstd::prelude::*;

verus! {

/// The sum of two coefficient vectors of one length.
pub open spec fn poly_add(a: Seq<nat>, b: Seq<nat>) -> Seq<nat> {
    Seq::new(a.len(), |i: int| fadd(a[i], b[i]))
}

/// A coefficient vector multiplied by a scalar.
pub open spec fn poly_scale(s: nat, a: Seq<nat>) -> Seq<nat> {
    Seq::new(a.len(), |i: int| fmul(s, a[i]))
}

/// A coefficient vector whose entry at position `i` is multiplied by the
/// `i`-th power of `g`: the coefficients of `p(g x)`.
pub open spec fn poly_twist(a: Seq<nat>, g: nat) -> Seq<nat> {
    Seq::new(a.len(), |i: int| fmul(fpow(g, i as nat), a[i]))
}

/// The value of a polynomial is a residue.
pub proof fn lemma_eval_reduced(a: Seq<nat>, x: nat)
    ensures
        poly_eval(a, x) < modulus(),
{
    lemma_modulus_bounds();
}

/// Rearranging a sum of two sums.
proof fn lemma_fadd_interchange(a: nat, b: nat, c: nat, d: nat)
    ensures
        fadd(fadd(a, b), fadd(c, d)) == fadd(fadd(a, c), fadd(b, d)),
{
    lemma_modulus_bounds();
    lemma_fadd_congruent(a, b, a as int, b as int);
    lemma_fadd_congruent(c, d, c as int, d as int);
    lemma_fadd_congruent(fadd(a, b), fadd(c, d), (a + b) as int, (c + d) as int);
    lemma_fadd_congruent(a, c, a as int, c as int);
    lemma_fadd_congruent(b, d, b as int, d as int);
    lemma_fadd_congruent(fadd(a, c), fadd(b, d), (a + c) as int, (b + d) as int);
    lemma_congruent_reduced(fadd(fadd(a, b), fadd(c, d)), fadd(fadd(a, c), fadd(b, d)));
}

/// The value of a sum is the sum of the values.
pub proof fn lemma_eval_add(a: Seq<nat>, b: Seq<nat>, x: nat)
    requires
        a.len() == b.len(),
    ensures
        poly_eval(poly_add(a, b), x) == fadd(poly_eval(a, x), poly_eval(b, x)),
    decreases a.len(),
{
    lemma_modulus_bounds();
    if a.len() == 0 {
        assert(poly_add(a, b) =~= Seq::<nat>::empty());
        lemma_identities(0);
    } else {
        let ta = a.drop_first();
        let tb = b.drop_first();
        lemma_eval_add(ta, tb, x);
        assert(poly_add(a, b).drop_first() =~= poly_add(ta, tb));
        assert(poly_add(a, b)[0] == fadd(a[0], b[0]));
        let ea = poly_eval(ta, x);
        let eb = poly_eval(tb, x);
        lemma_fmul_distributes_add(x, ea, eb);
        lemma_fadd_interchange(a[0], b[0], fmul(x, ea), fmul(x, eb));
        assert(poly_eval(poly_add(a, b), x) == fadd(
            fadd(a[0], b[0]),
            fmul(x, poly_eval(poly_add(ta, tb), x)),
        ));
    }
}

/// The value of a multiple is the multiple of the value.
pub proof fn lemma_eval_scale(s: nat, a: Seq<nat>, x: nat)
    ensures
        poly_eval(poly_scale(s, a), x) == fmul(s, poly_eval(a, x)),
    decreases a.len(),
{
    lemma_modulus_bounds();
    if a.len() == 0 {
        assert(poly_scale(s, a) =~= Seq::<nat>::empty());
        lemma_identities(s);
    } else {
        let ta = a.drop_first();
        lemma_eval_scale(s, ta, x);
        assert(poly_scale(s, a).drop_first() =~= poly_scale(s, ta));
        let ea = poly_eval(ta, x);
        // s * a0 + x * (s * ea) == s * (a0 + x * ea)
        lemma_fmul_distributes_add(s, a[0], fmul(x, ea));
        lemma_fmul_assoc(x, s, ea);
        lemma_fmul_comm(x, s);
        lemma_fmul_assoc(s, x, ea);
    }
}

/// Twisting the coefficients by `g` evaluates the polynomial at `g x`.
pub proof fn lemma_eval_twist(a: Seq<nat>, g: nat, x: nat)
    ensures
        poly_eval(poly_twist(a, g), x) == poly_eval(a, fmul(g, x)),
    decreases a.len(),
{
    lemma_modulus_bounds();
    if a.len() == 0 {
        assert(poly_twist(a, g) =~= Seq::<nat>::empty());
    } else {
        let ta = a.drop_first();
        lemma_eval_twist(ta, g, x);
        let tail = poly_twist(a, g).drop_first();
        assert(tail =~= poly_scale(g, poly_twist(ta, g))) by {
            assert forall|i: int| 0 <= i < tail.len() implies tail[i] == poly_scale(
                g,
                poly_twist(ta, g),
            )[i] by {
                // g^(i + 1) * a[i + 1] == g * (g^i * a[i + 1])
                lemma_fmul_assoc(g, fpow(g, i as nat), a[i + 1]);
            }
        }
        lemma_eval_scale(g, poly_twist(ta, g), x);
        let e = poly_eval(ta, fmul(g, x));
        // x * (g * e) == (g * x) * e
        lemma_fmul_assoc(x, g, e);
        lemma_fmul_comm(x, g);
        // 1 * a0 is a0, reduced
        lemma_identities(a[0]);
        lemma_fadd_reduce(a[0], fmul(fmul(g, x), e));
    }
}

/// The value of a concatenation: the second part is shifted by the length of
/// the first.
pub proof fn lemma_eval_concat(a: Seq<nat>, b: Seq<nat>, x: nat)
    ensures
        poly_eval(a + b, x) == fadd(poly_eval(a, x), fmul(fpow(x, a.len()), poly_eval(b, x))),
    decreases a.len(),
{
    lemma_modulus_bounds();
    let eb = poly_eval(b, x);
    if a.len() == 0 {
        assert(a + b =~= b);
        lemma_eval_reduced(b, x);
        lemma_identities_reduced(eb);
    } else {
        let ta = a.drop_first();
        lemma_eval_concat(ta, b, x);
        assert((a + b).drop_first() =~= ta + b);
        let ea = poly_eval(ta, x);
        let shifted = fmul(fpow(x, ta.len()), eb);
        // x * (ea + x^(n-1) * eb) == x * ea + x^n * eb
        lemma_fmul_distributes_add(x, ea, shifted);
        lemma_fmul_assoc(x, fpow(x, ta.len()), eb);
        lemma_fadd_assoc(a[0], fmul(x, ea), fmul(x, shifted));
    }
}

/// Minus one as an integer.
proof fn lemma_minus_one_congruent()
    ensures
        congruent(fneg(1) as int, -1),
        congruent(1int, 1int),
        congruent(2int, 2int),
{
    lemma_fsub_congruent(0, 1, 0, 1);
}

/// The half-size transforms of the even and the odd part give the transform:
/// its first half is their sum, the odd part twisted by the generator, and its
/// second half their difference.
proof fn lemma_dft_halves(c: Seq<nat>, d: Seq<nat>)
    requires
        is_subgroup_domain(d),
        c.len() == d.len(),
        d.len() >= 2,
    ensures
        ({
            let even = dft(evens(c), squared_half(d));
            let odd = poly_twist(dft(odds(c), squared_half(d)), generator(d));
            dft(c, d) == poly_add(even, odd) + poly_add(even, poly_scale(fneg(1), odd))
        }),
{
    lemma_modulus_bounds();
    let h = (d.len() / 2) as int;
    let g = generator(d);
    let d2 = squared_half(d);
    let even = dft(evens(c), d2);
    let plain = dft(odds(c), d2);
    let odd = poly_twist(plain, g);
    let lo = poly_add(even, odd);
    let hi = poly_add(even, poly_scale(fneg(1), odd));
    let y = dft(c, d);
    assert(d.len() % 2 == 0);
    assert forall|i: int| 0 <= i < y.len() implies y[i] == (lo + hi)[i] by {
        let j = if i < h {
            i
        } else {
            i - h
        };
        let x = d[j];
        let sq = fmul(x, x);
        let e = poly_eval(evens(c), sq);
        let o = poly_eval(odds(c), sq);
        assert(d2[j] == sq);
        assert(even[j] == e);
        assert(plain[j] == o);
        assert(x == fpow(g, j as nat));
        assert(odd[j] == fmul(x, o));
        if i < h {
            lemma_eval_split(c, x);
            assert(lo[j] == fadd(e, fmul(x, o)));
        } else {
            let z = d[i];
            lemma_domain_second_half(d, j);
            lemma_eval_split(c, z);
            // e + (-x) * o == e + (-1) * (x * o)
            crate::field_lemmas::lemma_fmul_neg(x, o);
            crate::field_lemmas::lemma_fmul_minus_one(fmul(x, o));
            assert(hi[j] == fadd(e, fmul(fneg(1), fmul(x, o))));
        }
    }
    assert(y =~= lo + hi);
}

/// The combination of the values of the two halves, for the sign one.
proof fn lemma_combine_even(e: nat, t: nat)
    ensures
        fadd(fadd(e, t), fmul(1, fadd(e, fmul(fneg(1), t)))) == fmul(2, e),
{
    lemma_modulus_bounds();
    lemma_minus_one_congruent();
    let ei = e as int;
    let ti = t as int;
    lemma_fadd_congruent(e, t, ei, ti);
    lemma_fmul_congruent(fneg(1), t, -1, ti);
    lemma_fadd_congruent(e, fmul(fneg(1), t), ei, -1 * ti);
    lemma_fmul_congruent(1, fadd(e, fmul(fneg(1), t)), 1, ei + -1 * ti);
    lemma_fadd_congruent(
        fadd(e, t),
        fmul(1, fadd(e, fmul(fneg(1), t))),
        ei + ti,
        1 * (ei + -1 * ti),
    );
    lemma_fmul_congruent(2, e, 2, ei);
    assert(ei + ti + 1 * (ei + -1 * ti) == 2 * ei);
    lemma_congruent_reduced(fadd(fadd(e, t), fmul(1, fadd(e, fmul(fneg(1), t)))), fmul(2, e));
}

/// The combination of the values of the two halves, for the sign minus one.
proof fn lemma_combine_odd(e: nat, t: nat)
    ensures
        fadd(fadd(e, t), fmul(fneg(1), fadd(e, fmul(fneg(1), t)))) == fmul(2, t),
{
    lemma_modulus_bounds();
    lemma_minus_one_congruent();
    let ei = e as int;
    let ti = t as int;
    lemma_fadd_congruent(e, t, ei, ti);
    lemma_fmul_congruent(fneg(1), t, -1, ti);
    lemma_fadd_congruent(e, fmul(fneg(1), t), ei, -1 * ti);
    lemma_fmul_congruent(fneg(1), fadd(e, fmul(fneg(1), t)), -1, ei + -1 * ti);
    lemma_fadd_congruent(
        fadd(e, t),
        fmul(fneg(1), fadd(e, fmul(fneg(1), t))),
        ei + ti,
        -1 * (ei + -1 * ti),
    );
    lemma_fmul_congruent(2, t, 2, ti);
    assert(ei + ti + -1 * (ei + -1 * ti) == 2 * ti);
    lemma_congruent_reduced(
        fadd(fadd(e, t), fmul(fneg(1), fadd(e, fmul(fneg(1), t)))),
        fmul(2, t),
    );
}

/// Twice half a multiple is the whole multiple.
proof fn lemma_double_half(h: nat, v: nat)
    ensures
        fmul(2, fmul(h, v)) == fmul(2 * h, v),
{
    lemma_modulus_bounds();
    let hi = h as int;
    let vi = v as int;
    lemma_fmul_congruent(h, v, hi, vi);
    lemma_fmul_congruent(2, fmul(h, v), 2, hi * vi);
    lemma_fmul_congruent(2 * h, v, 2 * hi, vi);
    assert(2 * (hi * vi) == (2 * hi) * vi) by (nonlinear_arith);
    lemma_congruent_reduced(fmul(2, fmul(h, v)), fmul(2 * h, v));
}

/// Transforming twice reflects the coefficients and multiplies them by the
/// size of the domain.
pub proof fn lemma_double_transform(c: Seq<nat>, d: Seq<nat>, m: int)
    requires
        is_subgroup_domain(d),
        c.len() == d.len(),
        0 <= m < d.len(),
    ensures
        poly_eval(dft(c, d), d[m]) == fmul(d.len(), c[(d.len() - m) % (d.len() as int)]),
    decreases d.len(),
{
    lemma_modulus_bounds();
    let n = d.len() as int;
    let y = dft(c, d);
    let x = d[m];
    if n == 1 {
        let nothing = Seq::<nat>::empty();
        assert(y.drop_first() =~= nothing);
        assert(c.drop_first() =~= nothing);
        assert(poly_eval(nothing, x) == 0);
        assert(y[0] == poly_eval(c, x));
        lemma_identities(x);
        lemma_identities(c[0]);
        lemma_identities(fadd(c[0], 0));
        vstd::arithmetic::div_mod::lemma_mod_twice(c[0] as int, modulus() as int);
        assert((1 - 0) % 1 == 0);
    } else {
        let h = n / 2;
        let g = generator(d);
        let d2 = squared_half(d);
        let ce = evens(c);
        let co = odds(c);
        let even = dft(ce, d2);
        let plain = dft(co, d2);
        let odd = poly_twist(plain, g);
        let lo = poly_add(even, odd);
        let hi = poly_add(even, poly_scale(fneg(1), odd));
        assert(n % 2 == 0);
        lemma_squared_half_is_domain(d);
        lemma_domain_points(d, m);
        lemma_dft_halves(c, d);
        // The value of the transform at x, from the values of its halves.
        lemma_eval_concat(lo, hi, x);
        lemma_eval_add(even, odd, x);
        lemma_eval_add(even, poly_scale(fneg(1), odd), x);
        lemma_eval_scale(fneg(1), odd, x);
        lemma_eval_twist(plain, g, x);
        let e = poly_eval(even, x);
        let t = poly_eval(plain, fmul(g, x));
        let s = fpow(x, h as nat);
        assert(poly_eval(y, x) == fadd(fadd(e, t), fmul(s, fadd(e, fmul(fneg(1), t)))));
        // The sign s is the parity of the position.
        assert(x == fpow(g, m as nat));
        lemma_fpow_pow(g, m as nat, h as nat);
        lemma_fpow_pow(g, h as nat, m as nat);
        assert(m * h == h * m) by (nonlinear_arith);
        lemma_fpow_minus_one(m as nat);
        let j = m / 2;
        if m % 2 == 0 {
            lemma_combine_even(e, t);
            assert(d2[j] == d[2 * j]);
            lemma_double_transform(ce, d2, j);
            let r = (h - j) % h;
            if j == 0 {
                vstd::arithmetic::div_mod::lemma_mod_self_0(h);
                vstd::arithmetic::div_mod::lemma_mod_self_0(n);
            } else {
                vstd::arithmetic::div_mod::lemma_small_mod((h - j) as nat, h as nat);
                vstd::arithmetic::div_mod::lemma_small_mod((n - m) as nat, n as nat);
            }
            assert(ce[r] == c[2 * r]);
            lemma_double_half(h as nat, ce[r]);
        } else {
            lemma_combine_odd(e, t);
            let next = (j + 1) % h;
            // g * x is the point of the half domain at position next
            assert(fmul(g, x) == fpow(g, (m + 1) as nat));
            if j + 1 < h {
                vstd::arithmetic::div_mod::lemma_small_mod((j + 1) as nat, h as nat);
                assert(d2[j + 1] == d[2 * (j + 1)]);
                assert(d[m + 1] == fpow(g, (m + 1) as nat));
                vstd::arithmetic::div_mod::lemma_small_mod((h - j - 1) as nat, h as nat);
            } else {
                vstd::arithmetic::div_mod::lemma_mod_self_0(h);
                lemma_fpow_add(g, h as nat, h as nat);
                lemma_minus_one();
                lemma_domain_points(d2, 0);
            }
            assert(fmul(g, x) == d2[next]);
            lemma_double_transform(co, d2, next);
            let r = (h - next) % h;
            vstd::arithmetic::div_mod::lemma_small_mod((n - m) as nat, n as nat);
            assert(co[r] == c[2 * r + 1]);
            assert(2 * r + 1 == n - m);
            lemma_double_half(h as nat, co[r]);
        }
    }
}

/// One half in the field: half of the field order plus one.
pub open spec fn one_half() -> nat {
    0x2000000000000000000000000000000011234c7e04a67c8dcc96987680000001nat
}

/// One half is the inverse of two.
pub proof fn lemma_two_invertible()
    ensures
        is_inverse(2, one_half()),
        finv(2) == one_half(),
{
    assert(is_inverse(2, one_half())) by {
        reveal(modulus);
    }
    crate::field_lemmas::lemma_finv_is(2, one_half());
}

/// Every power of two has an inverse in the field.
pub proof fn lemma_pow2_invertible(n: nat)
    requires
        is_pow2(n),
    ensures
        is_inverse(n, finv(n)),
    decreases n,
{
    lemma_modulus_bounds();
    if n == 1 {
        lemma_identities_reduced(1);
        crate::field_lemmas::lemma_finv_is(1, 1);
    } else {
        let m = n / 2;
        lemma_pow2_invertible(m);
        lemma_two_invertible();
        let half = finv(2);
        let r = fmul(half, finv(m));
        // n * (half * inv(m)) == (2 * half) * (m * inv(m)) == 1
        let mi = m as int;
        let hi = half as int;
        let vi = finv(m) as int;
        lemma_fmul_congruent(half, finv(m), hi, vi);
        lemma_fmul_congruent(n, r, 2 * mi, hi * vi);
        lemma_fmul_congruent(2, half, 2, hi);
        lemma_fmul_congruent(m, finv(m), mi, vi);
        lemma_fmul_congruent(fmul(2, half), fmul(m, finv(m)), 2 * hi, mi * vi);
        assert((2 * mi) * (hi * vi) == (2 * hi) * (mi * vi)) by (nonlinear_arith);
        lemma_identities_reduced(1);
        lemma_congruent_reduced(fmul(n, r), fmul(fmul(2, half), fmul(m, finv(m))));
        crate::field_lemmas::lemma_finv_is(n, r);
    }
}

/// Dividing a multiple by an invertible factor gives the residue back.
proof fn lemma_divide_multiple(n: nat, v: nat)
    requires
        is_inverse(n, finv(n)),
        v < modulus(),
    ensures
        fmul(fmul(n, v), finv(n)) == v,
{
    lemma_modulus_bounds();
    let ni = n as int;
    let vi = v as int;
    let ri = finv(n) as int;
    lemma_fmul_congruent(n, v, ni, vi);
    lemma_fmul_congruent(fmul(n, v), finv(n), ni * vi, ri);
    lemma_fmul_congruent(n, finv(n), ni, ri);
    lemma_fmul_congruent(v, fmul(n, finv(n)), vi, ni * ri);
    assert((ni * vi) * ri == vi * (ni * ri)) by (nonlinear_arith);
    lemma_identities_reduced(v);
    lemma_congruent_reduced(fmul(fmul(n, v), finv(n)), fmul(v, fmul(n, finv(n))));
}

/// The inverse transform undoes the transform: on a subgroup domain, the
/// inverse transform of the values of a polynomial with as many coefficients
/// as the domain has points is the vector of those coefficients.
pub proof fn lemma_inverse_transform(coeffs: Seq<nat>, domain: Seq<nat>)
    requires
        is_subgroup_domain(domain),
        coeffs.len() == domain.len(),
        forall|i: int| 0 <= i < coeffs.len() ==> coeffs[i] < modulus(),
    ensures
        inverse_dft(dft(coeffs, domain), domain) == coeffs,
{
    let n = domain.len() as int;
    let back = inverse_dft(dft(coeffs, domain), domain);
    lemma_pow2_invertible(domain.len());
    assert forall|k: int| 0 <= k < n implies back[k] == coeffs[k] by {
        let m = (n - k) % n;
        if k == 0 {
            vstd::arithmetic::div_mod::lemma_mod_self_0(n);
        } else {
            vstd::arithmetic::div_mod::lemma_small_mod((n - k) as nat, n as nat);
        }
        lemma_double_transform(coeffs, domain, m);
        if m == 0 {
            vstd::arithmetic::div_mod::lemma_mod_self_0(n);
        } else {
            vstd::arithmetic::div_mod::lemma_small_mod((n - m) as nat, n as nat);
        }
        assert((n - m) % n == k);
        lemma_divide_multiple(n as nat, coeffs[k]);
    }
    assert(back =~= coeffs);
}

/// The inverse transform undoes the transform, element by element: what
/// `ifft` returns for the values that `fft` returned for a coefficient vector
/// is that coefficient vector.
pub proof fn lemma_ifft_inverts_fft(
    coeffs: Seq<FieldElement>,
    domain: Seq<FieldElement>,
    evals: Seq<FieldElement>,
    back: Seq<FieldElement>,
)
    requires
        is_subgroup_domain(values(domain)),
        coeffs.len() == domain.len(),
        forall|i: int| 0 <= i < coeffs.len() ==> (#[trigger] coeffs[i]).canonical(),
        values(evals) == dft(values(coeffs), values(domain)),
        values(back) == inverse_dft(values(evals), values(domain)),
    ensures
        back == coeffs,
{
    assert forall|i: int| 0 <= i < values(coeffs).len() implies values(coeffs)[i] < modulus() by {
        coeffs[i].lemma_canonical();
    }
    lemma_inverse_transform(values(coeffs), values(domain));
    crate::field::lemma_values_injective(back, coeffs);
}

/// A polynomial whose coefficients are all zero takes the value zero.
proof fn lemma_eval_zeros(n: nat, x: nat)
    ensures
        poly_eval(Seq::new(n, |i: int| 0nat), x) == 0,
    decreases n,
{
    lemma_modulus_bounds();
    let zeros = Seq::new(n, |i: int| 0nat);
    if n > 0 {
        lemma_eval_zeros((n - 1) as nat, x);
        assert(zeros.drop_first() =~= Seq::new((n - 1) as nat, |i: int| 0nat));
        lemma_identities(x);
        lemma_identities(0);
    }
}

/// Zeros above the coefficients do not change the values of a polynomial.
pub proof fn lemma_eval_padded(coeffs: Seq<nat>, size: nat, x: nat)
    requires
        coeffs.len() <= size,
    ensures
        poly_eval(padded(coeffs, size), x) == poly_eval(coeffs, x),
{
    lemma_modulus_bounds();
    let zeros = Seq::new((size - coeffs.len()) as nat, |i: int| 0nat);
    assert(padded(coeffs, size) =~= coeffs + zeros);
    lemma_eval_concat(coeffs, zeros, x);
    lemma_eval_zeros(zeros.len(), x);
    lemma_identities(fpow(x, coeffs.len()));
    lemma_eval_reduced(coeffs, x);
    lemma_identities_reduced(poly_eval(coeffs, x));
}

/// The highest coefficient that is not zero stands within the vector.
pub proof fn lemma_highest_nonzero_bound(coeffs: Seq<nat>)
    requires
        coeffs.len() >= 1,
    ensures
        highest_nonzero(coeffs) < coeffs.len(),
    decreases coeffs.len(),
{
    if coeffs.last() == 0 {
        if coeffs.len() >= 2 {
            lemma_highest_nonzero_bound(coeffs.drop_last());
        } else {
            assert(highest_nonzero(coeffs.drop_last()) == 0);
        }
    }
}

/// Zeros above the coefficients do not change what trimming leaves.
pub proof fn lemma_trimmed_padded(coeffs: Seq<nat>, size: nat)
    requires
        1 <= coeffs.len() <= size,
    ensures
        trimmed(padded(coeffs, size)) == trimmed(coeffs),
    decreases size,
{
    lemma_highest_nonzero_bound(coeffs);
    if size == coeffs.len() {
        assert(padded(coeffs, size) =~= coeffs);
    } else {
        let wide = padded(coeffs, size);
        let narrow = padded(coeffs, (size - 1) as nat);
        assert(wide.drop_last() =~= narrow);
        lemma_trimmed_padded(coeffs, (size - 1) as nat);
        lemma_highest_nonzero_bound(narrow);
        assert(highest_nonzero(wide) == highest_nonzero(narrow));
        let k = highest_nonzero(narrow) as int;
        assert(wide.take(k + 1) =~= narrow.take(k + 1));
    }
}

/// Interpolation recovers a polynomial from its values: the values of a
/// polynomial with no more coefficients than the domain has points
/// interpolate to its coefficients up to the highest one that is not zero,
/// and so to all of them where the leading one is not zero.
pub proof fn lemma_interpolation(coeffs: Seq<nat>, domain: Seq<nat>, evals: Seq<nat>)
    requires
        is_subgroup_domain(domain),
        1 <= coeffs.len() <= domain.len(),
        forall|i: int| 0 <= i < coeffs.len() ==> coeffs[i] < modulus(),
        evals == dft(coeffs, domain),
    ensures
        trimmed(inverse_dft(evals, domain)) == trimmed(coeffs),
        coeffs.last() != 0 ==> trimmed(inverse_dft(evals, domain)) == coeffs,
{
    lemma_modulus_bounds();
    let wide = padded(coeffs, domain.len());
    assert(dft(wide, domain) =~= evals) by {
        assert forall|i: int| 0 <= i < domain.len() implies dft(wide, domain)[i] == evals[i] by {
            lemma_eval_padded(coeffs, domain.len(), domain[i]);
        }
    }
    lemma_inverse_transform(wide, domain);
    lemma_trimmed_padded(coeffs, domain.len());
    if coeffs.last() != 0 {
        assert(coeffs.take(coeffs.len() as int) =~= coeffs);
    }
}

} // verus!
