//! The number-theoretic transform over a multiplicative subgroup whose order
//! is a power of two, and its inverse.
//!
//! The transform of a coefficient vector is the vector of the values that the
//! polynomial takes on the points of the domain: the contracts say so through
//! [`poly_eval`], and the recursion of the implementation is proved against it.
use crate::field::{
    fadd, finv, fmul, fneg, fpow, lemma_modulus_bounds, modulus, values, FieldElement,
};
use crate::field_lemmas::{
    lemma_fadd_assoc, lemma_fadd_comm, lemma_finv_is, lemma_fmul_assoc, lemma_fmul_comm,
    lemma_fmul_distributes_add, lemma_fmul_minus_one, lemma_fmul_neg, lemma_fpow_add,
    lemma_fpow_mul_base, lemma_fpow_one, lemma_fpow_reduced, lemma_fsub_is_add_neg,
    lemma_identities, lemma_identities_reduced, lemma_minus_one, lemma_results_reduced,
};
use crate::numeric::is_pow2;
use vstd::prelude::*;
use vstd::slice::slice_to_vec;

verus! {

/// The value at `x` of the polynomial with the given coefficients, lowest
/// degree first.
pub open spec fn poly_eval(coeffs: Seq<nat>, x: nat) -> nat
    decreases coeffs.len(),
{
    if coeffs.len() == 0 {
        0
    } else {
        fadd(coeffs[0], fmul(x, poly_eval(coeffs.drop_first(), x)))
    }
}

/// The values of a polynomial on every point of a domain.
pub open spec fn dft(coeffs: Seq<nat>, domain: Seq<nat>) -> Seq<nat> {
    Seq::new(domain.len(), |i: int| poly_eval(coeffs, domain[i]))
}

/// The generator of a domain: its second point, or one where it has a single
/// point.
pub open spec fn generator(domain: Seq<nat>) -> nat {
    if domain.len() >= 2 {
        domain[1]
    } else {
        1
    }
}

/// Whether a domain is the subgroup that a primitive root of unity of order a
/// power of two generates, in ascending powers of that root.
pub open spec fn is_subgroup_domain(domain: Seq<nat>) -> bool {
    &&& is_pow2(domain.len())
    &&& forall|i: int|
        0 <= i < domain.len() ==> #[trigger] domain[i] == fpow(generator(domain), i as nat)
    &&& domain.len() >= 2 ==> fpow(generator(domain), domain.len() / 2) == fneg(1)
}

/// The squares of the first half of a domain. Of a subgroup domain this is the
/// subgroup of half the order: squaring the second half gives the same points
/// again.
pub open spec fn squared_half(domain: Seq<nat>) -> Seq<nat> {
    Seq::new(domain.len() / 2, |i: int| fmul(domain[i], domain[i]))
}

/// The entries at even positions.
pub open spec fn evens(s: Seq<nat>) -> Seq<nat> {
    Seq::new((s.len() + 1) / 2, |i: int| s[2 * i])
}

/// The entries at odd positions.
pub open spec fn odds(s: Seq<nat>) -> Seq<nat> {
    Seq::new(s.len() / 2, |i: int| s[2 * i + 1])
}

/// What the inverse transform yields: the transform of the values, read at the
/// inverse points and divided by the size of the domain.
pub open spec fn inverse_dft(evals: Seq<nat>, domain: Seq<nat>) -> Seq<nat> {
    Seq::new(
        domain.len(),
        |k: int|
            fmul(
                poly_eval(evals, domain[(domain.len() - k) % (domain.len() as int)]),
                finv(domain.len()),
            ),
    )
}

/// A polynomial splits into its even and its odd part:
/// `p(x) = p_even(x^2) + x * p_odd(x^2)`.
pub proof fn lemma_eval_split(coeffs: Seq<nat>, x: nat)
    ensures
        poly_eval(coeffs, x) == fadd(
            poly_eval(evens(coeffs), fmul(x, x)),
            fmul(x, poly_eval(odds(coeffs), fmul(x, x))),
        ),
    decreases coeffs.len(),
{
    lemma_modulus_bounds();
    let y = fmul(x, x);
    let nothing = Seq::<nat>::empty();
    assert(poly_eval(nothing, x) == 0);
    assert(poly_eval(nothing, y) == 0);
    if coeffs.len() == 0 {
        assert(evens(coeffs) =~= nothing);
        assert(odds(coeffs) =~= nothing);
        lemma_identities(x);
        lemma_identities(0);
    } else if coeffs.len() == 1 {
        assert(evens(coeffs).drop_first() =~= nothing);
        assert(odds(coeffs) =~= nothing);
        assert(coeffs.drop_first() =~= nothing);
        assert(evens(coeffs)[0] == coeffs[0]);
        lemma_identities(x);
        lemma_identities(y);
        lemma_identities(0);
        lemma_identities(coeffs[0]);
        lemma_identities(fadd(coeffs[0], 0));
        vstd::arithmetic::div_mod::lemma_mod_twice(coeffs[0] as int, modulus() as int);
        assert(poly_eval(coeffs, x) == fadd(coeffs[0], 0));
        assert(poly_eval(evens(coeffs), y) == fadd(coeffs[0], 0));
        assert(fmul(x, poly_eval(odds(coeffs), y)) == 0);
    } else {
        let rest = coeffs.drop_first().drop_first();
        lemma_eval_split(rest, x);
        assert(evens(coeffs).drop_first() =~= evens(rest));
        assert(odds(coeffs).drop_first() =~= odds(rest));
        assert(evens(coeffs)[0] == coeffs[0]);
        assert(odds(coeffs)[0] == coeffs[1]);
        let c0 = coeffs[0];
        let c1 = coeffs[1];
        let e = poly_eval(evens(rest), y);
        let o = poly_eval(odds(rest), y);
        let r = poly_eval(rest, x);
        assert(r == fadd(e, fmul(x, o)));
        assert(coeffs.drop_first()[0] == c1);
        assert(poly_eval(coeffs.drop_first(), x) == fadd(c1, fmul(x, r)));
        assert(poly_eval(coeffs, x) == fadd(c0, fmul(x, fadd(c1, fmul(x, r)))));
        assert(poly_eval(evens(coeffs), y) == fadd(c0, fmul(y, e)));
        assert(poly_eval(odds(coeffs), y) == fadd(c1, fmul(y, o)));
        // x * (c1 + x * r) == x * c1 + y * r
        lemma_fmul_distributes_add(x, c1, fmul(x, r));
        lemma_fmul_assoc(x, x, r);
        // y * r == y * e + y * (x * o)
        lemma_fmul_distributes_add(y, e, fmul(x, o));
        // y * (x * o) == x * (y * o)
        lemma_fmul_assoc(y, x, o);
        lemma_fmul_comm(y, x);
        lemma_fmul_assoc(x, y, o);
        // x * (c1 + y * o) == x * c1 + x * (y * o)
        lemma_fmul_distributes_add(x, c1, fmul(y, o));
        let a = fmul(x, c1);
        let b = fmul(y, e);
        let c = fmul(x, fmul(y, o));
        // c0 + (a + (b + c)) == (c0 + b) + (a + c)
        lemma_fadd_assoc(c0, a, fadd(b, c));
        lemma_fadd_assoc(a, b, c);
        lemma_fadd_comm(a, b);
        lemma_fadd_assoc(b, a, c);
        lemma_fadd_assoc(c0, b, fadd(a, c));
    }
}

/// The points of a subgroup domain are residues; the first is one.
pub proof fn lemma_domain_points(domain: Seq<nat>, i: int)
    requires
        is_subgroup_domain(domain),
        0 <= i < domain.len(),
    ensures
        domain[i] < modulus(),
        domain[0] == 1,
        generator(domain) < modulus(),
{
    lemma_modulus_bounds();
    lemma_fpow_reduced(generator(domain), i as nat);
    assert(domain[0] == fpow(generator(domain), 0));
    if domain.len() >= 2 {
        lemma_fpow_reduced(generator(domain), 1);
        assert(domain[1] == fpow(generator(domain), 1));
    }
}

/// The second half of a subgroup domain holds the negatives of the first.
pub proof fn lemma_domain_second_half(domain: Seq<nat>, i: int)
    requires
        is_subgroup_domain(domain),
        0 <= i < domain.len() / 2,
    ensures
        domain[i + domain.len() / 2] == fneg(domain[i]),
        fmul(domain[i + domain.len() / 2], domain[i + domain.len() / 2]) == fmul(
            domain[i],
            domain[i],
        ),
{
    let g = generator(domain);
    let h = domain.len() / 2;
    let x = domain[i];
    assert(domain[i + h] == fpow(g, (i + h) as nat));
    lemma_fpow_add(g, i as nat, h);
    lemma_fmul_minus_one(x);
    // (-x) * (-x) == x * x
    lemma_fmul_neg(fneg(x), x);
    lemma_fmul_neg(x, x);
    lemma_fmul_comm(fneg(x), x);
    crate::field_lemmas::lemma_fneg_fneg(fmul(x, x));
    lemma_results_reduced(x, x);
    vstd::arithmetic::div_mod::lemma_small_mod(fmul(x, x), modulus());
}

/// The squares of the first half of a subgroup domain are the subgroup domain
/// that the square of its generator generates.
pub proof fn lemma_squared_half_is_domain(domain: Seq<nat>)
    requires
        is_subgroup_domain(domain),
        domain.len() >= 2,
    ensures
        is_subgroup_domain(squared_half(domain)),
        squared_half(domain).len() >= 2 ==> generator(squared_half(domain)) == fmul(
            generator(domain),
            generator(domain),
        ),
        forall|i: int|
            0 <= i < squared_half(domain).len() ==> #[trigger] squared_half(domain)[i]
                == domain[2 * i],
{
    lemma_modulus_bounds();
    let g = generator(domain);
    let g2 = fmul(g, g);
    let half = squared_half(domain);
    let n = domain.len();
    assert forall|i: int| 0 <= i < half.len() implies #[trigger] half[i] == fpow(g2, i as nat)
        && half[i] == domain[2 * i] by {
        assert(domain[i] == fpow(g, i as nat));
        lemma_fpow_mul_base(g, g, i as nat);
        lemma_fpow_add(g, i as nat, i as nat);
        assert(domain[2 * i] == fpow(g, (2 * i) as nat));
    }
    assert(is_pow2(half.len()));
    if half.len() >= 2 {
        assert(half.len() % 2 == 0);
        assert(half[1] == fpow(g2, 1));
        lemma_fpow_one(g2);
        lemma_results_reduced(g, g);
        vstd::arithmetic::div_mod::lemma_small_mod(g2, modulus());
        assert(generator(half) == g2);
        let q = half.len() / 2;
        lemma_fpow_mul_base(g, g, q);
        lemma_fpow_add(g, q, q);
        assert(q + q == n / 2);
    } else {
        assert(half.len() == 1);
        assert(half[0] == fpow(g2, 0));
    }
}

/// The position in a domain of `size` points of the inverse of the point at
/// position `i`.
pub open spec fn inverse_position(size: nat, i: int) -> int {
    (size - i) % (size as int)
}

/// The point at the inverse position is the inverse of the point.
pub proof fn lemma_inverse_position(domain: Seq<nat>, j: int)
    requires
        is_subgroup_domain(domain),
        domain.len() >= 2,
        0 <= j < domain.len(),
    ensures
        0 <= inverse_position(domain.len(), j) < domain.len(),
        fmul(domain[j], domain[inverse_position(domain.len(), j)]) == 1,
{
    lemma_modulus_bounds();
    let n = domain.len() as int;
    let g = generator(domain);
    let m = inverse_position(domain.len(), j);
    if j == 0 {
        vstd::arithmetic::div_mod::lemma_mod_self_0(n);
        lemma_domain_points(domain, 0);
        lemma_identities_reduced(1);
    } else {
        vstd::arithmetic::div_mod::lemma_small_mod((n - j) as nat, n as nat);
        assert(domain[j] == fpow(g, j as nat));
        assert(domain[m] == fpow(g, m as nat));
        lemma_fpow_add(g, j as nat, m as nat);
        let h = (n / 2) as nat;
        assert(n % 2 == 0);
        lemma_fpow_add(g, h, h);
        lemma_minus_one();
    }
}

/// No power of the generator of a subgroup of order `n` below the `n`-th is
/// one: the generator is a primitive root.
pub proof fn lemma_no_small_period(g: nat, n: nat, e: nat)
    requires
        is_pow2(n),
        n >= 2,
        fpow(g, n / 2) == fneg(1),
        0 < e < n,
    ensures
        fpow(g, e) != 1,
    decreases n,
{
    lemma_modulus_bounds();
    let h = n / 2;
    if e % 2 == 1 {
        if fpow(g, e) == 1 {
            crate::field_lemmas::lemma_fpow_of_one(h);
            crate::field_lemmas::lemma_fpow_pow(g, e, h);
            crate::field_lemmas::lemma_fpow_pow(g, h, e);
            assert(e * h == h * e) by (nonlinear_arith);
            crate::field_lemmas::lemma_fpow_minus_one(e);
            lemma_minus_one();
        }
    } else {
        let g2 = fmul(g, g);
        let half_e = e / 2;
        assert(is_pow2(h));
        assert(h >= 2);
        assert(h % 2 == 0);
        lemma_fpow_mul_base(g, g, half_e);
        lemma_fpow_add(g, half_e, half_e);
        lemma_fpow_mul_base(g, g, h / 2);
        lemma_fpow_add(g, h / 2, h / 2);
        lemma_no_small_period(g2, h, half_e);
    }
}

/// The points of a subgroup domain are distinct.
pub proof fn lemma_domain_distinct(domain: Seq<nat>, i: int, j: int)
    requires
        is_subgroup_domain(domain),
        0 <= i < j < domain.len(),
    ensures
        domain[i] != domain[j],
{
    lemma_modulus_bounds();
    let g = generator(domain);
    let a = fpow(g, i as nat);
    let b = fpow(g, (j - i) as nat);
    assert(domain[i] == a);
    assert(domain[j] == fpow(g, j as nat));
    if domain[i] == domain[j] {
        lemma_fpow_add(g, i as nat, (j - i) as nat);
        lemma_inverse_position(domain, i);
        let u = domain[inverse_position(domain.len(), i)];
        // b == (u * a) * b == u * (a * b) == u * a == 1
        lemma_fmul_assoc(u, a, b);
        lemma_fmul_comm(u, a);
        lemma_fpow_reduced(g, (j - i) as nat);
        lemma_identities_reduced(b);
        lemma_no_small_period(g, domain.len(), (j - i) as nat);
    }
}

/// The squares of all the points of a domain.
pub open spec fn squares(domain: Seq<nat>) -> Seq<nat> {
    Seq::new(domain.len(), |i: int| fmul(domain[i], domain[i]))
}

/// A sequence without its repetitions: every entry where it first occurs.
pub open spec fn dedup(s: Seq<nat>) -> Seq<nat>
    decreases s.len(),
{
    if s.len() == 0 {
        Seq::empty()
    } else {
        let before = dedup(s.drop_last());
        if before.contains(s.last()) {
            before
        } else {
            before.push(s.last())
        }
    }
}

/// The squares of the first points of a subgroup domain, without repetitions,
/// are the first points of the halved domain.
proof fn lemma_dedup_squares_prefix(domain: Seq<nat>, m: nat)
    requires
        is_subgroup_domain(domain),
        domain.len() >= 2,
        m <= domain.len(),
    ensures
        dedup(squares(domain).take(m as int)) == squared_half(domain).take(
            if m <= domain.len() / 2 {
                m as int
            } else {
                (domain.len() / 2) as int
            },
        ),
    decreases m,
{
    let all = squares(domain);
    let half = squared_half(domain);
    let h = (domain.len() / 2) as int;
    assert(domain.len() % 2 == 0);
    if m == 0 {
        assert(all.take(0) =~= Seq::<nat>::empty());
        assert(half.take(0) =~= Seq::<nat>::empty());
    } else {
        let k = (m - 1) as int;
        lemma_dedup_squares_prefix(domain, k as nat);
        let prefix = all.take(m as int);
        assert(prefix.drop_last() =~= all.take(k));
        assert(prefix.last() == all[k]);
        lemma_squared_half_is_domain(domain);
        if k < h {
            assert(all[k] == half[k]);
            let before = half.take(k);
            assert(!before.contains(half[k])) by {
                if before.contains(half[k]) {
                    let at = choose|at: int| 0 <= at < before.len() && before[at] == half[k];
                    lemma_domain_distinct(half, at, k);
                }
            }
            assert(before.push(half[k]) =~= half.take(k + 1));
        } else {
            lemma_domain_second_half(domain, k - h);
            assert(all[k] == half[k - h]);
            assert(half.take(h) =~= half);
            assert(half.contains(half[k - h]));
        }
    }
}

/// Squaring every point of a subgroup domain and dropping the repetitions
/// gives the halved domain: the squares of the second half repeat those of
/// the first.
pub proof fn lemma_dedup_squares(domain: Seq<nat>)
    requires
        is_subgroup_domain(domain),
        domain.len() >= 2,
    ensures
        dedup(squares(domain)) == squared_half(domain),
{
    lemma_dedup_squares_prefix(domain, domain.len());
    assert(squares(domain).take(domain.len() as int) =~= squares(domain));
    assert(squared_half(domain).take((domain.len() / 2) as int) =~= squared_half(domain));
}

/// The squares of the first half of a domain.
pub fn square_domain(domain: &[FieldElement]) -> (squared: Vec<FieldElement>)
    ensures
        squared@.len() == domain@.len() / 2,
        values(squared@) == squared_half(values(domain@)),
{
    let half = domain.len() / 2;
    let mut squared: Vec<FieldElement> = Vec::new();
    let mut i: usize = 0;
    while i < half
        invariant
            i <= half,
            half == domain@.len() / 2,
            squared@.len() == i,
            forall|j: int|
                0 <= j < i ==> (#[trigger] squared@[j])@ == fmul(domain@[j]@, domain@[j]@),
        decreases half - i,
    {
        squared.push(domain[i].square());
        i += 1;
    }
    assert(values(squared@) =~= squared_half(values(domain@)));
    squared
}

/// The values of the polynomial with the given coefficients on the points of
/// a subgroup domain of as many points.
pub fn fft(coeffs: &[FieldElement], domain: &[FieldElement]) -> (evals: Vec<FieldElement>)
    requires
        coeffs@.len() == domain@.len(),
        is_subgroup_domain(values(domain@)),
    ensures
        evals@.len() == domain@.len(),
        values(evals@) == dft(values(coeffs@), values(domain@)),
    decreases coeffs@.len(),
{
    let n = coeffs.len();
    let ghost c = values(coeffs@);
    let ghost d = values(domain@);
    if n == 1 {
        let only = coeffs[0];
        let evals = slice_to_vec(coeffs);
        proof {
            use_type_invariant(&only);
            only.lemma_canonical();
            assert(c.drop_first() =~= Seq::<nat>::empty());
            assert(poly_eval(Seq::<nat>::empty(), d[0]) == 0);
            assert(c[0] == only@);
            lemma_identities(d[0]);
            lemma_identities_reduced(only@);
            assert(poly_eval(c, d[0]) == only@);
            assert(values(evals@) =~= dft(c, d));
        }
        return evals;
    }
    let half = n / 2;
    let mut even_coeffs: Vec<FieldElement> = Vec::new();
    let mut odd_coeffs: Vec<FieldElement> = Vec::new();
    let mut i: usize = 0;
    while i < half
        invariant
            i <= half,
            half == n / 2,
            n == coeffs@.len(),
            n % 2 == 0,
            even_coeffs@.len() == i,
            odd_coeffs@.len() == i,
            forall|j: int| 0 <= j < i ==> #[trigger] even_coeffs@[j] == coeffs@[2 * j],
            forall|j: int| 0 <= j < i ==> #[trigger] odd_coeffs@[j] == coeffs@[2 * j + 1],
        decreases half - i,
    {
        even_coeffs.push(coeffs[2 * i]);
        odd_coeffs.push(coeffs[2 * i + 1]);
        i += 1;
    }
    let domain_squared = square_domain(domain);
    proof {
        lemma_squared_half_is_domain(d);
        assert(values(even_coeffs@) =~= evens(c));
        assert(values(odd_coeffs@) =~= odds(c));
    }
    let fft_e = fft(even_coeffs.as_slice(), domain_squared.as_slice());
    let fft_o = fft(odd_coeffs.as_slice(), domain_squared.as_slice());
    let mut evals: Vec<FieldElement> = Vec::new();
    let mut upper: Vec<FieldElement> = Vec::new();
    let mut i: usize = 0;
    while i < half
        invariant
            i <= half,
            half == n / 2,
            n == domain@.len(),
            n % 2 == 0,
            c == values(coeffs@),
            d == values(domain@),
            is_subgroup_domain(d),
            fft_e@.len() == half,
            fft_o@.len() == half,
            values(fft_e@) == dft(evens(c), squared_half(d)),
            values(fft_o@) == dft(odds(c), squared_half(d)),
            evals@.len() == i,
            upper@.len() == i,
            forall|j: int| 0 <= j < i ==> (#[trigger] evals@[j])@ == poly_eval(c, d[j]),
            forall|j: int| 0 <= j < i ==> (#[trigger] upper@[j])@ == poly_eval(c, d[j + half]),
        decreases half - i,
    {
        let twisted = fft_o[i].mul(&domain[i]);
        let low = fft_e[i].add(&twisted);
        let high = fft_e[i].sub(&twisted);
        proof {
            let x = d[i as int];
            let y = fmul(x, x);
            let e = poly_eval(evens(c), y);
            let o = poly_eval(odds(c), y);
            assert(values(fft_e@)[i as int] == e);
            assert(values(fft_o@)[i as int] == o);
            lemma_fmul_comm(o, x);
            lemma_eval_split(c, x);
            let z = d[i + half];
            lemma_domain_second_half(d, i as int);
            lemma_eval_split(c, z);
            lemma_fmul_neg(x, o);
            lemma_fsub_is_add_neg(e, fmul(x, o));
        }
        evals.push(low);
        upper.push(high);
        i += 1;
    }
    let mut k: usize = 0;
    while k < half
        invariant
            k <= half,
            half == n / 2,
            n == domain@.len(),
            n % 2 == 0,
            d == values(domain@),
            upper@.len() == half,
            evals@.len() == half + k,
            forall|j: int| 0 <= j < half ==> (#[trigger] upper@[j])@ == poly_eval(c, d[j + half]),
            forall|j: int| 0 <= j < half + k ==> (#[trigger] evals@[j])@ == poly_eval(c, d[j]),
        decreases half - k,
    {
        let moved = upper[k];
        assert(moved@ == poly_eval(c, d[k + half]));
        evals.push(moved);
        k += 1;
    }
    assert(values(evals@) =~= dft(c, d));
    evals
}

/// The coefficients of the polynomial of degree below the size of the domain
/// that takes the given values on its points.
///
/// The result is the transform of the values, read at the inverse points and
/// divided by the size of the domain.
pub fn ifft(domain: &[FieldElement], evals: &[FieldElement]) -> (coeffs: Vec<FieldElement>)
    requires
        evals@.len() == domain@.len(),
        is_subgroup_domain(values(domain@)),
    ensures
        coeffs@.len() == domain@.len(),
        values(coeffs@) == inverse_dft(values(evals@), values(domain@)),
{
    let n = domain.len();
    proof {
        lemma_modulus_bounds();
    }
    let size = FieldElement::from_u64(n as u64);
    let vals = fft(evals, domain);
    let mut coeffs: Vec<FieldElement> = Vec::new();
    match size.invert() {
        Some(len_mod_inv) => {
            proof {
                lemma_finv_is(n as nat, len_mod_inv@);
                assert(values(vals@)[0] == vals@[0]@);
                assert((n - 0) % (n as int) == 0) by {
                    vstd::arithmetic::div_mod::lemma_mod_self_0(n as int);
                }
            }
            coeffs.push(vals[0].mul(&len_mod_inv));
            let mut k: usize = 1;
            while k < n
                invariant
                    1 <= k <= n,
                    n == domain@.len(),
                    vals@.len() == n,
                    values(vals@) == dft(values(evals@), values(domain@)),
                    len_mod_inv@ == finv(n as nat),
                    coeffs@.len() == k,
                    forall|j: int|
                        0 <= j < k ==> (#[trigger] coeffs@[j])@ == inverse_dft(
                            values(evals@),
                            values(domain@),
                        )[j],
                decreases n - k,
            {
                let scaled = vals[n - k].mul(&len_mod_inv);
                proof {
                    assert(values(vals@)[n - k] == vals@[n - k]@);
                    assert((n - k) % (n as int) == n - k) by {
                        vstd::arithmetic::div_mod::lemma_small_mod((n - k) as nat, n as nat);
                    }
                }
                coeffs.push(scaled);
                k += 1;
            }
        },
        None => {
            assert(false);
        },
    }
    assert(values(coeffs@) =~= inverse_dft(values(evals@), values(domain@)));
    coeffs
}

} // verus!
