//! Completeness of the protocol: the verifier accepts what the prover makes
//! of a polynomial of exactly the degree that the domain is made for.
//!
//! The proof follows the codewords through the rounds. Each is the transform
//! of the polynomial folded as often, so the last one interpolates to a
//! polynomial of the expected degree; each symbol of a codeword lies on the
//! line through the two symbols of the codeword before that it was folded
//! from; and a replay of the roots puts the verifier's transcript where the
//! prover's was. The last lemma says what acceptance is worth in turn: the
//! openings of an accepted proof satisfy the fold equation.
use crate::FriProofView;
use crate::domain::{
    domain_at, domain_of, lemma_domain_of_is_subgroup, num_rounds, NUM_COLINEARITY_CHECKS,
};
use crate::fft::{
    dft, evens, inverse_position, is_subgroup_domain, lemma_domain_second_half, lemma_eval_split,
    lemma_inverse_position, lemma_squared_half_is_domain, odds, poly_eval, squared_half,
};
use crate::field::{fadd, finv, fmul, fneg, fsub, lemma_modulus_bounds, modulus};
use crate::field_lemmas::{
    lemma_congruent_by_kernel, lemma_congruent_reduced, lemma_fadd_congruent, lemma_finv_is,
    lemma_fmul_congruent, lemma_fsub_congruent, lemma_identities, lemma_identities_reduced,
    lemma_unit_kernel,
};
use crate::fri_prover::{
    commit_codewords, commit_log, fold_value, folded, padded, proof_codewords, proof_commit_log,
    proof_indices, proof_of, query_layers, query_openings, round_challenge,
};
use crate::fri_verifier::{
    accepts, colinear, degree_ok, layer_roots, query_at, query_ok, replay_challenges, replay_log,
    verifier_indices,
};
use crate::inversion::{
    lemma_eval_add, lemma_eval_scale, lemma_inverse_transform, lemma_two_invertible, one_half,
    poly_add, poly_scale,
};
use crate::numeric::{is_pow2, lemma_is_pow2_pow2, lemma_pow2_log2, log2};
use crate::transcript::{log_after_round, TranscriptOp};
use crate::tree::{lemma_opening_leads_to_root, lemma_path_length, merkle_root};
use crate::unipoly::{highest_nonzero, trimmed};
use crate::utils::lemma_sample_length;
use vstd::arithmetic::power2::{lemma2_to64, lemma_pow2_adds, lemma_pow2_unfold, pow2};
use vstd::prelude::*;

verus! {

/// The roots of the codewords that the commit phase commits to: of all but
/// the last.
pub open spec fn committed_roots(codewords: Seq<Seq<nat>>) -> Seq<nat> {
    Seq::new((codewords.len() - 1) as nat, |i: int| merkle_root(codewords[i]))
}

/// Whether codeword `i + 1` is the fold of codeword `i` on the domain after
/// `i` halvings under challenge `i`.
pub open spec fn is_fold_of(
    codewords: Seq<Seq<nat>>,
    domain: Seq<nat>,
    alphas: Seq<nat>,
    i: int,
) -> bool {
    codewords[i + 1] == folded(codewords[i], domain_at(domain, i as nat), alphas[i])
}

/// What the commit phase makes is what a replay of its roots finds again: the
/// same history of the transcript, and challenges under which every codeword
/// is the fold of the one before.
pub proof fn lemma_commit_structure(
    codeword: Seq<nat>,
    domain: Seq<nat>,
    log: Seq<TranscriptOp>,
    rounds: nat,
)
    ensures
        ({
            let codewords = commit_codewords(codeword, domain, log, rounds);
            let roots = committed_roots(codewords);
            let alphas = replay_challenges(log, roots);
            &&& codewords.len() == rounds + 1
            &&& codewords[0] == codeword
            &&& alphas.len() == rounds
            &&& replay_log(log, roots) == commit_log(codeword, domain, log, rounds)
            &&& forall|i: int|
                0 <= i < rounds ==> #[trigger] is_fold_of(codewords, domain, alphas, i)
        }),
    decreases rounds,
{
    let codewords = commit_codewords(codeword, domain, log, rounds);
    let roots = committed_roots(codewords);
    let alphas = replay_challenges(log, roots);
    if rounds == 0 {
        assert(roots =~= Seq::<nat>::empty());
    } else {
        let root = merkle_root(codeword);
        let alpha = round_challenge(log, root);
        let next = folded(codeword, domain, alpha);
        let next_domain = squared_half(domain);
        let next_log = log_after_round(log, root);
        let rest = commit_codewords(next, next_domain, next_log, (rounds - 1) as nat);
        lemma_commit_structure(next, next_domain, next_log, (rounds - 1) as nat);
        assert(codewords == seq![codeword] + rest);
        let rest_roots = committed_roots(rest);
        let rest_alphas = replay_challenges(next_log, rest_roots);
        assert(roots[0] == root);
        assert(roots.drop_first() =~= rest_roots);
        assert(alphas == seq![alpha] + rest_alphas);
        assert forall|i: int| 0 <= i < rounds implies #[trigger] is_fold_of(
            codewords,
            domain,
            alphas,
            i,
        ) by {
            if i == 0 {
                assert(codewords[1] == rest[0]);
            } else {
                assert(is_fold_of(rest, next_domain, rest_alphas, i - 1));
                assert(codewords[i + 1] == rest[i]);
                assert(codewords[i] == rest[i - 1]);
                assert(alphas[i] == rest_alphas[i - 1]);
                assert(domain_at(domain, i as nat) == domain_at(next_domain, (i - 1) as nat));
            }
        }
    }
}

/// Halving once more halves the domain after `rounds` halvings.
pub proof fn lemma_domain_at_next(domain: Seq<nat>, rounds: nat)
    ensures
        domain_at(domain, rounds + 1) == squared_half(domain_at(domain, rounds)),
    decreases rounds,
{
    let half = squared_half(domain);
    if rounds > 0 {
        lemma_domain_at_next(half, (rounds - 1) as nat);
        assert(domain_at(domain, rounds + 1) == domain_at(half, rounds));
        assert(domain_at(domain, rounds) == domain_at(half, (rounds - 1) as nat));
    } else {
        assert(domain_at(domain, 1) == domain_at(half, 0));
        assert(domain_at(half, 0) == half);
    }
}

/// The domain after some halvings is a subgroup domain, of the points of the
/// first domain at the multiples of a power of two.
pub proof fn lemma_domain_at(domain: Seq<nat>, k: nat, rounds: nat)
    requires
        is_subgroup_domain(domain),
        domain.len() == pow2(k),
        rounds <= k,
    ensures
        is_subgroup_domain(domain_at(domain, rounds)),
        domain_at(domain, rounds).len() == pow2((k - rounds) as nat),
        forall|j: int|
            0 <= j < domain_at(domain, rounds).len() ==> #[trigger] domain_at(domain, rounds)[j]
                == domain[j * pow2(rounds)],
    decreases rounds,
{
    lemma2_to64();
    if rounds > 0 {
        let half = squared_half(domain);
        lemma_pow2_unfold(k);
        vstd::arithmetic::power2::lemma_pow2_pos((k - 1) as nat);
        lemma_squared_half_is_domain(domain);
        lemma_domain_at(half, (k - 1) as nat, (rounds - 1) as nat);
        lemma_pow2_unfold(rounds);
        let reduced = domain_at(domain, rounds);
        assert forall|j: int| 0 <= j < reduced.len() implies #[trigger] reduced[j] == domain[j
            * pow2(rounds)] by {
            let step = pow2((rounds - 1) as nat) as int;
            let at = j * step;
            vstd::arithmetic::power2::lemma_pow2_pos((rounds - 1) as nat);
            vstd::arithmetic::power2::lemma_pow2_adds((k - rounds) as nat, (rounds - 1) as nat);
            assert(reduced[j] == domain_at(half, (rounds - 1) as nat)[j]);
            assert(0 <= at < half.len()) by (nonlinear_arith)
                requires
                    0 <= j < pow2((k - rounds) as nat),
                    step > 0,
                    at == j * step,
                    half.len() == pow2((k - rounds) as nat) * step,
            ;
            assert(half[at] == domain[2 * at]);
            assert(2 * at == j * pow2(rounds)) by (nonlinear_arith)
                requires
                    at == j * step,
                    pow2(rounds) == 2 * step,
            ;
        }
    } else {
        assert forall|j: int| 0 <= j < domain.len() implies #[trigger] domain[j] == domain[j
            * pow2(0)] by {
            assert(j * 1 == j);
        }
    }
}

/// The coefficients of the fold of a polynomial under a challenge: its even
/// part plus the challenge times its odd part.
pub open spec fn fold_coeffs(coeffs: Seq<nat>, alpha: nat) -> Seq<nat> {
    poly_add(evens(coeffs), poly_scale(alpha, odds(coeffs)))
}

/// Folding the values of a polynomial at a point and at its negative gives
/// the value of the folded polynomial at the square of the point.
proof fn lemma_fold_identity(e: nat, o: nat, x: nat, u: nat, alpha: nat)
    requires
        fmul(x, u) == 1,
    ensures
        fold_value(fadd(e, fmul(x, o)), fsub(e, fmul(x, o)), u, alpha) == fadd(e, fmul(alpha, o)),
{
    lemma_modulus_bounds();
    lemma_two_invertible();
    let h = one_half();
    let a = fadd(e, fmul(x, o));
    let b = fsub(e, fmul(x, o));
    let t = fmul(alpha, u);
    let (ei, oi, xi, ui, ai, hi) = (e as int, o as int, x as int, u as int, alpha as int, h as int);
    lemma_fmul_congruent(x, o, xi, oi);
    lemma_fadd_congruent(e, fmul(x, o), ei, xi * oi);
    lemma_fsub_congruent(e, fmul(x, o), ei, xi * oi);
    lemma_fmul_congruent(alpha, u, ai, ui);
    lemma_fadd_congruent(1, t, 1, ai * ui);
    lemma_fsub_congruent(1, t, 1, ai * ui);
    lemma_fmul_congruent(fadd(1, t), a, 1 + ai * ui, ei + xi * oi);
    lemma_fmul_congruent(fsub(1, t), b, 1 - ai * ui, ei - xi * oi);
    let left = (1 + ai * ui) * (ei + xi * oi);
    let right = (1 - ai * ui) * (ei - xi * oi);
    lemma_fadd_congruent(fmul(fadd(1, t), a), fmul(fsub(1, t), b), left, right);
    lemma_fmul_congruent(h, fadd(fmul(fadd(1, t), a), fmul(fsub(1, t), b)), hi, left + right);
    lemma_fmul_congruent(alpha, o, ai, oi);
    lemma_fadd_congruent(e, fmul(alpha, o), ei, ai * oi);
    let k1 = 2 * hi - 1;
    let k2 = ui * xi - 1;
    lemma_unit_kernel(2, h);
    lemma_unit_kernel(x, u);
    let au = ai * ui;
    let xo = xi * oi;
    let ao = ai * oi;
    let w = ui * xi;
    assert(left == ei + xo + au * ei + au * xo) by (nonlinear_arith)
        requires
            left == (1 + au) * (ei + xo),
    ;
    assert(right == ei - xo - au * ei + au * xo) by (nonlinear_arith)
        requires
            right == (1 - au) * (ei - xo),
    ;
    assert(au * xo == ao * w) by (nonlinear_arith)
        requires
            au == ai * ui,
            xo == xi * oi,
            ao == ai * oi,
            w == ui * xi,
    ;
    assert(hi * (left + right) == 2 * hi * ei + 2 * hi * (ao * w)) by (nonlinear_arith)
        requires
            left + right == 2 * ei + 2 * (ao * w),
    ;
    assert(2 * hi * (ao * w) == k2 * (2 * hi * ao) + 2 * hi * ao) by (nonlinear_arith)
        requires
            k2 == w - 1,
    ;
    assert(2 * hi * ei + 2 * hi * ao - (ei + ao) == k1 * (ei + ao)) by (nonlinear_arith)
        requires
            k1 == 2 * hi - 1,
    ;
    assert(2 * hi * ai * oi == 2 * hi * ao) by (nonlinear_arith)
        requires
            ao == ai * oi,
    ;
    assert(hi * (left + right) - (ei + ai * oi) == k1 * (ei + ai * oi) + k2 * (2 * hi * ai * oi));
    lemma_congruent_by_kernel(
        hi * (left + right),
        ei + ai * oi,
        k1,
        ei + ai * oi,
        k2,
        2 * hi * ai * oi,
    );
    lemma_congruent_reduced(fold_value(a, b, u, alpha), fadd(e, fmul(alpha, o)));
}

/// The fold of the transform of a polynomial is the transform of the folded
/// polynomial on the halved domain.
pub proof fn lemma_fold_of_transform(coeffs: Seq<nat>, domain: Seq<nat>, alpha: nat)
    requires
        is_subgroup_domain(domain),
        coeffs.len() == domain.len(),
        domain.len() >= 2,
    ensures
        folded(dft(coeffs, domain), domain, alpha) == dft(
            fold_coeffs(coeffs, alpha),
            squared_half(domain),
        ),
{
    lemma_modulus_bounds();
    let n = domain.len() as int;
    let h = n / 2;
    assert(n % 2 == 0);
    let y = dft(coeffs, domain);
    let lhs = folded(y, domain, alpha);
    let half = squared_half(domain);
    let rhs = dft(fold_coeffs(coeffs, alpha), half);
    assert forall|j: int| 0 <= j < h implies lhs[j] == rhs[j] by {
        let x = domain[j];
        let sq = fmul(x, x);
        let e = poly_eval(evens(coeffs), sq);
        let o = poly_eval(odds(coeffs), sq);
        let z = domain[j + h];
        lemma_eval_split(coeffs, x);
        lemma_domain_second_half(domain, j);
        lemma_eval_split(coeffs, z);
        crate::field_lemmas::lemma_fmul_neg(x, o);
        crate::field_lemmas::lemma_fsub_is_add_neg(e, fmul(x, o));
        assert(y[j] == fadd(e, fmul(x, o)));
        assert(y[j + h] == fsub(e, fmul(x, o)));
        lemma_inverse_position(domain, j);
        let u = domain[inverse_position(domain.len(), j)];
        lemma_fold_identity(e, o, x, u, alpha);
        assert(half[j] == sq);
        lemma_eval_add(evens(coeffs), poly_scale(alpha, odds(coeffs)), sq);
        lemma_eval_scale(alpha, odds(coeffs), sq);
    }
    assert(lhs =~= rhs);
}

/// The coefficients after `rounds` folds under the given challenges.
pub open spec fn folded_coeffs(coeffs: Seq<nat>, alphas: Seq<nat>, rounds: nat) -> Seq<nat>
    decreases rounds,
{
    if rounds == 0 {
        coeffs
    } else {
        fold_coeffs(folded_coeffs(coeffs, alphas, (rounds - 1) as nat), alphas[rounds - 1])
    }
}

/// Where the first codeword is the transform of a polynomial, every codeword
/// is the transform, on its domain, of the polynomial folded as often.
pub proof fn lemma_codeword_is_transform(
    coeffs: Seq<nat>,
    domain: Seq<nat>,
    k: nat,
    codewords: Seq<Seq<nat>>,
    alphas: Seq<nat>,
    i: nat,
)
    requires
        is_subgroup_domain(domain),
        domain.len() == pow2(k),
        coeffs.len() == domain.len(),
        i < codewords.len(),
        i <= k,
        codewords[0] == dft(coeffs, domain),
        forall|j: int| 0 <= j < i ==> #[trigger] is_fold_of(codewords, domain, alphas, j),
    ensures
        codewords[i as int] == dft(folded_coeffs(coeffs, alphas, i), domain_at(domain, i)),
        folded_coeffs(coeffs, alphas, i).len() == pow2((k - i) as nat),
    decreases i,
{
    if i > 0 {
        let before = (i - 1) as nat;
        lemma_codeword_is_transform(coeffs, domain, k, codewords, alphas, before);
        lemma_domain_at(domain, k, before);
        lemma_domain_at_next(domain, before);
        lemma_pow2_unfold((k - before) as nat);
        vstd::arithmetic::power2::lemma_pow2_pos((k - i) as nat);
        assert(is_fold_of(codewords, domain, alphas, before as int));
        lemma_fold_of_transform(
            folded_coeffs(coeffs, alphas, before),
            domain_at(domain, before),
            alphas[before as int],
        );
    }
}

/// Whether a coefficient vector of residues holds `value` at position `top`
/// and zeros above it.
pub open spec fn has_top(coeffs: Seq<nat>, top: nat, value: nat) -> bool {
    &&& top < coeffs.len()
    &&& coeffs[top as int] == value
    &&& forall|j: int| top < j < coeffs.len() ==> coeffs[j] == 0
    &&& forall|j: int| 0 <= j < coeffs.len() ==> coeffs[j] < modulus()
}

/// A fold keeps the leading coefficient and puts it at half its position.
pub proof fn lemma_fold_top(coeffs: Seq<nat>, alpha: nat, top: nat, value: nat)
    requires
        has_top(coeffs, top, value),
        top % 2 == 0,
        coeffs.len() % 2 == 0,
    ensures
        has_top(fold_coeffs(coeffs, alpha), top / 2, value),
        fold_coeffs(coeffs, alpha).len() == coeffs.len() / 2,
{
    lemma_modulus_bounds();
    let next = fold_coeffs(coeffs, alpha);
    lemma_identities(alpha);
    lemma_identities_reduced(value);
    lemma_identities(0);
    assert forall|j: int| 0 <= j < next.len() implies next[j] < modulus() && (j > top / 2
        ==> next[j] == 0) && (j == top / 2 ==> next[j] == value) by {
        assert(next[j] == fadd(coeffs[2 * j], fmul(alpha, coeffs[2 * j + 1])));
    }
}

/// After some folds the leading coefficient stands at its position divided
/// by the power of two.
pub proof fn lemma_folded_top(
    coeffs: Seq<nat>,
    alphas: Seq<nat>,
    k: nat,
    value: nat,
    rounds: nat,
)
    requires
        coeffs.len() == pow2(k),
        k >= 1,
        rounds + 2 <= k,
        has_top(coeffs, pow2((k - 1) as nat), value),
    ensures
        has_top(folded_coeffs(coeffs, alphas, rounds), pow2((k - 1 - rounds) as nat), value),
        folded_coeffs(coeffs, alphas, rounds).len() == pow2((k - rounds) as nat),
    decreases rounds,
{
    if rounds > 0 {
        let before = (rounds - 1) as nat;
        lemma_folded_top(coeffs, alphas, k, value, before);
        lemma_pow2_unfold((k - 1 - before) as nat);
        lemma_pow2_unfold((k - before) as nat);
        lemma_fold_top(
            folded_coeffs(coeffs, alphas, before),
            alphas[before as int],
            pow2((k - 1 - before) as nat),
            value,
        );
    }
}

/// Trimming leaves a vector with a leading coefficient other than zero up to
/// that coefficient.
pub proof fn lemma_trimmed_top(coeffs: Seq<nat>, top: nat, value: nat)
    requires
        has_top(coeffs, top, value),
        value != 0,
    ensures
        highest_nonzero(coeffs) == top,
        trimmed(coeffs).len() == top + 1,
    decreases coeffs.len(),
{
    if coeffs.len() - 1 > top {
        lemma_trimmed_top(coeffs.drop_last(), top, value);
    }
}

/// The symbol of the folded codeword lies on the line through the two symbols
/// that it was folded from, at the challenge: the points at `x` and at `-x` and
/// the point at `alpha` are colinear.
pub proof fn lemma_fold_is_colinear(x: nat, u: nat, ya: nat, yb: nat, alpha: nat)
    requires
        fmul(x, u) == 1,
    ensures
        colinear(x, ya, fneg(x), yb, alpha, fold_value(ya, yb, u, alpha)),
{
    lemma_modulus_bounds();
    lemma_two_invertible();
    let h = one_half();
    let (xi, ui, hi) = (x as int, u as int, h as int);
    let (ai, bi, ci) = (ya as int, yb as int, alpha as int);
    let k1 = 2 * hi - 1;
    let k2 = ui * xi - 1;
    lemma_unit_kernel(2, h);
    lemma_unit_kernel(x, u);
    // The difference of the abscissas is 2x, whose inverse is u / 2.
    let dx = fsub(x, fneg(x));
    let r = fmul(h, u);
    lemma_fsub_congruent(0, x, 0, xi);
    lemma_fsub_congruent(x, fneg(x), xi, 0 - xi);
    lemma_fmul_congruent(h, u, hi, ui);
    lemma_fmul_congruent(dx, r, xi - (0 - xi), hi * ui);
    assert((xi - (0 - xi)) * (hi * ui) - 1 == k1 * 1 + k2 * (2 * hi)) by (nonlinear_arith)
        requires
            k1 == 2 * hi - 1,
            k2 == ui * xi - 1,
    ;
    lemma_congruent_by_kernel((xi - (0 - xi)) * (hi * ui), 1, k1, 1, k2, 2 * hi);
    vstd::arithmetic::div_mod::lemma_small_mod(1, modulus());
    lemma_congruent_reduced(fmul(dx, r), 1);
    lemma_finv_is(dx, r);
    assert(dx != 0) by {
        if dx == 0 {
            lemma_identities(r);
        }
    }
    // The line through the two points, at alpha.
    let slope = fmul(fsub(ya, yb), finv(dx));
    let intercept = fsub(ya, fmul(slope, x));
    let line = fadd(fmul(slope, alpha), intercept);
    let d = ai - bi;
    let m = d * (hi * ui);
    lemma_fsub_congruent(ya, yb, ai, bi);
    lemma_fmul_congruent(fsub(ya, yb), r, d, hi * ui);
    lemma_fmul_congruent(slope, x, m, xi);
    lemma_fsub_congruent(ya, fmul(slope, x), ai, m * xi);
    lemma_fmul_congruent(slope, alpha, m, ci);
    lemma_fadd_congruent(fmul(slope, alpha), intercept, m * ci, ai - m * xi);
    // The folded symbol.
    let t = fmul(alpha, u);
    let cu = ci * ui;
    lemma_fmul_congruent(alpha, u, ci, ui);
    lemma_fadd_congruent(1, t, 1, cu);
    lemma_fsub_congruent(1, t, 1, cu);
    lemma_fmul_congruent(fadd(1, t), ya, 1 + cu, ai);
    lemma_fmul_congruent(fsub(1, t), yb, 1 - cu, bi);
    lemma_fadd_congruent(fmul(fadd(1, t), ya), fmul(fsub(1, t), yb), (1 + cu) * ai, (1 - cu) * bi);
    let inner = (1 + cu) * ai + (1 - cu) * bi;
    lemma_fmul_congruent(h, fadd(fmul(fadd(1, t), ya), fmul(fsub(1, t), yb)), hi, inner);
    // Both are the same residue.
    let dh = d * hi;
    assert(inner == ai + bi + cu * d) by (nonlinear_arith)
        requires
            inner == (1 + cu) * ai + (1 - cu) * bi,
            d == ai - bi,
    ;
    assert(hi * inner == hi * ai + hi * bi + dh * cu) by (nonlinear_arith)
        requires
            inner == ai + bi + cu * d,
            dh == d * hi,
    ;
    assert(m * ci == dh * cu) by (nonlinear_arith)
        requires
            m == d * (hi * ui),
            dh == d * hi,
            cu == ci * ui,
    ;
    assert(m * xi == dh * k2 + dh) by (nonlinear_arith)
        requires
            m == d * (hi * ui),
            dh == d * hi,
            k2 == ui * xi - 1,
    ;
    assert(dh == hi * ai - hi * bi) by (nonlinear_arith)
        requires
            dh == d * hi,
            d == ai - bi,
    ;
    assert(m * ci + (ai - m * xi) - hi * inner == k1 * (0 - ai) + k2 * (0 - dh))
        by (nonlinear_arith)
        requires
            m * ci == dh * cu,
            m * xi == dh * k2 + dh,
            hi * inner == hi * ai + hi * bi + dh * cu,
            dh == hi * ai - hi * bi,
            k1 == 2 * hi - 1,
    ;
    lemma_congruent_by_kernel(m * ci + (ai - m * xi), hi * inner, k1, 0 - ai, k2, 0 - dh);
    lemma_congruent_reduced(line, fold_value(ya, yb, u, alpha));
}

/// The colinearity check is the fold equation: at a point `x` with inverse
/// `u`, a symbol passes the check with the two symbols at `x` and at `-x` if
/// and only if it is their fold under the challenge.
pub proof fn lemma_colinear_is_fold(x: nat, u: nat, ya: nat, yb: nat, alpha: nat, yc: nat)
    requires
        fmul(x, u) == 1,
    ensures
        colinear(x, ya, fneg(x), yb, alpha, yc) <==> yc == fold_value(ya, yb, u, alpha),
{
    lemma_fold_is_colinear(x, u, ya, yb, alpha);
}

/// Whether a polynomial is of exactly the degree that a domain of `size`
/// points is made for: it has one coefficient more than half the size, all
/// residues, and the leading one is not zero.
pub open spec fn of_full_degree(coeffs: Seq<nat>, size: nat) -> bool {
    &&& coeffs.len() == size / 2 + 1
    &&& coeffs.last() != 0
    &&& forall|i: int| 0 <= i < coeffs.len() ==> coeffs[i] < modulus()
}

/// Whether a domain size is one that the protocol runs on: a power of two
/// between 16 and `2^32`.
pub open spec fn is_protocol_size(size: nat) -> bool {
    is_pow2(size) && 16 <= size <= 0x1_0000_0000
}

/// The logarithm of a protocol size lies between 4 and 32.
pub proof fn lemma_protocol_size(size: nat)
    requires
        is_protocol_size(size),
    ensures
        4 <= log2(size) <= 32,
        size == pow2(log2(size)),
        num_rounds(size) + 3 == log2(size),
        is_subgroup_domain(domain_of(size)),
        domain_of(size).len() == size,
{
    lemma_pow2_log2(size);
    lemma2_to64();
    let k = log2(size);
    if k > 32 {
        vstd::arithmetic::power2::lemma_pow2_strictly_increases(32, k);
    }
    if k < 4 {
        vstd::arithmetic::power2::lemma_pow2_strictly_increases(k, 4);
    }
    lemma_domain_of_is_subgroup(size);
}

/// What holds of the codewords of an honest proof: there is one more than
/// there are rounds, each half as long as the one before; a replay of their
/// roots leaves the transcript where the commit phase left it and yields
/// challenges under which each is the fold of the one before; and the last
/// one is of the expected degree.
pub proof fn lemma_honest_codewords(size: nat, coeffs: Seq<nat>, log: Seq<TranscriptOp>)
    requires
        is_protocol_size(size),
        of_full_degree(coeffs, size),
    ensures
        ({
            let codewords = proof_codewords(size, coeffs, log);
            let roots = committed_roots(codewords);
            let alphas = replay_challenges(log, roots);
            let rounds = num_rounds(size);
            &&& codewords.len() == rounds + 1
            &&& roots.len() == rounds
            &&& alphas.len() == rounds
            &&& replay_log(log, roots) == proof_commit_log(size, coeffs, log)
            &&& forall|i: int| 0 <= i < rounds ==> #[trigger] is_fold_of(
                codewords,
                domain_of(size),
                alphas,
                i,
            )
            &&& forall|i: int|
                0 <= i <= rounds ==> (#[trigger] codewords[i]).len() == pow2(
                    (log2(size) - i) as nat,
                )
            &&& degree_ok(size, codewords[rounds as int])
        }),
{
    lemma_modulus_bounds();
    lemma_protocol_size(size);
    lemma2_to64();
    let k = log2(size);
    let rounds = num_rounds(size);
    let domain = domain_of(size);
    let wide = padded(coeffs, size);
    let first = dft(wide, domain);
    let codewords = proof_codewords(size, coeffs, log);
    let roots = committed_roots(codewords);
    let alphas = replay_challenges(log, roots);
    lemma_commit_structure(first, domain, log, rounds);
    assert forall|i: int| 0 <= i <= rounds implies (#[trigger] codewords[i]).len() == pow2(
        (k - i) as nat,
    ) by {
        lemma_codeword_is_transform(wide, domain, k, codewords, alphas, i as nat);
        lemma_domain_at(domain, k, i as nat);
    }
    // The last codeword is the transform of a polynomial of degree four.
    lemma_pow2_unfold(k);
    let top = pow2((k - 1) as nat);
    let value = coeffs.last();
    assert(has_top(wide, top, value));
    lemma_folded_top(wide, alphas, k, value, rounds);
    let last = folded_coeffs(wide, alphas, rounds);
    let last_domain = domain_at(domain, rounds);
    lemma_codeword_is_transform(wide, domain, k, codewords, alphas, rounds);
    lemma_domain_at(domain, k, rounds);
    lemma_inverse_transform(last, last_domain);
    lemma_trimmed_top(last, 4, value);
}

/// The shape of a proof: it holds a last codeword of eight symbols and, for
/// every round but the last, a layer of as many openings as there are
/// colinearity checks.
pub proof fn lemma_proof_shape(size: nat, coeffs: Seq<nat>, log: Seq<TranscriptOp>)
    requires
        is_protocol_size(size),
        coeffs.len() <= size,
        proof_of(size, coeffs, log) is Some,
    ensures
        ({
            let proof = proof_of(size, coeffs, log)->0;
            &&& proof.reduced_codeword.len() == 8
            &&& proof.queries.len() == num_rounds(size) - 1
            &&& forall|i: int|
                0 <= i < proof.queries.len() ==> (#[trigger] proof.queries[i]).len()
                    == NUM_COLINEARITY_CHECKS
        }),
{
    lemma_protocol_size(size);
    lemma2_to64();
    let k = log2(size);
    let rounds = num_rounds(size);
    let domain = domain_of(size);
    let wide = padded(coeffs, size);
    let codewords = proof_codewords(size, coeffs, log);
    let alphas = replay_challenges(log, committed_roots(codewords));
    lemma_commit_structure(dft(wide, domain), domain, log, rounds);
    lemma_codeword_is_transform(wide, domain, k, codewords, alphas, rounds);
    lemma_domain_at(domain, k, rounds);
    lemma_sample_length(
        proof_commit_log(size, coeffs, log),
        0,
        Seq::empty(),
        NUM_COLINEARITY_CHECKS as nat,
        size,
        size / pow2((rounds - 1) as nat),
    );
}

/// The openings that an honest prover makes for a query on a layer are
/// accepted.
pub proof fn lemma_honest_query(
    size: nat,
    coeffs: Seq<nat>,
    log: Seq<TranscriptOp>,
    layer: int,
    index: nat,
)
    requires
        is_protocol_size(size),
        of_full_degree(coeffs, size),
        0 <= layer,
        layer + 1 < num_rounds(size),
    ensures
        ({
            let codewords = proof_codewords(size, coeffs, log);
            let roots = committed_roots(codewords);
            let alphas = replay_challenges(log, roots);
            query_ok(
                size,
                layer,
                index,
                query_openings(codewords, layer, index),
                roots[layer],
                roots[layer + 1],
                alphas[layer],
            )
        }),
{
    lemma_modulus_bounds();
    lemma_protocol_size(size);
    lemma_honest_codewords(size, coeffs, log);
    lemma2_to64();
    let k = log2(size);
    let domain = domain_of(size);
    let codewords = proof_codewords(size, coeffs, log);
    let roots = committed_roots(codewords);
    let alphas = replay_challenges(log, roots);
    let here = codewords[layer];
    let next = codewords[layer + 1];
    let stride = pow2(layer as nat);
    let n = pow2((k - layer) as nat);
    let half = pow2((k - layer - 1) as nat);
    assert(here.len() == n);
    assert(next.len() == half);
    lemma_pow2_unfold((k - layer) as nat);
    vstd::arithmetic::power2::lemma_pow2_pos((k - layer - 1) as nat);
    vstd::arithmetic::power2::lemma_pow2_pos(layer as nat);
    vstd::arithmetic::power2::lemma_pow2_subtracts(layer as nat, k);
    assert(size / stride / 2 == half);
    let a = index % half;
    let b = a + half;
    let opening = query_openings(codewords, layer, index);
    // The paths are as long as the layers are deep, and lead to the roots.
    lemma_is_pow2_pow2((k - layer) as nat);
    lemma_is_pow2_pow2((k - layer - 1) as nat);
    lemma_path_length(here, a);
    lemma_path_length(here, b);
    lemma_path_length(next, a);
    lemma_opening_leads_to_root(here, a);
    lemma_opening_leads_to_root(here, b);
    lemma_opening_leads_to_root(next, a);
    // The three points are colinear.
    let reduced = domain_at(domain, layer as nat);
    lemma_domain_at(domain, k, layer as nat);
    lemma_domain_second_half(reduced, a as int);
    lemma_inverse_position(reduced, a as int);
    let x = reduced[a as int];
    let u = reduced[inverse_position(reduced.len(), a as int)];
    assert(is_fold_of(codewords, domain, alphas, layer));
    assert(next[a as int] == fold_value(here[a as int], here[b as int], u, alphas[layer]));
    lemma_fold_is_colinear(x, u, here[a as int], here[b as int], alphas[layer]);
    assert(reduced[a as int] == domain[(a * stride) as int]);
    assert(reduced[b as int] == domain[(b * stride) as int]);
}

/// The protocol is complete: the proof that the prover makes of a polynomial
/// of exactly the degree that the domain is made for is accepted by a verifier
/// whose transcript stands where the prover's stood, for the commitment that
/// the first opening of the point C names. On the smallest domain, where a
/// proof holds no openings, it is accepted for every commitment.
pub proof fn lemma_completeness(size: nat, coeffs: Seq<nat>, log: Seq<TranscriptOp>, com: nat)
    requires
        is_protocol_size(size),
        of_full_degree(coeffs, size),
        proof_of(size, coeffs, log) is Some,
        num_rounds(size) >= 2 ==> com == proof_of(size, coeffs, log)->0.queries[0][0].2.root,
    ensures
        accepts(size, proof_of(size, coeffs, log)->0, com, log),
{
    lemma_protocol_size(size);
    lemma_honest_codewords(size, coeffs, log);
    lemma2_to64();
    let k = log2(size);
    let rounds = num_rounds(size);
    let codewords = proof_codewords(size, coeffs, log);
    let roots = committed_roots(codewords);
    let alphas = replay_challenges(log, roots);
    let indices = proof_indices(size, coeffs, log)->0;
    let proof = proof_of(size, coeffs, log)->0;
    lemma_sample_length(
        proof_commit_log(size, coeffs, log),
        0,
        Seq::empty(),
        NUM_COLINEARITY_CHECKS as nat,
        size,
        size / pow2((rounds - 1) as nat),
    );
    assert(indices.len() == NUM_COLINEARITY_CHECKS);
    assert(proof.reduced_codeword == codewords[rounds as int]);
    assert(proof.queries == query_layers(codewords, indices));
    vstd::arithmetic::power2::lemma_pow2_subtracts(rounds, k);
    if rounds >= 2 {
        assert(layer_roots(proof.queries) =~= roots);
        assert forall|i: int, q: int|
            0 <= i < proof.queries.len() && 0 <= q < NUM_COLINEARITY_CHECKS implies
            #[trigger] query_at(size, proof, roots, alphas, indices, i, q) by {
            lemma_honest_query(size, coeffs, log, i, indices[q] as nat);
        }
        assert(verifier_indices(size, proof, log) == proof_indices(size, coeffs, log));
    }
}

/// What acceptance guarantees of the openings: in an accepted proof, on every
/// layer and for every query, the leaf opened as C is the fold, under the
/// layer's challenge, of the leaves opened as A and B.
pub proof fn lemma_accepted_openings_fold(
    size: nat,
    proof: FriProofView,
    com: nat,
    log: Seq<TranscriptOp>,
    layer: int,
    q: int,
)
    requires
        is_protocol_size(size),
        accepts(size, proof, com, log),
        0 <= layer < proof.queries.len(),
        0 <= q < NUM_COLINEARITY_CHECKS,
    ensures
        ({
            let alphas = replay_challenges(log, layer_roots(proof.queries));
            let indices = verifier_indices(size, proof, log)->0;
            let domain = domain_at(domain_of(size), layer as nat);
            let a = indices[q] as nat % (domain.len() / 2);
            let opening = proof.queries[layer][q];
            opening.2.leaf == fold_value(
                opening.0.leaf,
                opening.1.leaf,
                domain[inverse_position(domain.len(), a as int)],
                alphas[layer],
            )
        }),
{
    lemma_protocol_size(size);
    lemma2_to64();
    let k = log2(size);
    let roots = layer_roots(proof.queries);
    let alphas = replay_challenges(log, roots);
    let indices = verifier_indices(size, proof, log)->0;
    assert(query_at(size, proof, roots, alphas, indices, layer, q));
    let first = domain_of(size);
    let domain = domain_at(first, layer as nat);
    lemma_domain_at(first, k, layer as nat);
    let stride = pow2(layer as nat);
    lemma_pow2_unfold((k - layer) as nat);
    vstd::arithmetic::power2::lemma_pow2_pos((k - layer - 1) as nat);
    vstd::arithmetic::power2::lemma_pow2_pos(layer as nat);
    vstd::arithmetic::power2::lemma_pow2_subtracts(layer as nat, k);
    let half = domain.len() / 2;
    assert(size / stride / 2 == half);
    let a = indices[q] as nat % half;
    let b = a + half;
    lemma_domain_second_half(domain, a as int);
    lemma_inverse_position(domain, a as int);
    assert(domain[a as int] == first[(a * stride) as int]);
    assert(domain[b as int] == first[(b * stride) as int]);
    let opening = proof.queries[layer][q];
    lemma_colinear_is_fold(
        domain[a as int],
        domain[inverse_position(domain.len(), a as int)],
        opening.0.leaf,
        opening.1.leaf,
        alphas[layer],
        opening.2.leaf,
    );
}

} // verus!
