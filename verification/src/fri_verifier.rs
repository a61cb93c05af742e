//! The FRI verifier: it replays the transcript from the roots that the proof
//! names, tests the degree of the last codeword, and checks every opening and
//! the colinearity of every triple of points.
use crate::{FriProof, FriProofView};
use crate::domain::{
    domain_at, domain_of, evaluation_domain, lemma_domain_of_is_subgroup, num_rounds,
    EXPANSION_FACTOR, MAX_SUPPORTED_DEGREE, NUM_COLINEARITY_CHECKS, TERMINAL_SLACK,
};
use crate::fft::{inverse_dft, is_subgroup_domain, lemma_squared_half_is_domain, square_domain};
use crate::field::{fadd, finv, fmul, fsub, values, FieldElement};
use crate::field_lemmas::lemma_finv_is;
use crate::fri_prover::round_challenge;
use crate::numeric::{is_pow2, lemma_pow2_log2, log2, log2_floor};
use crate::transcript::{
    append_field, challenge_wide, log_after_round, protocol_label, protocol_transcript,
    transcript_log, TranscriptOp,
};
use crate::tree::{MerkleProof, MerkleProofView};
use crate::unipoly::{trimmed, UniPoly};
use crate::utils::{sample_indices, sampled_indices};
use merlin::Transcript;
use vstd::arithmetic::power2::{lemma2_to64, lemma_pow2_adds, lemma_pow2_unfold, pow2};
use vstd::prelude::*;
use vstd::slice::slice_to_vec;

verus! {

/// Whether three points lie on one line: the line through the first two, whose
/// abscissas must differ, passes through the third.
pub open spec fn colinear(ax: nat, ay: nat, bx: nat, by: nat, cx: nat, cy: nat) -> bool {
    let dx = fsub(ax, bx);
    &&& dx != 0
    &&& {
        let slope = fmul(fsub(ay, by), finv(dx));
        let intercept = fsub(ay, fmul(slope, ax));
        cy == fadd(fmul(slope, cx), intercept)
    }
}

/// The degree that the polynomial of the last codeword must have.
pub open spec fn expected_degree(len: nat) -> nat {
    if len == 1 {
        0
    } else {
        len / (EXPANSION_FACTOR as nat)
    }
}

/// Whether the last codeword interpolates, on the last domain, to a
/// polynomial of exactly the expected degree.
pub open spec fn degree_ok(size: nat, reduced: Seq<nat>) -> bool {
    let domain = domain_at(domain_of(size), num_rounds(size));
    trimmed(inverse_dft(reduced, domain)).len() - 1 == expected_degree(reduced.len())
}

/// The roots that a proof names: for every layer the root of its first
/// opening of A, and last the root of the last layer's first opening of C.
pub open spec fn layer_roots(
    queries: Seq<Seq<(MerkleProofView, MerkleProofView, MerkleProofView)>>,
) -> Seq<nat> {
    Seq::new(
        queries.len() + 1,
        |i: int|
            if i < queries.len() {
                queries[i][0].0.root
            } else {
                queries[i - 1][0].2.root
            },
    )
}

/// The folding challenges that the transcript yields for the given roots.
pub open spec fn replay_challenges(log: Seq<TranscriptOp>, roots: Seq<nat>) -> Seq<nat>
    decreases roots.len(),
{
    if roots.len() == 0 {
        Seq::empty()
    } else {
        seq![round_challenge(log, roots[0])] + replay_challenges(
            log_after_round(log, roots[0]),
            roots.drop_first(),
        )
    }
}

/// The history of the transcript after the given roots were replayed.
pub open spec fn replay_log(log: Seq<TranscriptOp>, roots: Seq<nat>) -> Seq<TranscriptOp>
    decreases roots.len(),
{
    if roots.len() == 0 {
        log
    } else {
        replay_log(log_after_round(log, roots[0]), roots.drop_first())
    }
}

/// Whether the openings of one query on one layer are accepted.
///
/// The index is reduced to the first half of the layer. The openings must
/// stand at the reduced index, half a layer further, and at the reduced index
/// of the next layer; carry paths of the layers' depths; be valid; name the
/// roots of the layer and of the next; and their leaves must lie on one line
/// at the two points of the layer's domain and at the challenge.
pub open spec fn query_ok(
    size: nat,
    layer: int,
    index: nat,
    opening: (MerkleProofView, MerkleProofView, MerkleProofView),
    root: nat,
    next_root: nat,
    alpha: nat,
) -> bool {
    let stride = pow2(layer as nat);
    let half = size / stride / 2;
    let a = index % half;
    let b = a + half;
    let depth = log2(size) - layer;
    let domain = domain_of(size);
    &&& opening.0.index == a
    &&& opening.1.index == b
    &&& opening.2.index == a
    &&& opening.0.siblings.len() == depth
    &&& opening.1.siblings.len() == depth
    &&& opening.2.siblings.len() == depth - 1
    &&& opening.0.valid()
    &&& opening.1.valid()
    &&& opening.2.valid()
    &&& opening.0.root == root
    &&& opening.1.root == root
    &&& opening.2.root == next_root
    &&& colinear(
        domain[(a * stride) as int],
        opening.0.leaf,
        domain[(b * stride) as int],
        opening.1.leaf,
        alpha,
        opening.2.leaf,
    )
}

/// Whether query `q` on layer `i` of a proof is accepted, for the given
/// roots, challenges and indices.
pub open spec fn query_at(
    size: nat,
    proof: FriProofView,
    roots: Seq<nat>,
    alphas: Seq<nat>,
    indices: Seq<usize>,
    i: int,
    q: int,
) -> bool {
    query_ok(size, i, indices[q] as nat, proof.queries[i][q], roots[i], roots[i + 1], alphas[i])
}

/// Whether every query on every layer of a proof is accepted, for the given
/// roots, challenges and indices.
pub open spec fn all_queries_ok(
    size: nat,
    proof: FriProofView,
    roots: Seq<nat>,
    alphas: Seq<nat>,
    indices: Seq<usize>,
) -> bool {
    forall|i: int, q: int|
        0 <= i < proof.queries.len() && 0 <= q < NUM_COLINEARITY_CHECKS ==> #[trigger] query_at(
            size,
            proof,
            roots,
            alphas,
            indices,
            i,
            q,
        )
}

/// The indices at which a verifier queries a proof: those that the transcript
/// yields after the replay of the roots.
pub open spec fn verifier_indices(size: nat, proof: FriProofView, log: Seq<TranscriptOp>) -> Option<
    Seq<usize>,
> {
    sampled_indices(
        replay_log(log, layer_roots(proof.queries)),
        NUM_COLINEARITY_CHECKS as nat,
        size,
        size / pow2((num_rounds(size) - 1) as nat),
    )
}

/// Whether the openings of a proof are accepted: the indices can be sampled
/// after the replay of the roots, the first opening of C names the
/// commitment, and every query on every layer is accepted.
pub open spec fn queries_ok(
    size: nat,
    proof: FriProofView,
    com: nat,
    log: Seq<TranscriptOp>,
) -> bool {
    let roots = layer_roots(proof.queries);
    let sampled = verifier_indices(size, proof, log);
    &&& sampled is Some
    &&& proof.queries[0][0].2.root == com
    &&& all_queries_ok(size, proof, roots, replay_challenges(log, roots), sampled->0)
}

/// Whether a proof is accepted on a domain of `size` points, for a
/// commitment, by a transcript with the given history.
pub open spec fn accepts(size: nat, proof: FriProofView, com: nat, log: Seq<TranscriptOp>) -> bool {
    let rounds = num_rounds(size);
    &&& log2(size) >= 4
    &&& proof.queries.len() == rounds - 1
    &&& proof.reduced_codeword.len() == size / pow2(rounds)
    &&& forall|i: int|
        0 <= i < proof.queries.len() ==> (#[trigger] proof.queries[i]).len()
            == NUM_COLINEARITY_CHECKS
    &&& degree_ok(size, proof.reduced_codeword)
    &&& (rounds >= 2 ==> queries_ok(size, proof, com, log))
}

/// Whether three points lie on one line.
pub fn check_colinear(
    ax: &FieldElement,
    ay: &FieldElement,
    bx: &FieldElement,
    by: &FieldElement,
    cx: &FieldElement,
    cy: &FieldElement,
) -> (r: bool)
    ensures
        r == colinear(ax@, ay@, bx@, by@, cx@, cy@),
{
    let dx = ax.sub(bx);
    match dx.invert() {
        Some(dx_inv) => {
            proof {
                lemma_finv_is(dx@, dx_inv@);
            }
            let coeff = ay.sub(by).mul(&dx_inv);
            let intercept = ay.sub(&coeff.mul(ax));
            *cy == coeff.mul(cx).add(&intercept)
        },
        None => false,
    }
}

/// The verifier, for one evaluation domain.
pub struct FriVerifier {
    domain: Vec<FieldElement>,
    expansion_factor: usize,
    num_colinearity_checks: usize,
}

impl FriVerifier {
    /// A verifier holds the domain of its size, which is a power of two
    /// between 2 and `2^32`.
    #[verifier::type_invariant]
    pub closed spec fn well_formed(self) -> bool {
        &&& is_pow2(self.domain@.len())
        &&& 2 <= self.domain@.len() <= 0x1_0000_0000
        &&& values(self.domain@) == domain_of(self.domain@.len())
        &&& self.expansion_factor == EXPANSION_FACTOR
        &&& self.num_colinearity_checks == NUM_COLINEARITY_CHECKS
    }

    /// The number of points of the domain.
    pub closed spec fn size(&self) -> nat {
        self.domain@.len()
    }

    /// The evaluation domain: the subgroup of as many points as the verifier
    /// was made for, in ascending powers of its generator.
    pub fn domain(&self) -> (domain: &Vec<FieldElement>)
        ensures
            domain@.len() == self.size(),
            values(domain@) == domain_of(self.size()),
            is_subgroup_domain(values(domain@)),
    {
        proof {
            use_type_invariant(self);
            lemma_domain_of_is_subgroup(self.size());
        }
        &self.domain
    }

    /// The verifier for polynomials of degree up to `max_degree`, a power of
    /// two.
    pub fn new(max_degree: usize) -> (verifier: FriVerifier)
        requires
            is_pow2(max_degree as nat),
            max_degree <= MAX_SUPPORTED_DEGREE,
            2 * max_degree <= usize::MAX,
        ensures
            verifier.size() == 2 * max_degree,
    {
        let domain = evaluation_domain(max_degree);
        FriVerifier {
            domain,
            expansion_factor: EXPANSION_FACTOR,
            num_colinearity_checks: NUM_COLINEARITY_CHECKS,
        }
    }

    /// The domain after every round of folding.
    fn reduced_domain(&self, rounds: usize) -> (reduced: Vec<FieldElement>)
        requires
            rounds + 3 == log2(self.size()),
        ensures
            values(reduced@) == domain_at(domain_of(self.size()), rounds as nat),
            is_subgroup_domain(values(reduced@)),
            reduced@.len() == 8,
            self.size() / pow2(rounds as nat) == 8,
    {
        proof {
            use_type_invariant(self);
            lemma_pow2_log2(self.size());
            lemma_domain_of_is_subgroup(self.size());
        }
        let ghost k = log2(self.size());
        let mut reduced = slice_to_vec(self.domain.as_slice());
        let mut i: usize = 0;
        while i < rounds
            invariant
                i <= rounds,
                rounds + 3 == k,
                is_subgroup_domain(values(reduced@)),
                reduced@.len() == pow2((k - i) as nat),
                domain_at(domain_of(self.size()), rounds as nat) == domain_at(
                    values(reduced@),
                    (rounds - i) as nat,
                ),
            decreases rounds - i,
        {
            proof {
                lemma_pow2_unfold((k - i) as nat);
                vstd::arithmetic::power2::lemma_pow2_pos((k - i - 1) as nat);
                lemma_squared_half_is_domain(values(reduced@));
            }
            reduced = square_domain(reduced.as_slice());
            i += 1;
        }
        proof {
            lemma2_to64();
            vstd::arithmetic::power2::lemma_pow2_subtracts(rounds as nat, k);
        }
        reduced
    }

    /// Whether the last codeword is of the expected degree.
    fn check_degree(&self, rounds: usize, final_codeword: &Vec<FieldElement>) -> (r: bool)
        requires
            rounds + 3 == log2(self.size()),
            final_codeword@.len() == 8,
        ensures
            r == degree_ok(self.size(), values(final_codeword@)),
    {
        let domain_reduced = self.reduced_domain(rounds);
        let evals = slice_to_vec(final_codeword.as_slice());
        let interpolant = UniPoly::interpolate(domain_reduced, evals);
        let degree = if final_codeword.len() == 1 {
            0
        } else {
            final_codeword.len() / self.expansion_factor_value()
        };
        interpolant.degree() == degree
    }

    fn expansion_factor_value(&self) -> (r: usize)
        ensures
            r == EXPANSION_FACTOR,
    {
        proof {
            use_type_invariant(self);
        }
        self.expansion_factor
    }

    /// The roots that the proof names, one for each round.
    fn collect_roots(proof: &FriProof) -> (roots: Vec<FieldElement>)
        requires
            proof.queries@.len() >= 1,
            forall|i: int|
                0 <= i < proof.queries@.len() ==> (#[trigger] proof.queries@[i]).openings@.len()
                    >= 1,
        ensures
            roots@.len() == proof.queries@.len() + 1,
            values(roots@) == layer_roots(proof@.queries),
    {
        let mut roots: Vec<FieldElement> = Vec::new();
        let layers = proof.queries.len();
        let mut i: usize = 0;
        while i < layers
            invariant
                i <= layers,
                layers == proof.queries@.len(),
                layers >= 1,
                forall|i: int|
                    0 <= i < proof.queries@.len() ==> (
                    #[trigger] proof.queries@[i]).openings@.len() >= 1,
                roots@.len() == i,
                forall|j: int|
                    0 <= j < i ==> (#[trigger] roots@[j])@ == layer_roots(proof@.queries)[j],
            decreases layers - i,
        {
            assert(proof.queries@[i as int].openings@.len() >= 1);
            let root = proof.queries[i].openings[0].0.root;
            assert(root@ == proof@.queries[i as int][0].0.root);
            roots.push(root);
            i += 1;
        }
        assert(proof.queries@[layers - 1].openings@.len() >= 1);
        let last = proof.queries[layers - 1].openings[0].2.root;
        assert(last@ == proof@.queries[layers - 1][0].2.root);
        roots.push(last);
        assert(values(roots@) =~= layer_roots(proof@.queries));
        roots
    }

    /// Replays the commit phase: absorbs every root and squeezes the folding
    /// challenge that follows it.
    fn replay(roots: &Vec<FieldElement>, transcript: &mut Transcript) -> (alphas: Vec<FieldElement>)
        ensures
            alphas@.len() == roots@.len(),
            values(alphas@) == replay_challenges(
                transcript_log(*old(transcript)),
                values(roots@),
            ),
            transcript_log(*final(transcript)) == replay_log(
                transcript_log(*old(transcript)),
                values(roots@),
            ),
    {
        let ghost start = transcript_log(*transcript);
        let ghost r = values(roots@);
        let ghost all = replay_challenges(start, r);
        let ghost end = replay_log(start, r);
        let mut alphas: Vec<FieldElement> = Vec::new();
        let mut i: usize = 0;
        proof {
            assert(r.skip(0) =~= r);
            assert(values(alphas@) =~= Seq::<nat>::empty());
            assert(Seq::<nat>::empty() + all =~= all);
        }
        while i < roots.len()
            invariant
                i <= roots@.len(),
                r == values(roots@),
                start == transcript_log(*old(transcript)),
                all == replay_challenges(start, r),
                end == replay_log(start, r),
                alphas@.len() == i,
                all == values(alphas@) + replay_challenges(
                    transcript_log(*transcript),
                    r.skip(i as int),
                ),
                end == replay_log(transcript_log(*transcript), r.skip(i as int)),
            decreases roots@.len() - i,
        {
            let ghost log = transcript_log(*transcript);
            let ghost before = values(alphas@);
            let root = roots[i];
            append_field(transcript, "root", &root);
            let alpha_bytes = challenge_wide(transcript, "alpha");
            let alpha = FieldElement::from_bytes_wide(&alpha_bytes);
            proof {
                let rest = r.skip(i as int);
                assert(rest[0] == root@);
                assert(rest.drop_first() =~= r.skip(i as int + 1));
                assert(alpha@ == round_challenge(log, root@));
                assert(transcript_log(*transcript) == log_after_round(log, root@));
                let tail = replay_challenges(transcript_log(*transcript), r.skip(i as int + 1));
                assert(replay_challenges(log, rest) == seq![alpha@] + tail);
                assert(values(alphas@.push(alpha)) =~= before.push(alpha@));
                assert(before + (seq![alpha@] + tail) =~= before.push(alpha@) + tail);
            }
            alphas.push(alpha);
            i += 1;
        }
        proof {
            assert(r.skip(roots@.len() as int) =~= Seq::<nat>::empty());
            assert(values(alphas@) + Seq::<nat>::empty() =~= values(alphas@));
        }
        alphas
    }

    /// Whether the openings of one query on one layer are accepted.
    fn check_query(
        &self,
        layer: usize,
        stride: usize,
        index: usize,
        opening: &(MerkleProof, MerkleProof, MerkleProof),
        root: &FieldElement,
        next_root: &FieldElement,
        alpha: &FieldElement,
    ) -> (r: bool)
        requires
            layer + 4 <= log2(self.size()),
            stride == pow2(layer as nat),
        ensures
            r == query_ok(
                self.size(),
                layer as int,
                index as nat,
                (opening.0@, opening.1@, opening.2@),
                root@,
                next_root@,
                alpha@,
            ),
    {
        proof {
            use_type_invariant(self);
            lemma_pow2_log2(self.size());
            lemma2_to64();
        }
        let size = self.domain.len();
        let ghost k = log2(size as nat);
        proof {
            vstd::arithmetic::power2::lemma_pow2_subtracts(layer as nat, k);
            lemma_pow2_unfold((k - layer) as nat);
            lemma_pow2_adds(layer as nat, (k - layer) as nat);
            vstd::arithmetic::power2::lemma_pow2_pos((k - layer - 1) as nat);
            vstd::arithmetic::power2::lemma_pow2_pos(layer as nat);
        }
        let depth = log2_floor(size) as usize - layer;
        let layer_size = size / stride;
        let half = layer_size / 2;
        let a_index = index % half;
        let b_index = half + a_index;
        let (a, b, c) = (&opening.0, &opening.1, &opening.2);
        if a.index != a_index || b.index != b_index || c.index != a_index {
            return false;
        }
        if a.siblings.len() != depth || b.siblings.len() != depth || c.siblings.len() != depth - 1 {
            return false;
        }
        if !a.verify() || !b.verify() || !c.verify() {
            return false;
        }
        if a.root != *root || b.root != *root || c.root != *next_root {
            return false;
        }
        proof {
            let h = half as int;
            let s = stride as int;
            assert(2 * h * s == size) by (nonlinear_arith)
                requires
                    2 * h == pow2((k - layer) as nat),
                    s == pow2(layer as nat),
                    size == pow2(layer as nat) * pow2((k - layer) as nat),
            ;
            assert(0 <= (a_index as int) * s < size) by (nonlinear_arith)
                requires
                    0 <= a_index < h,
                    2 * h * s == size,
                    s > 0,
            ;
            assert(0 <= (b_index as int) * s < size) by (nonlinear_arith)
                requires
                    0 <= b_index < 2 * h,
                    2 * h * s == size,
                    s > 0,
            ;
        }
        let a_x = self.domain[a_index * stride];
        let b_x = self.domain[b_index * stride];
        proof {
            assert(a_x@ == values(self.domain@)[a_index * stride]);
            assert(b_x@ == values(self.domain@)[b_index * stride]);
        }
        check_colinear(&a_x, &a.leaf, &b_x, &b.leaf, alpha, &c.leaf)
    }

    /// Verifies a proof for a commitment by a transcript that stands where the
    /// prover's stood when proving began.
    ///
    /// The proof is accepted if and only if it has the shape that the domain
    /// asks for, its last codeword is of the expected degree, and, after the
    /// roots that it names were replayed on the transcript, every opening at
    /// the indices that the transcript yields is accepted.
    #[verifier::loop_isolation(false)]
    pub fn verify_with_transcript(
        &self,
        proof: &FriProof,
        com: FieldElement,
        transcript: Transcript,
    ) -> (accepted: bool)
        ensures
            accepted == accepts(self.size(), proof@, com@, transcript_log(transcript)),
    {
        proof {
            use_type_invariant(self);
            lemma_pow2_log2(self.size());
            lemma2_to64();
            if log2(self.size()) > 32 {
                vstd::arithmetic::power2::lemma_pow2_strictly_increases(32, log2(self.size()));
            }
        }
        let mut transcript = transcript;
        let ghost log = transcript_log(transcript);
        let size = self.domain.len();
        let order_log = log2_floor(size);
        let ghost k = log2(size as nat);
        if order_log < TERMINAL_SLACK + 1 {
            return false;
        }
        let rounds = (order_log - TERMINAL_SLACK) as usize;
        if proof.queries.len() != rounds - 1 {
            return false;
        }
        proof {
            vstd::arithmetic::power2::lemma_pow2_subtracts(rounds as nat, k);
        }
        if proof.reduced_codeword.len() != 8 {
            return false;
        }
        let mut i: usize = 0;
        while i < proof.queries.len()
            invariant
                i <= proof.queries@.len(),
                forall|j: int|
                    0 <= j < i ==> (#[trigger] proof@.queries[j]).len() == NUM_COLINEARITY_CHECKS,
            decreases proof.queries@.len() - i,
        {
            if proof.queries[i].openings.len() != NUM_COLINEARITY_CHECKS {
                assert(proof@.queries[i as int].len() != NUM_COLINEARITY_CHECKS);
                return false;
            }
            assert(proof@.queries[i as int].len() == NUM_COLINEARITY_CHECKS);
            i += 1;
        }
        if !self.check_degree(rounds, &proof.reduced_codeword) {
            return false;
        }
        if rounds < 2 {
            return true;
        }
        proof {
            assert forall|i: int| 0 <= i < proof.queries@.len() implies (
            #[trigger] proof.queries@[i]).openings@.len() >= 1 by {
                assert(proof@.queries[i].len() == NUM_COLINEARITY_CHECKS);
            }
        }
        let roots = Self::collect_roots(proof);
        let alphas = Self::replay(&roots, &mut transcript);
        proof {
            lemma_pow2_unfold((k - (rounds - 1)) as nat);
            vstd::arithmetic::power2::lemma_pow2_subtracts((rounds - 1) as nat, k);
            lemma_pow2_unfold(4);
        }
        let sampled = sample_indices(NUM_COLINEARITY_CHECKS, size, 16, &mut transcript);
        let indices = match sampled {
            Some(indices) => indices,
            None => {
                return false;
            },
        };
        assert(proof.queries@[0].openings@.len() >= 1);
        if proof.queries[0].openings[0].2.root != com {
            assert(proof@.queries[0][0].2.root != com@);
            return false;
        }
        assert(proof@.queries[0][0].2.root == com@);
        let ghost r = values(roots@);
        let ghost al = values(alphas@);
        let mut layer: usize = 0;
        let mut stride: usize = 1;
        while layer < proof.queries.len()
            invariant
                layer <= proof.queries@.len(),
                proof.queries@.len() + 4 == k,
                k == log2(self.size()),
                k <= 32,
                stride == pow2(layer as nat),
                indices@.len() == NUM_COLINEARITY_CHECKS,
                roots@.len() == proof.queries@.len() + 1,
                alphas@.len() == roots@.len(),
                r == values(roots@),
                al == values(alphas@),
                forall|j: int|
                    0 <= j < proof.queries@.len() ==> (#[trigger] proof@.queries[j]).len()
                        == NUM_COLINEARITY_CHECKS,
                forall|i: int, q: int|
                    0 <= i < layer && 0 <= q < NUM_COLINEARITY_CHECKS ==> #[trigger] query_at(
                        self.size(),
                        proof@,
                        r,
                        al,
                        indices@,
                        i,
                        q,
                    ),
            decreases proof.queries@.len() - layer,
        {
            assert(proof@.queries[layer as int].len() == NUM_COLINEARITY_CHECKS);
            let mut q: usize = 0;
            while q < NUM_COLINEARITY_CHECKS
                invariant
                    q <= NUM_COLINEARITY_CHECKS,
                    layer < proof.queries@.len(),
                    proof.queries@.len() + 4 == k,
                    k == log2(self.size()),
                    stride == pow2(layer as nat),
                    indices@.len() == NUM_COLINEARITY_CHECKS,
                    roots@.len() == proof.queries@.len() + 1,
                    alphas@.len() == roots@.len(),
                    r == values(roots@),
                    al == values(alphas@),
                    proof.queries@[layer as int].openings@.len() == NUM_COLINEARITY_CHECKS,
                    forall|p: int|
                        0 <= p < q ==> #[trigger] query_at(
                            self.size(),
                            proof@,
                            r,
                            al,
                            indices@,
                            layer as int,
                            p,
                        ),
                decreases NUM_COLINEARITY_CHECKS - q,
            {
                let opening = &proof.queries[layer].openings[q];
                assert(proof@.queries[layer as int][q as int] == (
                    opening.0@,
                    opening.1@,
                    opening.2@,
                ));
                let ok = self.check_query(
                    layer,
                    stride,
                    indices[q],
                    opening,
                    &roots[layer],
                    &roots[layer + 1],
                    &alphas[layer],
                );
                proof {
                    assert(r[layer as int] == roots@[layer as int]@);
                    assert(r[layer as int + 1] == roots@[layer as int + 1]@);
                    assert(al[layer as int] == alphas@[layer as int]@);
                    assert(ok == query_at(
                        self.size(),
                        proof@,
                        r,
                        al,
                        indices@,
                        layer as int,
                        q as int,
                    ));
                }
                if !ok {
                    assert(!all_queries_ok(self.size(), proof@, r, al, indices@));
                    return false;
                }
                q += 1;
            }
            proof {
                lemma_pow2_unfold(layer as nat + 1);
                lemma2_to64();
                if layer + 1 < 32 {
                    vstd::arithmetic::power2::lemma_pow2_strictly_increases(layer as nat + 1, 32);
                }
            }
            stride = stride * 2;
            layer += 1;
        }
        assert(all_queries_ok(self.size(), proof@, r, al, indices@));
        true
    }

    /// Verifies a proof for a commitment, under the protocol's own context
    /// label.
    pub fn verify(&self, proof: FriProof, com: FieldElement) -> (accepted: bool)
        ensures
            accepted == accepts(
                self.size(),
                proof@,
                com@,
                seq![TranscriptOp::Init { label: protocol_label() }],
            ),
    {
        let transcript = protocol_transcript();
        self.verify_with_transcript(&proof, com, transcript)
    }
}

} // verus!
