//! The FRI prover: it folds a codeword round by round, commits to every
//! layer, and opens the layers at the indices that the transcript selects.
use crate::{FriProof, FriProofView, LayerProof};
use crate::domain::{
    domain_of, evaluation_domain, lemma_domain_of_is_subgroup, num_rounds, MAX_SUPPORTED_DEGREE,
    NUM_COLINEARITY_CHECKS, TERMINAL_SLACK,
};
use crate::fft::{dft, fft, inverse_position, is_subgroup_domain, square_domain, squared_half};
use crate::field::{
    fadd, finv, fmul, fsub, le_bytes, le_nat, lemma_modulus_bounds, modulus, values, FieldElement,
};
use crate::field_lemmas::lemma_finv_is;
use crate::numeric::{is_pow2, lemma_is_pow2_pow2, lemma_pow2_log2, log2, log2_floor};
use crate::transcript::{
    append_field, challenge_output, challenge_wide, log_after_round, log_append, transcript_log,
    TranscriptOp,
};
use crate::tree::{layer_values, merkle_root, opening_of, MerkleProof, MerkleProofView, MerkleTree};
use crate::unipoly::UniPoly;
use crate::utils::{log_after_sampling, sample_indices, sampled_indices};
use merlin::Transcript;
use vstd::arithmetic::power2::{lemma2_to64, lemma_pow2_unfold, pow2};
use vstd::prelude::*;
use vstd::slice::slice_to_vec;

verus! {

/// The field element that 64 challenge bytes denote.
pub open spec fn wide_scalar(bytes: Seq<u8>) -> nat {
    le_nat(bytes) % modulus()
}

/// The folding challenge of a round: what the transcript yields after the
/// layer's root was absorbed.
pub open spec fn round_challenge(log: Seq<TranscriptOp>, root: nat) -> nat {
    wide_scalar(challenge_output(log_append(log, "root"@, le_bytes(root, 32)), "alpha"@, 64))
}

/// One symbol of a folded codeword, from the symbols `a` at a point `w` and
/// `b` at `-w`, the inverse `w_inv` of that point and the challenge:
/// `((1 + alpha / w) * a + (1 - alpha / w) * b) / 2`.
pub open spec fn fold_value(a: nat, b: nat, w_inv: nat, alpha: nat) -> nat {
    let twist = fmul(alpha, w_inv);
    fmul(finv(2), fadd(fmul(fadd(1, twist), a), fmul(fsub(1, twist), b)))
}

/// The fold of a codeword on a domain under a challenge. It has half the
/// length.
pub open spec fn folded(codeword: Seq<nat>, domain: Seq<nat>, alpha: nat) -> Seq<nat> {
    Seq::new(
        codeword.len() / 2,
        |i: int|
            fold_value(
                codeword[i],
                codeword[i + codeword.len() / 2],
                domain[inverse_position(domain.len(), i)],
                alpha,
            ),
    )
}

/// The codewords of the commit phase: the given one and those that `rounds`
/// rounds of folding make of it.
pub open spec fn commit_codewords(
    codeword: Seq<nat>,
    domain: Seq<nat>,
    log: Seq<TranscriptOp>,
    rounds: nat,
) -> Seq<Seq<nat>>
    decreases rounds,
{
    if rounds == 0 {
        seq![codeword]
    } else {
        let root = merkle_root(codeword);
        seq![codeword] + commit_codewords(
            folded(codeword, domain, round_challenge(log, root)),
            squared_half(domain),
            log_after_round(log, root),
            (rounds - 1) as nat,
        )
    }
}

/// The history of the transcript after the commit phase.
pub open spec fn commit_log(
    codeword: Seq<nat>,
    domain: Seq<nat>,
    log: Seq<TranscriptOp>,
    rounds: nat,
) -> Seq<TranscriptOp>
    decreases rounds,
{
    if rounds == 0 {
        log
    } else {
        let root = merkle_root(codeword);
        commit_log(
            folded(codeword, domain, round_challenge(log, root)),
            squared_half(domain),
            log_after_round(log, root),
            (rounds - 1) as nat,
        )
    }
}

/// The openings of one query on one layer: the points A and B of the layer's
/// codeword, at the index reduced to the first half and half a codeword
/// further, and the point C of the next codeword at the reduced index.
pub open spec fn query_openings(codewords: Seq<Seq<nat>>, layer: int, index: nat) -> (
    MerkleProofView,
    MerkleProofView,
    MerkleProofView,
) {
    let half = codewords[layer].len() / 2;
    let a = index % half;
    (
        opening_of(codewords[layer], a),
        opening_of(codewords[layer], a + half),
        opening_of(codewords[layer + 1], a),
    )
}

/// The openings of every query on every layer but the last two codewords'.
pub open spec fn query_layers(codewords: Seq<Seq<nat>>, indices: Seq<usize>) -> Seq<
    Seq<(MerkleProofView, MerkleProofView, MerkleProofView)>,
> {
    Seq::new(
        (codewords.len() - 2) as nat,
        |i: int| Seq::new(indices.len(), |q: int| query_openings(codewords, i, indices[q] as nat)),
    )
}

/// The coefficients followed by zeros up to `size` entries.
pub open spec fn padded(coeffs: Seq<nat>, size: nat) -> Seq<nat> {
    Seq::new(size, |i: int| if i < coeffs.len() { coeffs[i] } else { 0 })
}

/// The codewords that proving a polynomial on a domain of `size` points goes
/// through.
pub open spec fn proof_codewords(size: nat, coeffs: Seq<nat>, log: Seq<TranscriptOp>) -> Seq<
    Seq<nat>,
> {
    commit_codewords(
        dft(padded(coeffs, size), domain_of(size)),
        domain_of(size),
        log,
        num_rounds(size),
    )
}

/// The history of the transcript when the indices are sampled.
pub open spec fn proof_commit_log(size: nat, coeffs: Seq<nat>, log: Seq<TranscriptOp>) -> Seq<
    TranscriptOp,
> {
    commit_log(
        dft(padded(coeffs, size), domain_of(size)),
        domain_of(size),
        log,
        num_rounds(size),
    )
}

/// The query indices of a proof, unless sampling gives out.
pub open spec fn proof_indices(size: nat, coeffs: Seq<nat>, log: Seq<TranscriptOp>) -> Option<
    Seq<usize>,
> {
    sampled_indices(
        proof_commit_log(size, coeffs, log),
        NUM_COLINEARITY_CHECKS as nat,
        size,
        size / pow2((num_rounds(size) - 1) as nat),
    )
}

/// The proof for a polynomial on a domain of `size` points, from a transcript
/// with the given history.
pub open spec fn proof_of(size: nat, coeffs: Seq<nat>, log: Seq<TranscriptOp>) -> Option<
    FriProofView,
> {
    match proof_indices(size, coeffs, log) {
        Some(indices) => {
            let codewords = proof_codewords(size, coeffs, log);
            Some(
                FriProofView {
                    reduced_codeword: codewords.last(),
                    queries: query_layers(codewords, indices),
                },
            )
        },
        None => None,
    }
}

/// The history of the transcript after proving.
pub open spec fn log_after_proof(size: nat, coeffs: Seq<nat>, log: Seq<TranscriptOp>) -> Seq<
    TranscriptOp,
> {
    log_after_sampling(
        proof_commit_log(size, coeffs, log),
        NUM_COLINEARITY_CHECKS as nat,
        size,
        size / pow2((num_rounds(size) - 1) as nat),
    )
}

/// Proving is deterministic: two proofs of one polynomial on one domain, from
/// transcripts with one history, hold the same field elements, the same
/// positions and the same paths, and so the same bytes.
pub proof fn lemma_proofs_agree(
    size: nat,
    coeffs: Seq<nat>,
    log: Seq<TranscriptOp>,
    first: FriProof,
    second: FriProof,
)
    requires
        proof_of(size, coeffs, log) == Some(first@),
        proof_of(size, coeffs, log) == Some(second@),
    ensures
        first@ == second@,
        first.reduced_codeword@ == second.reduced_codeword@,
        first.queries@.len() == second.queries@.len(),
        forall|i: int, q: int|
            0 <= i < first.queries@.len() && 0 <= q < first.queries@[i].openings@.len() ==> {
                let a = #[trigger] first.queries@[i].openings@[q];
                let b = #[trigger] second.queries@[i].openings@[q];
                &&& same_opening(a.0, b.0)
                &&& same_opening(a.1, b.1)
                &&& same_opening(a.2, b.2)
            },
{
    crate::field::lemma_values_injective(first.reduced_codeword@, second.reduced_codeword@);
    assert(first@.queries.len() == first.queries@.len());
    assert(second@.queries.len() == second.queries@.len());
    assert forall|i: int, q: int|
        0 <= i < first.queries@.len() && 0 <= q < first.queries@[i].openings@.len() implies {
        let a = #[trigger] first.queries@[i].openings@[q];
        let b = #[trigger] second.queries@[i].openings@[q];
        &&& same_opening(a.0, b.0)
        &&& same_opening(a.1, b.1)
        &&& same_opening(a.2, b.2)
    } by {
        let a = first.queries@[i].openings@[q];
        let b = second.queries@[i].openings@[q];
        assert(first@.queries[i] == first.queries@[i]@);
        assert(second@.queries[i] == second.queries@[i]@);
        assert(first.queries@[i]@.len() == first.queries@[i].openings@.len());
        assert(first.queries@[i]@[q] == (a.0@, a.1@, a.2@));
        assert(second.queries@[i]@[q] == (b.0@, b.1@, b.2@));
        lemma_same_opening(a.0, b.0);
        lemma_same_opening(a.1, b.1);
        lemma_same_opening(a.2, b.2);
    }
}

/// Whether two openings hold the same root, leaf, position and siblings.
pub open spec fn same_opening(a: MerkleProof, b: MerkleProof) -> bool {
    &&& a.root == b.root
    &&& a.leaf == b.leaf
    &&& a.index == b.index
    &&& a.siblings@ == b.siblings@
}

/// Openings with the same view hold the same field elements.
pub proof fn lemma_same_opening(a: MerkleProof, b: MerkleProof)
    requires
        a@ == b@,
    ensures
        same_opening(a, b),
{
    a.root.lemma_view_injective(b.root);
    a.leaf.lemma_view_injective(b.leaf);
    crate::field::lemma_values_injective(a.siblings@, b.siblings@);
}

/// The prover, for one evaluation domain.
pub struct FriProver {
    domain: Vec<FieldElement>,
    /// The number of colinearity checks on each layer.
    num_colinearity_checks: usize,
}

impl FriProver {
    /// A prover holds the domain of its size, which is a power of two between
    /// 2 and `2^32`.
    #[verifier::type_invariant]
    pub closed spec fn well_formed(self) -> bool {
        &&& is_pow2(self.domain@.len())
        &&& 2 <= self.domain@.len() <= 0x1_0000_0000
        &&& values(self.domain@) == domain_of(self.domain@.len())
        &&& self.num_colinearity_checks == NUM_COLINEARITY_CHECKS
    }

    /// The number of points of the domain.
    pub closed spec fn size(&self) -> nat {
        self.domain@.len()
    }

    /// The evaluation domain: the subgroup of as many points as the prover
    /// was made for, in ascending powers of its generator.
    pub fn domain(&self) -> (domain: &Vec<FieldElement>)
        ensures
            domain@.len() == self.size(),
            values(domain@) == domain_of(self.size()),
            is_subgroup_domain(values(domain@)),
    {
        proof {
            use_type_invariant(self);
            lemma_domain_of_is_subgroup(self.size());
        }
        &self.domain
    }

    /// The prover for polynomials of degree up to `max_degree`, a power of
    /// two.
    pub fn new(max_degree: usize) -> (prover: FriProver)
        requires
            is_pow2(max_degree as nat),
            max_degree <= MAX_SUPPORTED_DEGREE,
            2 * max_degree <= usize::MAX,
        ensures
            prover.size() == 2 * max_degree,
    {
        let domain = evaluation_domain(max_degree);
        FriProver { domain, num_colinearity_checks: NUM_COLINEARITY_CHECKS }
    }

    /// The number of points of the domain.
    pub fn domain_size(&self) -> (n: usize)
        ensures
            n == self.size(),
            is_pow2(n as nat),
            2 <= n <= 0x1_0000_0000,
    {
        proof {
            use_type_invariant(self);
        }
        self.domain.len()
    }

    /// The number of folding rounds.
    pub fn num_rounds(&self) -> (rounds: usize)
        requires
            self.size() >= 8,
        ensures
            rounds == num_rounds(self.size()),
    {
        proof {
            use_type_invariant(self);
            assert(log2(self.size()) >= 3) by {
                reveal_with_fuel(log2, 4);
            }
        }
        let domain_order = self.domain.len();
        (log2_floor(domain_order) - TERMINAL_SLACK) as usize
    }

    /// Folds a codeword on a domain under a challenge.
    pub fn fold(
        &self,
        codeword: &[FieldElement],
        domain: &[FieldElement],
        alpha: FieldElement,
    ) -> (r: Vec<FieldElement>)
        requires
            codeword@.len() == domain@.len(),
        ensures
            r@.len() == codeword@.len() / 2,
            values(r@) == folded(values(codeword@), values(domain@), alpha@),
    {
        proof {
            lemma_modulus_bounds();
        }
        let two = FieldElement::from_u64(2);
        let one = FieldElement::from_u64(1);
        let n = domain.len();
        let mut folded_codeword: Vec<FieldElement> = Vec::new();
        match two.invert() {
            Some(two_inv) => {
                proof {
                    lemma_finv_is(2, two_inv@);
                }
                let mut i: usize = 0;
                while i < n / 2
                    invariant
                        i <= n / 2,
                        n == domain@.len(),
                        n == codeword@.len(),
                        one@ == 1,
                        two_inv@ == finv(2),
                        folded_codeword@.len() == i,
                        forall|j: int|
                            0 <= j < i ==> (#[trigger] folded_codeword@[j])@ == folded(
                                values(codeword@),
                                values(domain@),
                                alpha@,
                            )[j],
                    decreases n / 2 - i,
                {
                    // w^-i = w^(n - i), the point at position n - i, or at 0 for i = 0
                    let omega_pow_minus_i = if i == 0 {
                        domain[0]
                    } else {
                        domain[n - i]
                    };
                    proof {
                        if i == 0 {
                            vstd::arithmetic::div_mod::lemma_mod_self_0(n as int);
                        } else {
                            vstd::arithmetic::div_mod::lemma_small_mod((n - i) as nat, n as nat);
                        }
                        assert(omega_pow_minus_i@ == values(domain@)[inverse_position(
                            n as nat,
                            i as int,
                        )]);
                    }
                    let twist = alpha.mul(&omega_pow_minus_i);
                    let f_star_eval = two_inv.mul(
                        &one.add(&twist).mul(&codeword[i]).add(
                            &one.sub(&twist).mul(&codeword[i + n / 2]),
                        ),
                    );
                    folded_codeword.push(f_star_eval);
                    i += 1;
                }
            },
            None => {
                assert(false);
            },
        }
        assert(values(folded_codeword@) =~= folded(values(codeword@), values(domain@), alpha@));
        folded_codeword
    }

    /// The commit phase: commits to the codeword, derives the challenge from
    /// the root and folds, round after round. It returns every codeword, the
    /// last of which is not committed to, and the tree of every other one.
    pub fn commit(
        &self,
        codeword: &[FieldElement],
        transcript: &mut Transcript,
    ) -> (r: (Vec<Vec<FieldElement>>, Vec<MerkleTree>))
        requires
            self.size() >= 8,
            codeword@.len() == self.size(),
        ensures
            layer_values(r.0@) == commit_codewords(
                values(codeword@),
                domain_of(self.size()),
                transcript_log(*old(transcript)),
                num_rounds(self.size()),
            ),
            transcript_log(*final(transcript)) == commit_log(
                values(codeword@),
                domain_of(self.size()),
                transcript_log(*old(transcript)),
                num_rounds(self.size()),
            ),
            r.0@.len() == num_rounds(self.size()) + 1,
            r.1@.len() == num_rounds(self.size()),
            forall|i: int|
                0 <= i < r.1@.len() ==> (#[trigger] r.1@[i]).committed() && r.1@[i].leaves()
                    == r.0@[i]@,
            forall|i: int|
                0 <= i < r.0@.len() ==> (#[trigger] r.0@[i])@.len() == pow2(
                    (log2(self.size()) - i) as nat,
                ),
    {
        proof {
            use_type_invariant(self);
            lemma_pow2_log2(self.size());
            assert(log2(self.size()) >= 3) by {
                reveal_with_fuel(log2, 4);
            }
        }
        let rounds = self.num_rounds();
        let ghost k = log2(self.size());
        let ghost start = transcript_log(*transcript);
        let ghost first = domain_of(self.size());
        let ghost all = commit_codewords(values(codeword@), first, start, rounds as nat);
        let ghost end = commit_log(values(codeword@), first, start, rounds as nat);
        let mut domain = slice_to_vec(self.domain.as_slice());
        let mut current = slice_to_vec(codeword);
        let mut codewords: Vec<Vec<FieldElement>> = Vec::new();
        let mut trees: Vec<MerkleTree> = Vec::new();
        let mut i: usize = 0;
        proof {
            assert(layer_values(codewords@) =~= Seq::<Seq<nat>>::empty());
            assert(Seq::<Seq<nat>>::empty() + all =~= all);
        }
        while i < rounds
            invariant
                i <= rounds,
                rounds + 3 == k,
                start == transcript_log(*old(transcript)),
                codewords@.len() == i,
                trees@.len() == i,
                current@.len() == pow2((k - i) as nat),
                domain@.len() == current@.len(),
                all == layer_values(codewords@) + commit_codewords(
                    values(current@),
                    values(domain@),
                    transcript_log(*transcript),
                    (rounds - i) as nat,
                ),
                end == commit_log(
                    values(current@),
                    values(domain@),
                    transcript_log(*transcript),
                    (rounds - i) as nat,
                ),
                forall|j: int|
                    0 <= j < i ==> (#[trigger] trees@[j]).committed() && trees@[j].leaves()
                        == codewords@[j]@,
                forall|j: int|
                    0 <= j < i ==> (#[trigger] codewords@[j])@.len() == pow2((k - j) as nat),
            decreases rounds - i,
        {
            let ghost log = transcript_log(*transcript);
            proof {
                lemma_is_pow2_pow2((k - i) as nat);
                lemma_pow2_unfold((k - i) as nat);
            }
            let mut tree = MerkleTree::new();
            let root = tree.commit(current.as_slice());
            append_field(transcript, "root", &root);
            trees.push(tree);
            let alpha_bytes = challenge_wide(transcript, "alpha");
            let alpha = FieldElement::from_bytes_wide(&alpha_bytes);
            let next_codeword = self.fold(current.as_slice(), domain.as_slice(), alpha);
            let next_domain = square_domain(domain.as_slice());
            proof {
                let before = layer_values(codewords@);
                let c = values(current@);
                assert(root@ == merkle_root(c));
                assert(alpha@ == round_challenge(log, root@));
                assert(transcript_log(*transcript) == log_after_round(log, root@));
                assert(layer_values(codewords@.push(current)) =~= before.push(c));
                let rest = commit_codewords(
                    values(next_codeword@),
                    values(next_domain@),
                    transcript_log(*transcript),
                    (rounds - i - 1) as nat,
                );
                assert(commit_codewords(c, values(domain@), log, (rounds - i) as nat) == seq![c]
                    + rest);
                assert(before + (seq![c] + rest) =~= before.push(c) + rest);
            }
            codewords.push(current);
            current = next_codeword;
            domain = next_domain;
            i += 1;
        }
        proof {
            let before = layer_values(codewords@);
            let c = values(current@);
            assert(layer_values(codewords@.push(current)) =~= before.push(c));
            assert(before + seq![c] =~= before.push(c));
        }
        codewords.push(current);
        (codewords, trees)
    }

    /// The query phase: for every layer but the last, and for every index, the
    /// openings of the points A and B in the layer's tree and of the point C
    /// in the tree of the next layer.
    pub fn query(
        &self,
        codewords: &[Vec<FieldElement>],
        trees: &[MerkleTree],
        indices: &[usize],
    ) -> (queries: Vec<LayerProof>)
        requires
            indices@.len() == NUM_COLINEARITY_CHECKS,
            codewords@.len() == trees@.len() + 1,
            forall|i: int|
                0 <= i < trees@.len() ==> (#[trigger] trees@[i]).committed() && trees@[i].leaves()
                    == codewords@[i]@,
            forall|i: int|
                0 <= i < trees@.len() ==> (#[trigger] codewords@[i])@.len() >= 2 && codewords@[i
                    + 1]@.len() == codewords@[i]@.len() / 2,
        ensures
            queries@.len() == if trees@.len() == 0 {
                0
            } else {
                trees@.len() - 1
            },
            forall|i: int|
                0 <= i < queries@.len() ==> (#[trigger] queries@[i])@ == query_layers(
                    layer_values(codewords@),
                    indices@,
                )[i],
    {
        let mut queries: Vec<LayerProof> = Vec::new();
        if trees.len() == 0 {
            return queries;
        }
        let ghost c = layer_values(codewords@);
        let mut i: usize = 0;
        while i < trees.len() - 1
            invariant
                trees@.len() >= 1,
                i <= trees@.len() - 1,
                indices@.len() == NUM_COLINEARITY_CHECKS,
                codewords@.len() == trees@.len() + 1,
                c == layer_values(codewords@),
                forall|i: int|
                    0 <= i < trees@.len() ==> (#[trigger] trees@[i]).committed()
                        && trees@[i].leaves() == codewords@[i]@,
                forall|i: int|
                    0 <= i < trees@.len() ==> (#[trigger] codewords@[i])@.len() >= 2
                        && codewords@[i + 1]@.len() == codewords@[i]@.len() / 2,
                queries@.len() == i,
                forall|m: int|
                    0 <= m < i ==> (#[trigger] queries@[m])@ == query_layers(c, indices@)[m],
            decreases trees@.len() - 1 - i,
        {
            let codeword = &codewords[i];
            let half = codeword.len() / 2;
            let mut openings: Vec<(MerkleProof, MerkleProof, MerkleProof)> = Vec::new();
            let mut j: usize = 0;
            proof {
                assert(codewords@[i as int]@.len() >= 2);
                assert(trees@[i as int].committed());
                assert(trees@[i as int + 1].committed());
                assert(c[i as int] == values(codewords@[i as int]@));
                assert(c[i as int + 1] == values(codewords@[i as int + 1]@));
            }
            while j < indices.len()
                invariant
                    j <= indices@.len(),
                    i + 1 < trees@.len(),
                    codewords@.len() == trees@.len() + 1,
                    half >= 1,
                    half == codewords@[i as int]@.len() / 2,
                    codewords@[i as int]@.len() <= usize::MAX,
                    codewords@[i as int + 1]@.len() == half,
                    trees@[i as int].leaves() == codewords@[i as int]@,
                    trees@[i as int + 1].leaves() == codewords@[i as int + 1]@,
                    c == layer_values(codewords@),
                    c[i as int] == values(codewords@[i as int]@),
                    c[i as int + 1] == values(codewords@[i as int + 1]@),
                    openings@.len() == j,
                    forall|q: int|
                        0 <= q < j ==> (
                            (#[trigger] openings@[q]).0@,
                            openings@[q].1@,
                            openings@[q].2@,
                        ) == query_openings(c, i as int, indices@[q] as nat),
                decreases indices@.len() - j,
            {
                let a_index = indices[j] % half;
                let b_index = half + a_index;
                let a_y_proof = match trees[i].open_at(a_index) {
                    Some(proof) => proof,
                    None => vstd::pervasive::unreached(),
                };
                let b_y_proof = match trees[i].open_at(b_index) {
                    Some(proof) => proof,
                    None => vstd::pervasive::unreached(),
                };
                let c_y_proof = match trees[i + 1].open_at(a_index) {
                    Some(proof) => proof,
                    None => vstd::pervasive::unreached(),
                };
                openings.push((a_y_proof, b_y_proof, c_y_proof));
                j += 1;
            }
            let layer = LayerProof { openings };
            proof {
                assert(layer@ =~= query_layers(c, indices@)[i as int]);
            }
            queries.push(layer);
            i += 1;
        }
        queries
    }

    /// Proves that the polynomial is of low degree: the codeword of its
    /// values on the domain is folded and committed to round by round, and
    /// the layers are opened at the indices that the transcript then yields.
    ///
    /// The result is `None` only if the sampling of the indices gives out.
    pub fn prove_degree(&self, poly: &UniPoly, transcript: &mut Transcript) -> (r: Option<FriProof>)
        requires
            self.size() >= 16,
            poly.coeffs@.len() <= self.size(),
        ensures
            match r {
                Some(proof) => proof_of(
                    self.size(),
                    values(poly.coeffs@),
                    transcript_log(*old(transcript)),
                ) == Some(proof@),
                None => proof_of(
                    self.size(),
                    values(poly.coeffs@),
                    transcript_log(*old(transcript)),
                ) is None,
            },
            transcript_log(*final(transcript)) == log_after_proof(
                self.size(),
                values(poly.coeffs@),
                transcript_log(*old(transcript)),
            ),
    {
        proof {
            use_type_invariant(self);
            lemma_pow2_log2(self.size());
            lemma_domain_of_is_subgroup(self.size());
            assert(log2(self.size()) >= 4) by {
                reveal_with_fuel(log2, 5);
            }
        }
        let size = self.domain.len();
        let ghost k = log2(size as nat);
        let ghost start = transcript_log(*transcript);
        let mut coeffs_expanded: Vec<FieldElement> = slice_to_vec(poly.coeffs.as_slice());
        while coeffs_expanded.len() < size
            invariant
                poly.coeffs@.len() <= coeffs_expanded@.len() <= size,
                forall|m: int|
                    0 <= m < poly.coeffs@.len() ==> coeffs_expanded@[m] == poly.coeffs@[m],
                forall|m: int|
                    poly.coeffs@.len() <= m < coeffs_expanded@.len() ==> (
                    #[trigger] coeffs_expanded@[m])@ == 0,
            decreases size - coeffs_expanded@.len(),
        {
            coeffs_expanded.push(FieldElement::zero());
        }
        assert(values(coeffs_expanded@) =~= padded(values(poly.coeffs@), size as nat));
        let codeword = fft(coeffs_expanded.as_slice(), self.domain.as_slice());
        let (codewords, trees) = self.commit(codeword.as_slice(), transcript);
        let rounds = trees.len();
        proof {
            assert(codewords@[rounds - 1]@.len() == pow2((k - (rounds - 1)) as nat));
            lemma2_to64();
            vstd::arithmetic::power2::lemma_pow2_subtracts((rounds - 1) as nat, k);
            assert(codewords@[rounds - 1]@.len() == size as nat / pow2((rounds - 1) as nat));
        }
        let sampled = sample_indices(
            self.num_colinearity_checks,
            size,
            codewords[rounds - 1].len(),
            transcript,
        );
        match sampled {
            Some(indices) => {
                proof {
                    assert forall|i: int| 0 <= i < trees@.len() implies (
                    #[trigger] codewords@[i])@.len() >= 2 && codewords@[i + 1]@.len()
                        == codewords@[i]@.len() / 2 by {
                        lemma_pow2_unfold((k - i) as nat);
                        vstd::arithmetic::power2::lemma_pow2_pos((k - i - 1) as nat);
                    }
                }
                let queries = self.query(
                    codewords.as_slice(),
                    trees.as_slice(),
                    indices.as_slice(),
                );
                let reduced_codeword = slice_to_vec(codewords[codewords.len() - 1].as_slice());
                let proof = FriProof { reduced_codeword, queries };
                proof {
                    let expected = proof_of(size as nat, values(poly.coeffs@), start);
                    assert(proof@.queries =~= expected->0.queries);
                    assert(proof@.reduced_codeword == expected->0.reduced_codeword);
                }
                Some(proof)
            },
            None => None,
        }
    }
}

} // verus!
