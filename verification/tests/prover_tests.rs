use fri::domain::evaluation_domain;
use fri::fft::{fft, square_domain};
use fri::field::FieldElement;
use fri::utils::sample_indices;
use fri::{FriProof, FriProver, FriVerifier, MerkleTree, Transcript, UniPoly};

const PROTOCOL_LABEL: &[u8] = b"Fast Reed-Solomon Interactive Oracle Proof of Proximity";

fn counting(n: u64) -> Vec<FieldElement> {
    (0..n).map(FieldElement::from_u64).collect()
}

#[test]
fn fold_combines_each_symbol_with_the_one_half_a_codeword_further() {
    let prover = FriProver::new(8);
    let domain = evaluation_domain(2);
    let codeword: Vec<FieldElement> =
        [3u64, 14, 15, 92].iter().map(|x| FieldElement::from_u64(*x)).collect();
    let alpha = FieldElement::from_u64(7);
    let folded = prover.fold(&codeword, &domain, alpha);
    assert_eq!(folded.len(), 2);

    let one = FieldElement::one();
    let half = FieldElement::from_u64(2).invert().unwrap();
    for i in 0..2 {
        let omega_inverse = domain[i].invert().unwrap();
        let twist = alpha.mul(&omega_inverse);
        let expected = half.mul(
            &one.add(&twist).mul(&codeword[i]).add(&one.sub(&twist).mul(&codeword[i + 2])),
        );
        assert_eq!(folded[i], expected);
    }
    // at position 0 the point is one: ((1 + 7) * 3 + (1 - 7) * 15) / 2 = -33
    assert_eq!(folded[0], FieldElement::zero().sub(&FieldElement::from_u64(33)));
}

#[test]
fn fold_of_an_evaluated_polynomial_evaluates_even_plus_alpha_times_odd() {
    let prover = FriProver::new(8);
    let domain = evaluation_domain(4);
    let coeffs: Vec<FieldElement> =
        [5u64, 1, 4, 2, 8, 6, 0, 9].iter().map(|x| FieldElement::from_u64(*x)).collect();
    let alpha = FieldElement::from_u64(1000);
    let codeword = fft(&coeffs, &domain);
    let folded = prover.fold(&codeword, &domain, alpha);
    let folded_coeffs: Vec<FieldElement> =
        (0..4).map(|j| coeffs[2 * j].add(&alpha.mul(&coeffs[2 * j + 1]))).collect();
    assert_eq!(folded, fft(&folded_coeffs, &square_domain(&domain)));
}

#[test]
fn the_commit_phase_halves_the_codeword_every_round() {
    let prover = FriProver::new(32);
    assert_eq!(prover.domain_size(), 64);
    assert_eq!(prover.num_rounds(), 3);
    let codeword = counting(64);
    let mut transcript = Transcript::new(PROTOCOL_LABEL);
    let (codewords, trees) = prover.commit(&codeword, &mut transcript);
    assert_eq!(codewords.len(), 4);
    assert_eq!(trees.len(), 3);
    assert_eq!(codewords[0], codeword);
    for (i, codeword) in codewords.iter().enumerate() {
        assert_eq!(codeword.len(), 64 >> i);
    }
    for (tree, codeword) in trees.iter().zip(&codewords) {
        assert_eq!(tree.layers()[0], *codeword);
    }

    // the first challenge comes from the first root alone
    let mut replay = Transcript::new(PROTOCOL_LABEL);
    let root = MerkleTree::new().commit(&codeword);
    replay.append_message(b"root", &root.to_repr());
    let mut wide = [0u8; 64];
    replay.challenge_bytes(b"alpha", &mut wide);
    let alpha = FieldElement::from_bytes_wide(&wide);
    assert_eq!(codewords[1], prover.fold(&codeword, &evaluation_domain(32), alpha));
}

#[test]
fn the_openings_stand_where_the_indices_point() {
    let prover = FriProver::new(32);
    let codeword = counting(64);
    let (codewords, trees) = prover.commit(&codeword, &mut Transcript::new(PROTOCOL_LABEL));
    let queries = prover.query(&codewords, &trees, &[45, 3]);
    assert_eq!(queries.len(), 2);

    let (a, b, c) = &queries[0].openings[0];
    assert_eq!((a.index, b.index, c.index), (13, 45, 13));
    assert_eq!((a.leaf, b.leaf, c.leaf), (codewords[0][13], codewords[0][45], codewords[1][13]));
    assert_eq!(a.root, trees[0].open_at(0).unwrap().root);
    assert_eq!(b.root, a.root);
    assert_eq!(c.root, trees[1].open_at(0).unwrap().root);
    assert_eq!((a.siblings.len(), b.siblings.len(), c.siblings.len()), (6, 6, 5));

    let (a, b, c) = &queries[1].openings[0];
    assert_eq!((a.index, b.index, c.index), (13, 29, 13));
    assert_eq!((a.leaf, b.leaf, c.leaf), (codewords[1][13], codewords[1][29], codewords[2][13]));

    let (a, b, c) = &queries[1].openings[1];
    assert_eq!((a.index, b.index, c.index), (3, 19, 3));
    assert!(a.verify() && b.verify() && c.verify());
}

#[test]
fn a_codeword_altered_before_committing_is_rejected() {
    let prover = FriProver::new(16);
    let verifier = FriVerifier::new(16);
    let coeffs = counting(17);
    let mut padded = coeffs.clone();
    padded.resize(32, FieldElement::zero());
    let honest = fft(&padded, &evaluation_domain(16));

    for position in [0usize, 7, 31] {
        let mut codeword = honest.clone();
        codeword[position] = codeword[position].add(&FieldElement::one());
        let mut transcript = Transcript::new(PROTOCOL_LABEL);
        let (codewords, trees) = prover.commit(&codeword, &mut transcript);
        let indices = sample_indices(2, 32, 16, &mut transcript).unwrap();
        let queries = prover.query(&codewords, &trees, &indices);
        let proof = FriProof { reduced_codeword: codewords[2].clone(), queries };
        let com = proof.queries[0].openings[0].2.root;
        assert!(!verifier.verify(proof, com));
    }

    // the same steps on the honest codeword give the proof that is accepted
    let mut transcript = Transcript::new(PROTOCOL_LABEL);
    let (codewords, trees) = prover.commit(&honest, &mut transcript);
    let indices = sample_indices(2, 32, 16, &mut transcript).unwrap();
    let queries = prover.query(&codewords, &trees, &indices);
    let proof = FriProof { reduced_codeword: codewords[2].clone(), queries };
    let com = proof.queries[0].openings[0].2.root;
    let direct = prover
        .prove_degree(&UniPoly::new(coeffs), &mut Transcript::new(PROTOCOL_LABEL))
        .unwrap();
    assert_eq!(proof.reduced_codeword, direct.reduced_codeword);
    assert_eq!(format!("{:?}", proof.queries), format!("{:?}", direct.queries));
    assert!(verifier.verify(proof, com));
}

#[test]
fn proofs_of_several_sizes_are_accepted() {
    for log in 3..9u32 {
        let degree = 1usize << log;
        let coeffs: Vec<FieldElement> =
            (0..=degree as u64).map(|i| FieldElement::from_u64(3 * i * i + 1)).collect();
        let poly = UniPoly::new(coeffs);
        let proof = FriProver::new(degree)
            .prove_degree(&poly, &mut Transcript::new(PROTOCOL_LABEL))
            .unwrap();
        assert_eq!(proof.queries.len(), (log - 3) as usize);
        let com = if proof.queries.is_empty() {
            FieldElement::zero()
        } else {
            proof.queries[0].openings[0].2.root
        };
        assert!(FriVerifier::new(degree).verify(proof, com));
    }
}

#[test]
fn a_proof_for_another_domain_is_rejected() {
    let poly = UniPoly::new(counting(17));
    let proof =
        FriProver::new(16).prove_degree(&poly, &mut Transcript::new(PROTOCOL_LABEL)).unwrap();
    let com = proof.queries[0].openings[0].2.root;
    assert!(!FriVerifier::new(32).verify(proof, com));
    let proof =
        FriProver::new(16).prove_degree(&poly, &mut Transcript::new(PROTOCOL_LABEL)).unwrap();
    assert!(!FriVerifier::new(4).verify(proof, com));
}
