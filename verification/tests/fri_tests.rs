use fri::field::FieldElement;
use fri::{FriProver, FriVerifier, Transcript, UniPoly};

const PROTOCOL_LABEL: &[u8] = b"Fast Reed-Solomon Interactive Oracle Proof of Proximity";

fn counting_poly(degree: u32) -> UniPoly {
    let mut coeffs = vec![];
    for i in 0..(degree + 1) {
        coeffs.push(FieldElement::from_u64(i as u64));
    }
    UniPoly::new(coeffs)
}

#[test]
fn test_prove() {
    let poly_degree = 2u32.pow(4u32);

    let mut coeffs = vec![];
    for i in 0..(poly_degree + 1) {
        coeffs.push(FieldElement::from_u64(i as u64));
    }

    let poly = UniPoly::new(coeffs);
    let prover = FriProver::new(poly.degree());

    let mut transcript = Transcript::new(b"test_fri");
    let proof = prover.prove_degree(&poly, &mut transcript).unwrap();

    // C of the first round is the polynomial we're committing to.
    let poly_commitment = proof.queries[0].openings[0].2.root;

    let verifier = FriVerifier::new(poly.degree());

    assert!(verifier.verify_with_transcript(&proof, poly_commitment, Transcript::new(b"test_fri")));
}

#[test]
fn a_proof_of_degree_16_is_accepted_under_the_protocol_label() {
    let poly = counting_poly(16);
    let prover = FriProver::new(16);
    let mut transcript = Transcript::new(PROTOCOL_LABEL);
    let proof = prover.prove_degree(&poly, &mut transcript).unwrap();
    assert_eq!(proof.reduced_codeword.len(), 8);
    assert_eq!(proof.queries.len(), 1);
    assert_eq!(proof.queries[0].openings.len(), 2);
    let poly_commitment = proof.queries[0].openings[0].2.root;
    let verifier = FriVerifier::new(16);
    assert!(verifier.verify(proof, poly_commitment));
}

#[test]
fn a_proof_of_degree_1024_is_accepted() {
    let poly = counting_poly(1024);
    let prover = FriProver::new(poly.degree());
    let mut transcript = Transcript::new(PROTOCOL_LABEL);
    let proof = prover.prove_degree(&poly, &mut transcript).unwrap();
    assert_eq!(proof.queries.len(), 7);
    let poly_commitment = proof.queries[0].openings[0].2.root;
    let verifier = FriVerifier::new(poly.degree());
    assert!(verifier.verify(proof, poly_commitment));
}

#[test]
fn a_tampered_last_codeword_is_rejected() {
    let poly = counting_poly(16);
    let prover = FriProver::new(16);
    let mut transcript = Transcript::new(PROTOCOL_LABEL);
    let mut proof = prover.prove_degree(&poly, &mut transcript).unwrap();
    let poly_commitment = proof.queries[0].openings[0].2.root;

    let mut bytes = proof.reduced_codeword[0].to_repr();
    bytes[0] ^= 1;
    proof.reduced_codeword[0] = FieldElement::from_repr(bytes).unwrap();

    let verifier = FriVerifier::new(16);
    assert!(!verifier.verify(proof, poly_commitment));
}

#[test]
fn a_proof_under_another_label_is_rejected_by_the_protocol_transcript() {
    let poly = counting_poly(16);
    let prover = FriProver::new(16);
    let mut transcript = Transcript::new(b"test_fri");
    let proof = prover.prove_degree(&poly, &mut transcript).unwrap();
    let poly_commitment = proof.queries[0].openings[0].2.root;
    let verifier = FriVerifier::new(16);
    assert!(!verifier.verify(proof, poly_commitment));
}

#[test]
fn two_runs_give_the_same_proof() {
    let poly = counting_poly(16);
    let prover = FriProver::new(16);
    let first = prover.prove_degree(&poly, &mut Transcript::new(PROTOCOL_LABEL)).unwrap();
    let second = prover.prove_degree(&poly, &mut Transcript::new(PROTOCOL_LABEL)).unwrap();
    assert_eq!(first.reduced_codeword, second.reduced_codeword);
    assert_eq!(format!("{:?}", first.queries), format!("{:?}", second.queries));
}

#[test]
fn a_wrong_commitment_is_rejected() {
    let poly = counting_poly(16);
    let prover = FriProver::new(16);
    let proof = prover.prove_degree(&poly, &mut Transcript::new(PROTOCOL_LABEL)).unwrap();
    let wrong = proof.queries[0].openings[0].2.root.add(&FieldElement::one());
    assert!(!FriVerifier::new(16).verify(proof, wrong));
}

#[test]
fn a_polynomial_of_lower_degree_is_rejected() {
    // The degree of the last codeword must be exactly the expected one.
    let poly = counting_poly(8);
    let prover = FriProver::new(16);
    let proof = prover.prove_degree(&poly, &mut Transcript::new(PROTOCOL_LABEL)).unwrap();
    let poly_commitment = proof.queries[0].openings[0].2.root;
    assert!(!FriVerifier::new(16).verify(proof, poly_commitment));
}

#[test]
fn a_tampered_opening_is_rejected() {
    let poly = counting_poly(32);
    let prover = FriProver::new(32);
    let verifier = FriVerifier::new(32);
    let one = FieldElement::one();

    let make = || prover.prove_degree(&poly, &mut Transcript::new(PROTOCOL_LABEL)).unwrap();
    let com = make().queries[0].openings[0].2.root;
    assert!(verifier.verify(make(), com));

    let mut proof = make();
    proof.queries[1].openings[1].0.leaf = proof.queries[1].openings[1].0.leaf.add(&one);
    assert!(!verifier.verify(proof, com));

    let mut proof = make();
    proof.queries[0].openings[1].2.leaf = proof.queries[0].openings[1].2.leaf.add(&one);
    assert!(!verifier.verify(proof, com));

    let mut proof = make();
    proof.queries[0].openings[0].1.siblings[0] = one;
    assert!(!verifier.verify(proof, com));

    let mut proof = make();
    proof.queries[1].openings[0].0.index ^= 1;
    assert!(!verifier.verify(proof, com));

    let mut proof = make();
    proof.queries.pop();
    assert!(!verifier.verify(proof, com));

    let mut proof = make();
    proof.queries[0].openings.pop();
    assert!(!verifier.verify(proof, com));

    let mut proof = make();
    proof.reduced_codeword.pop();
    assert!(!verifier.verify(proof, com));
}

#[test]
fn a_proof_on_the_smallest_domain_has_no_openings() {
    let poly = counting_poly(8);
    let prover = FriProver::new(8);
    let proof = prover.prove_degree(&poly, &mut Transcript::new(PROTOCOL_LABEL)).unwrap();
    assert!(proof.queries.is_empty());
    assert_eq!(proof.reduced_codeword.len(), 8);
    assert!(FriVerifier::new(8).verify(proof, FieldElement::zero()));
}
