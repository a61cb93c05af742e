use fri::domain::evaluation_domain;
use fri::field::FieldElement;
use fri::fri_verifier::check_colinear;
use fri::{FriProver, FriVerifier, Transcript, UniPoly};

fn f(x: u64) -> FieldElement {
    FieldElement::from_u64(x)
}

#[test]
fn points_on_a_line_are_colinear() {
    // y = 2x + 1
    assert!(check_colinear(&f(1), &f(3), &f(2), &f(5), &f(4), &f(9)));
    assert!(check_colinear(&f(2), &f(5), &f(1), &f(3), &f(0), &f(1)));
    assert!(!check_colinear(&f(1), &f(3), &f(2), &f(5), &f(4), &f(10)));
    // a descending line: y = -x, through (1, -1) and (3, -3)
    let neg = |x: u64| FieldElement::zero().sub(&f(x));
    assert!(check_colinear(&f(1), &neg(1), &f(3), &neg(3), &f(10), &neg(10)));
}

#[test]
fn points_with_one_abscissa_are_never_colinear() {
    assert!(!check_colinear(&f(1), &f(3), &f(1), &f(3), &f(1), &f(3)));
    assert!(!check_colinear(&f(7), &f(0), &f(7), &f(1), &f(2), &f(5)));
}

#[test]
fn prover_and_verifier_hold_the_same_domain() {
    let prover = FriProver::new(16);
    let verifier = FriVerifier::new(16);
    assert_eq!(*prover.domain(), evaluation_domain(16));
    assert_eq!(prover.domain(), verifier.domain());
    assert_eq!(prover.domain_size(), 32);
}

#[test]
fn the_transcript_may_hold_more_than_its_label() {
    let coeffs: Vec<FieldElement> = (0..=16u64).map(f).collect();
    let poly = UniPoly::new(coeffs);
    let mut transcript = Transcript::new(b"session");
    transcript.append_message(b"statement", b"a polynomial of degree 16");
    let start = transcript.clone();
    let proof = FriProver::new(16).prove_degree(&poly, &mut transcript).unwrap();
    let com = proof.queries[0].openings[0].2.root;
    let verifier = FriVerifier::new(16);
    assert!(verifier.verify_with_transcript(&proof, com, start));
    assert!(!verifier.verify_with_transcript(&proof, com, Transcript::new(b"session")));
    // the transcript after proving is not where it was before
    assert!(!verifier.verify_with_transcript(&proof, com, transcript));
}
