use fri::domain::{evaluation_domain, EXPANSION_FACTOR, NUM_COLINEARITY_CHECKS, TERMINAL_SLACK};
use fri::fft::square_domain;
use fri::field::FieldElement;
use fri::numeric::{is_power_of_two, log2_floor};

#[test]
fn the_parameters_have_their_values() {
    assert_eq!(EXPANSION_FACTOR, 2);
    assert_eq!(NUM_COLINEARITY_CHECKS, 2);
    assert_eq!(TERMINAL_SLACK, 3);
}

#[test]
fn the_domain_holds_the_powers_of_a_primitive_root() {
    let domain = evaluation_domain(8);
    assert_eq!(domain.len(), 16);
    assert_eq!(domain[0], FieldElement::one());
    let generator = FieldElement::root_of_unity().pow(1 << 28);
    assert_eq!(domain[1], generator);
    for (i, point) in domain.iter().enumerate() {
        assert_eq!(*point, generator.pow(i as u64));
    }
    assert_eq!(domain[8], FieldElement::zero().sub(&FieldElement::one()));
    assert_eq!(domain[15].mul(&generator), FieldElement::one());
}

#[test]
fn the_domain_for_degree_one_has_two_points() {
    let domain = evaluation_domain(1);
    assert_eq!(domain, vec![FieldElement::one(), FieldElement::zero().sub(&FieldElement::one())]);
}

#[test]
fn squaring_a_domain_gives_every_second_point() {
    let domain = evaluation_domain(16);
    let squared = square_domain(&domain);
    assert_eq!(squared.len(), 16);
    for (i, point) in squared.iter().enumerate() {
        assert_eq!(*point, domain[2 * i]);
    }
    // the squares of the second half are those of the first, in the same order
    let mut unique: Vec<FieldElement> = vec![];
    for point in &domain {
        let square = point.square();
        if !unique.contains(&square) {
            unique.push(square);
        }
    }
    assert_eq!(unique, squared);
    assert_eq!(square_domain(&[FieldElement::one()]), vec![]);
}

#[test]
fn powers_of_two_are_recognised() {
    for k in 0..20 {
        assert!(is_power_of_two(1 << k));
        assert_eq!(log2_floor(1 << k), k);
    }
    for n in [0usize, 3, 5, 6, 7, 9, 12, 1000, (1 << 20) + 1] {
        assert!(!is_power_of_two(n));
    }
    assert_eq!(log2_floor(0), 0);
    assert_eq!(log2_floor(1), 0);
    assert_eq!(log2_floor(3), 1);
    assert_eq!(log2_floor(1000), 9);
    assert_eq!(log2_floor(usize::MAX), usize::BITS - 1);
}
