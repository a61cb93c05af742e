use fri::fft::{fft, ifft};
use fri::field::FieldElement;

fn subgroup_domain(order: usize) -> Vec<FieldElement> {
    let log = order.trailing_zeros();
    let generator = FieldElement::root_of_unity().pow(1u64 << (32 - log));
    (0..order).map(|i| generator.pow(i as u64)).collect()
}

fn naive_eval(coeffs: &[FieldElement], x: &FieldElement) -> FieldElement {
    let mut eval = FieldElement::zero();
    for (i, coeff) in coeffs.iter().enumerate() {
        eval = eval.add(&coeff.mul(&x.pow(i as u64)));
    }
    eval
}

#[test]
fn test_fft_ifft() {
    // f(x) = 1 + 2x + 3x^2 + 4x^3 + ...
    let mut coeffs = vec![
        FieldElement::from_u64(1),
        FieldElement::from_u64(2),
        FieldElement::from_u64(3),
        FieldElement::from_u64(4),
        FieldElement::from_u64(5),
        FieldElement::from_u64(6),
        FieldElement::from_u64(7),
        FieldElement::from_u64(81),
    ];

    let subgroup_order = (coeffs.len() * 2).next_power_of_two();
    coeffs.resize(subgroup_order, FieldElement::zero());

    let domain = subgroup_domain(subgroup_order);

    let mut expected_evals = vec![];
    for w in &domain {
        expected_evals.push(naive_eval(&coeffs, w));
    }

    let evals = fft(&coeffs, &domain);
    assert!(evals == expected_evals);

    let recovered_coeffs = ifft(&domain, &evals);
    assert!(recovered_coeffs == coeffs);
}

#[test]
fn fft_of_a_single_coefficient_is_that_coefficient() {
    let coeffs = vec![FieldElement::from_u64(42)];
    let domain = vec![FieldElement::one()];
    assert_eq!(fft(&coeffs, &domain), coeffs);
    assert_eq!(ifft(&domain, &coeffs), coeffs);
}

#[test]
fn fft_on_two_points_is_sum_and_difference() {
    let coeffs = vec![FieldElement::from_u64(5), FieldElement::from_u64(3)];
    let domain = subgroup_domain(2);
    assert_eq!(domain[1], FieldElement::zero().sub(&FieldElement::one()));
    let evals = fft(&coeffs, &domain);
    assert_eq!(evals, vec![FieldElement::from_u64(8), FieldElement::from_u64(2)]);
}

#[test]
fn ifft_undoes_fft_on_every_small_domain() {
    for log in 0..8u32 {
        let n = 1usize << log;
        let domain = subgroup_domain(n);
        let coeffs: Vec<FieldElement> =
            (0..n).map(|i| FieldElement::from_u64((i * i + 7 * i + 3) as u64)).collect();
        let evals = fft(&coeffs, &domain);
        for (i, w) in domain.iter().enumerate() {
            assert_eq!(evals[i], naive_eval(&coeffs, w));
        }
        assert_eq!(ifft(&domain, &evals), coeffs);
    }
}
