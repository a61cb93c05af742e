use fri::field::FieldElement;
use fri::unipoly::UniPoly;

fn subgroup_domain(order: usize) -> Vec<FieldElement> {
    let log = order.trailing_zeros();
    let generator = FieldElement::root_of_unity().pow(1u64 << (32 - log));
    (0..order).map(|i| generator.pow(i as u64)).collect()
}

#[test]
fn test_interpolate() {
    let coeffs = vec![
        FieldElement::from_u64(1),
        FieldElement::from_u64(2),
        FieldElement::from_u64(3),
        FieldElement::from_u64(4),
        FieldElement::from_u64(5),
    ];

    let subgroup_order = (coeffs.len() * 2).next_power_of_two();
    let domain = subgroup_domain(subgroup_order);

    let poly = UniPoly { coeffs: coeffs.clone() };

    let mut evals = vec![];
    for val in &domain {
        evals.push(poly.eval(*val));
    }

    let interpolant = UniPoly::interpolate(domain.clone(), evals);

    assert!(interpolant.coeffs == poly.coeffs);
    assert!(interpolant.degree() == poly.degree());
    assert_eq!(interpolant.degree(), 4);
}

#[test]
fn eval_is_the_sum_of_the_terms() {
    // 1 + 2x + 3x^2 at x = 10
    let poly = UniPoly::new(vec![
        FieldElement::from_u64(1),
        FieldElement::from_u64(2),
        FieldElement::from_u64(3),
    ]);
    assert_eq!(poly.eval(FieldElement::from_u64(10)), FieldElement::from_u64(321));
    assert_eq!(poly.degree(), 2);
    assert_eq!(UniPoly::new(vec![]).eval(FieldElement::from_u64(10)), FieldElement::zero());
}

#[test]
fn interpolating_zeros_keeps_one_zero_coefficient() {
    let domain = subgroup_domain(8);
    let evals = vec![FieldElement::zero(); 8];
    let interpolant = UniPoly::interpolate(domain, evals);
    assert_eq!(interpolant.coeffs, vec![FieldElement::zero()]);
    assert_eq!(interpolant.degree(), 0);
}

#[test]
fn interpolating_a_constant_gives_degree_zero() {
    let domain = subgroup_domain(8);
    let evals = vec![FieldElement::from_u64(9); 8];
    let interpolant = UniPoly::interpolate(domain, evals);
    assert_eq!(interpolant.coeffs, vec![FieldElement::from_u64(9)]);
}

#[test]
fn interpolation_keeps_zero_coefficients_below_the_leading_one() {
    // x^3 has three zero coefficients below the leading one
    let coeffs = vec![
        FieldElement::zero(),
        FieldElement::zero(),
        FieldElement::zero(),
        FieldElement::one(),
    ];
    let poly = UniPoly::new(coeffs.clone());
    let domain = subgroup_domain(8);
    let evals: Vec<FieldElement> = domain.iter().map(|x| poly.eval(*x)).collect();
    assert_eq!(UniPoly::interpolate(domain, evals).coeffs, coeffs);
}
