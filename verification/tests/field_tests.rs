use fri::field::FieldElement;

const MODULUS_BYTES: [u8; 32] = [
    1, 0, 0, 0, 237, 48, 45, 153, 27, 249, 76, 9, 252, 152, 70, 34, 0, 0, 0, 0, 0, 0, 0, 0, 0, 0,
    0, 0, 0, 0, 0, 64,
];

fn minus_one() -> FieldElement {
    FieldElement::zero().sub(&FieldElement::one())
}

#[test]
fn small_numbers_add_and_multiply_as_integers() {
    let three = FieldElement::from_u64(3);
    let four = FieldElement::from_u64(4);
    assert_eq!(three.add(&four), FieldElement::from_u64(7));
    assert_eq!(three.mul(&four), FieldElement::from_u64(12));
    assert_eq!(four.sub(&three), FieldElement::one());
    assert_eq!(four.square(), FieldElement::from_u64(16));
    assert_eq!(FieldElement::from_u64(u64::MAX).to_repr()[..8], [255u8; 8]);
}

#[test]
fn arithmetic_wraps_at_the_modulus() {
    let mut largest = MODULUS_BYTES;
    largest[0] = 0;
    assert_eq!(minus_one().to_repr(), largest);
    assert_eq!(minus_one().add(&FieldElement::one()), FieldElement::zero());
    assert_eq!(minus_one().mul(&minus_one()), FieldElement::one());
    assert_eq!(minus_one().add(&FieldElement::from_u64(5)), FieldElement::from_u64(4));
}

#[test]
fn from_repr_accepts_exactly_the_canonical_encodings() {
    assert!(FieldElement::from_repr(MODULUS_BYTES).is_none());
    assert!(FieldElement::from_repr([255u8; 32]).is_none());
    let mut largest = MODULUS_BYTES;
    largest[0] = 0;
    assert_eq!(FieldElement::from_repr(largest), Some(minus_one()));
    let mut seven = [0u8; 32];
    seven[0] = 7;
    assert_eq!(FieldElement::from_repr(seven), Some(FieldElement::from_u64(7)));
    assert_eq!(FieldElement::from_u64(0x0102).to_repr()[..3], [2u8, 1, 0]);
}

#[test]
fn zero_has_no_inverse_and_every_other_element_has_one() {
    assert!(FieldElement::zero().invert().is_none());
    assert_eq!(FieldElement::one().invert(), Some(FieldElement::one()));
    let three = FieldElement::from_u64(3);
    let third = three.invert().unwrap();
    assert_eq!(three.mul(&third), FieldElement::one());
    let expected = [
        1, 0, 0, 0, 158, 32, 30, 102, 18, 166, 136, 91, 253, 101, 132, 193, 170, 170, 170, 170,
        170, 170, 170, 170, 170, 170, 170, 170, 170, 170, 170, 42,
    ];
    assert_eq!(third.to_repr(), expected);
    assert_eq!(minus_one().invert(), Some(minus_one()));
}

#[test]
fn pow_multiplies_the_base_with_itself() {
    let seven = FieldElement::from_u64(7);
    assert_eq!(seven.pow(0), FieldElement::one());
    assert_eq!(seven.pow(1), seven);
    assert_eq!(seven.pow(3), FieldElement::from_u64(343));
    let expected = [
        176, 45, 145, 54, 236, 207, 220, 248, 112, 180, 61, 43, 151, 155, 94, 82, 30, 239, 230,
        180, 183, 153, 29, 97, 119, 169, 201, 148, 228, 213, 25, 19,
    ];
    assert_eq!(seven.pow(100).to_repr(), expected);
    assert_eq!(FieldElement::zero().pow(0), FieldElement::one());
}

#[test]
fn the_root_of_unity_has_order_two_to_the_thirty_two() {
    let root = FieldElement::root_of_unity();
    let expected = [
        47, 163, 126, 216, 171, 111, 173, 189, 132, 117, 187, 183, 242, 43, 50, 234, 26, 248, 97,
        5, 131, 32, 33, 54, 218, 235, 48, 172, 222, 116, 206, 43,
    ];
    assert_eq!(root.to_repr(), expected);
    assert_eq!(root.pow(1 << 31), minus_one());
    assert_eq!(root.pow(1 << 32), FieldElement::one());
}

#[test]
fn wide_bytes_are_reduced_modulo_the_field_order() {
    let mut bytes = [0u8; 64];
    bytes[0] = 9;
    assert_eq!(FieldElement::from_bytes_wide(&bytes), FieldElement::from_u64(9));

    // 2^256
    let mut bytes = [0u8; 64];
    bytes[32] = 1;
    let expected = [
        253, 255, 255, 255, 56, 109, 120, 52, 173, 20, 25, 228, 11, 53, 44, 153, 255, 255, 255,
        255, 255, 255, 255, 255, 255, 255, 255, 255, 255, 255, 255, 63,
    ];
    assert_eq!(FieldElement::from_bytes_wide(&bytes).to_repr(), expected);

    // the modulus itself
    let mut bytes = [0u8; 64];
    bytes[..32].copy_from_slice(&MODULUS_BYTES);
    assert_eq!(FieldElement::from_bytes_wide(&bytes), FieldElement::zero());
}

#[test]
fn equality_compares_values() {
    let a = FieldElement::from_u64(5);
    let b = FieldElement::from_u64(2).add(&FieldElement::from_u64(3));
    assert!(a == b);
    assert!(a != FieldElement::from_u64(6));
    assert!(FieldElement::from_u64(1 << 40) != FieldElement::from_u64(1 << 48));
}
