use fri::field::FieldElement;
use fri::utils::{digest_to_field, hash_input_state, hash_two, sample_index, sample_indices};
use fri::Transcript;

fn element(bytes: [u8; 32]) -> FieldElement {
    FieldElement::from_repr(bytes).unwrap()
}

#[test]
fn hash_two_is_the_permuted_state_read_back() {
    let one = FieldElement::from_u64(1);
    let two = FieldElement::from_u64(2);
    let expected = element([
        63, 220, 157, 64, 35, 67, 132, 18, 78, 142, 80, 183, 220, 113, 34, 56, 21, 105, 222, 67,
        218, 43, 143, 243, 213, 72, 97, 111, 223, 29, 203, 42,
    ]);
    assert_eq!(hash_two(&[one, two]), expected);
    let swapped = element([
        123, 168, 114, 164, 240, 110, 35, 196, 171, 217, 184, 231, 189, 173, 22, 224, 53, 80, 53,
        147, 34, 27, 57, 208, 59, 29, 74, 43, 197, 173, 94, 33,
    ]);
    assert_eq!(hash_two(&[two, one]), swapped);
}

#[test]
fn hash_two_of_zeros_and_of_the_largest_element() {
    let zero = FieldElement::zero();
    let expected = element([
        119, 183, 179, 185, 234, 142, 219, 211, 211, 193, 219, 105, 170, 39, 101, 163, 84, 137,
        156, 116, 195, 86, 170, 41, 104, 69, 104, 222, 188, 132, 122, 29,
    ]);
    assert_eq!(hash_two(&[zero, zero]), expected);
    let largest = zero.sub(&FieldElement::one());
    let expected = element([
        229, 210, 95, 142, 139, 75, 198, 182, 170, 185, 111, 149, 161, 211, 232, 178, 247, 126,
        25, 64, 0, 22, 40, 49, 201, 36, 100, 95, 243, 76, 191, 13,
    ]);
    assert_eq!(hash_two(&[largest, FieldElement::from_u64(5)]), expected);
}

#[test]
fn hash_two_differs_from_the_unpermuted_state() {
    let a = FieldElement::from_u64(11);
    let b = FieldElement::from_u64(22);
    let state = hash_input_state(&a, &b);
    assert_ne!(hash_two(&[a, b]), digest_to_field(&state));
}

#[test]
fn the_hash_input_holds_both_encodings_as_lanes() {
    let a = FieldElement::from_u64(0x0807060504030201);
    let b = FieldElement::zero().sub(&FieldElement::one());
    let state = hash_input_state(&a, &b);
    assert_eq!(state[0], 0x0807060504030201);
    assert_eq!(&state[1..4], &[0, 0, 0]);
    assert_eq!(state[4], 0x992d30ed00000000);
    assert_eq!(state[5], 0x224698fc094cf91b);
    assert_eq!(state[6], 0);
    assert_eq!(state[7], 0x4000000000000000);
    assert!(state[8..].iter().all(|lane| *lane == 0));
}

#[test]
fn the_digest_reads_lanes_fifteen_down_to_eight() {
    let mut state = [0u64; 25];
    // the lowest byte of the digest is the highest byte of lane 15
    state[15] = 0x0900_0000_0000_0000;
    assert_eq!(digest_to_field(&state), FieldElement::from_u64(9));
    let mut state = [0u64; 25];
    state[15] = 0x0003_0000_0000_0000;
    assert_eq!(digest_to_field(&state), FieldElement::from_u64(0x0300));
    let mut state = [0u64; 25];
    state[14] = 0x0100_0000_0000_0000;
    assert_eq!(digest_to_field(&state), FieldElement::from_u64(1).mul(&FieldElement::from_u64(2).pow(64)));
    // lanes outside 8..16 are not read
    let mut state = [0u64; 25];
    state[0] = u64::MAX;
    state[7] = u64::MAX;
    state[16] = u64::MAX;
    state[24] = u64::MAX;
    assert_eq!(digest_to_field(&state), FieldElement::zero());
}

#[test]
fn sample_index_reads_the_last_eight_bytes_most_significant_first() {
    let mut bytes = [0u8; 64];
    for (i, b) in bytes.iter_mut().enumerate() {
        *b = i as u8;
    }
    // 0x38393a3b3c3d3e3f
    assert_eq!(sample_index(bytes, 32), 31);
    assert_eq!(sample_index(bytes, 1000), 871);
    assert_eq!(sample_index(bytes, 1), 0);

    let mut bytes = [255u8; 64];
    bytes[56..].copy_from_slice(&[0, 0, 0, 0, 0, 0, 1, 2]);
    assert_eq!(sample_index(bytes, 1 << 20), 258);
    assert_eq!(sample_index([0u8; 64], 7), 0);
}

#[test]
fn sampled_indices_are_in_range_with_distinct_residues() {
    let mut transcript = Transcript::new(b"sampling");
    let indices = sample_indices(8, 1 << 12, 16, &mut transcript).unwrap();
    assert_eq!(indices.len(), 8);
    for (i, index) in indices.iter().enumerate() {
        assert!(*index < (1 << 12));
        for other in &indices[..i] {
            assert_ne!(index % 16, other % 16);
        }
    }
}

#[test]
fn sampling_fills_every_residue_when_asked_for_all() {
    let mut transcript = Transcript::new(b"sampling");
    let indices = sample_indices(4, 64, 4, &mut transcript).unwrap();
    let mut residues: Vec<usize> = indices.iter().map(|i| i % 4).collect();
    residues.sort();
    assert_eq!(residues, vec![0, 1, 2, 3]);
}

#[test]
fn sampling_is_determined_by_the_transcript() {
    let first = sample_indices(2, 32, 16, &mut Transcript::new(b"one")).unwrap();
    let again = sample_indices(2, 32, 16, &mut Transcript::new(b"one")).unwrap();
    assert_eq!(first, again);

    let mut used = Transcript::new(b"one");
    used.append_message(b"root", &[7u8; 32]);
    let many = sample_indices(16, 1 << 30, 1 << 20, &mut Transcript::new(b"one")).unwrap();
    let others = sample_indices(16, 1 << 30, 1 << 20, &mut used).unwrap();
    assert_ne!(many, others);
    let third = sample_indices(16, 1 << 30, 1 << 20, &mut Transcript::new(b"two")).unwrap();
    assert_ne!(many, third);
}

#[test]
fn sampling_nothing_leaves_the_transcript_untouched() {
    let mut transcript = Transcript::new(b"sampling");
    assert_eq!(sample_indices(0, 0, 0, &mut transcript), Some(vec![]));
    let mut fresh = Transcript::new(b"sampling");
    let mut a = [0u8; 16];
    let mut b = [0u8; 16];
    transcript.challenge_bytes(b"next", &mut a);
    fresh.challenge_bytes(b"next", &mut b);
    assert_eq!(a, b);
}
