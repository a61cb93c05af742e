use fri::field::FieldElement;
use fri::transcript::{append_field, append_u64, challenge_wide, protocol_transcript};
use fri::Transcript;

#[test]
fn the_protocol_transcript_stands_under_the_protocol_label() {
    let mut ours = protocol_transcript();
    let mut theirs =
        Transcript::new(b"Fast Reed-Solomon Interactive Oracle Proof of Proximity");
    let mut expected = [0u8; 64];
    theirs.challenge_bytes(b"alpha", &mut expected);
    assert_eq!(challenge_wide(&mut ours, "alpha"), expected);
    assert_ne!(expected, [0u8; 64]);
}

#[test]
fn a_field_element_is_absorbed_as_its_encoding() {
    let x = FieldElement::from_u64(0xabcdef);
    let mut ours = Transcript::new(b"t");
    let mut theirs = Transcript::new(b"t");
    append_field(&mut ours, "root", &x);
    theirs.append_message(b"root", &x.to_repr());
    let mut expected = [0u8; 64];
    theirs.challenge_bytes(b"alpha", &mut expected);
    assert_eq!(challenge_wide(&mut ours, "alpha"), expected);

    let mut without = Transcript::new(b"t");
    assert_ne!(challenge_wide(&mut without, "alpha"), expected);
}

#[test]
fn a_counter_is_absorbed_as_eight_bytes_least_significant_first() {
    let mut ours = Transcript::new(b"t");
    let mut theirs = Transcript::new(b"t");
    append_u64(&mut ours, "counter", 0x0102030405060708);
    theirs.append_message(b"counter", &[8, 7, 6, 5, 4, 3, 2, 1]);
    let mut expected = [0u8; 64];
    theirs.challenge_bytes(b"index", &mut expected);
    assert_eq!(challenge_wide(&mut ours, "index"), expected);
}

#[test]
fn challenges_depend_on_the_label_and_on_what_was_squeezed_before() {
    let mut transcript = Transcript::new(b"t");
    let first = challenge_wide(&mut transcript, "alpha");
    let second = challenge_wide(&mut transcript, "alpha");
    assert_ne!(first, second);
    let mut other = Transcript::new(b"t");
    assert_ne!(challenge_wide(&mut other, "index"), first);
    let mut same = Transcript::new(b"t");
    assert_eq!(challenge_wide(&mut same, "alpha"), first);
}
