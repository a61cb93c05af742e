use fri::field::FieldElement;
use fri::tree::{MerkleProof, MerkleTree};
use fri::utils::hash_two;

fn leaves_one_to_eight() -> Vec<FieldElement> {
    (1..=8u64).map(FieldElement::from_u64).collect()
}

#[test]
fn test_tree() {
    let mut tree = MerkleTree::new();
    let leaves = vec![
        FieldElement::from_u64(1),
        FieldElement::from_u64(2),
        FieldElement::from_u64(3),
        FieldElement::from_u64(4),
        FieldElement::from_u64(5),
        FieldElement::from_u64(6),
        FieldElement::from_u64(7),
        FieldElement::from_u64(8),
    ];
    tree.commit(&leaves);

    for i in 0..leaves.len() {
        let proof = tree.open(leaves[i]).unwrap();
        assert!(proof.verify());
    }
}

#[test]
fn every_opening_names_the_root_and_has_three_siblings() {
    let mut tree = MerkleTree::new();
    let leaves = leaves_one_to_eight();
    let root = tree.commit(&leaves);
    for i in 0..leaves.len() {
        let proof = tree.open_at(i).unwrap();
        assert_eq!(proof.root, root);
        assert_eq!(proof.leaf, leaves[i]);
        assert_eq!(proof.index, i);
        assert_eq!(proof.siblings.len(), 3);
        assert!(proof.verify());
    }
    assert!(tree.open_at(8).is_none());
}

#[test]
fn a_mutated_first_sibling_breaks_the_opening() {
    let mut tree = MerkleTree::new();
    let leaves = leaves_one_to_eight();
    tree.commit(&leaves);
    for i in 0..leaves.len() {
        let mut proof = tree.open(leaves[i]).unwrap();
        proof.siblings[0] = proof.siblings[0].add(&FieldElement::one());
        assert!(!proof.verify());
    }
}

#[test]
fn a_mutated_leaf_root_or_upper_sibling_breaks_the_opening() {
    let mut tree = MerkleTree::new();
    let leaves = leaves_one_to_eight();
    tree.commit(&leaves);
    let one = FieldElement::one();

    let mut proof = tree.open_at(5).unwrap();
    proof.leaf = proof.leaf.add(&one);
    assert!(!proof.verify());

    let mut proof = tree.open_at(5).unwrap();
    proof.root = proof.root.add(&one);
    assert!(!proof.verify());

    let mut proof = tree.open_at(5).unwrap();
    proof.siblings[2] = proof.siblings[2].add(&one);
    assert!(!proof.verify());

    let mut proof = tree.open_at(5).unwrap();
    proof.index = 4;
    assert!(!proof.verify());
}

#[test]
fn the_root_of_two_leaves_is_their_hash() {
    let a = FieldElement::from_u64(10);
    let b = FieldElement::from_u64(20);
    let mut tree = MerkleTree::new();
    let root = tree.commit(&[a, b]);
    assert_eq!(root, hash_two(&[a, b]));
    assert_ne!(root, hash_two(&[b, a]));
    assert_eq!(tree.layers().len(), 2);
    let right = tree.open_at(1).unwrap();
    assert_eq!(right.siblings, vec![a]);
    assert!(right.verify());
}

#[test]
fn a_single_leaf_is_its_own_root() {
    let leaf = FieldElement::from_u64(99);
    let mut tree = MerkleTree::new();
    let root = tree.commit(&[leaf]);
    assert_eq!(root, leaf);
    let proof = tree.open(leaf).unwrap();
    assert!(proof.siblings.is_empty());
    assert!(proof.verify());
}

#[test]
fn open_finds_the_first_of_equal_leaves_and_misses_absent_ones() {
    let seven = FieldElement::from_u64(7);
    let leaves = vec![FieldElement::from_u64(1), seven, seven, FieldElement::from_u64(4)];
    let mut tree = MerkleTree::new();
    tree.commit(&leaves);
    let proof = tree.open(seven).unwrap();
    assert_eq!(proof.index, 1);
    assert!(proof.verify());
    assert!(tree.open(FieldElement::from_u64(5)).is_none());
    assert!(MerkleTree::new().open(seven).is_none());
}

#[test]
fn a_second_commitment_replaces_the_first() {
    let mut tree = MerkleTree::new();
    tree.commit(&leaves_one_to_eight());
    let root = tree.commit(&[FieldElement::from_u64(3), FieldElement::from_u64(4)]);
    assert_eq!(tree.layers().len(), 2);
    assert_eq!(tree.open_at(0).unwrap().root, root);
    assert!(tree.open_at(2).is_none());
}

#[test]
fn an_opening_with_no_siblings_is_valid_only_for_the_root_itself() {
    let x = FieldElement::from_u64(5);
    let proof = MerkleProof { root: x, leaf: x, index: 0, siblings: vec![] };
    assert!(proof.verify());
    let proof = MerkleProof { root: FieldElement::from_u64(6), leaf: x, index: 0, siblings: vec![] };
    assert!(!proof.verify());
}
