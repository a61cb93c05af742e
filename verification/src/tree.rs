//! A Merkle commitment to a vector of field elements, with openings.
//!
//! The contracts speak of the tree through the values of its leaves: the root
//! is [`merkle_root`] of them, and the opening of a leaf carries
//! [`merkle_path`], the siblings met on the way up. [`fold_path`] is what a
//! verifier computes from an opening.
use crate::field::{values, FieldElement};
use crate::numeric::{is_pow2, log2};
use crate::utils::{hash_two, hash_value};
use vstd::prelude::*;
use vstd::slice::slice_to_vec;

verus! {

/// The layer above a layer: the hashes of its consecutive pairs.
pub open spec fn parents(layer: Seq<nat>) -> Seq<nat> {
    Seq::new(layer.len() / 2, |j: int| hash_value(layer[2 * j], layer[2 * j + 1]))
}

/// The root of the tree over the given leaves.
pub open spec fn merkle_root(leaves: Seq<nat>) -> nat
    decreases leaves.len(),
{
    if leaves.len() == 0 {
        0
    } else if leaves.len() == 1 {
        leaves[0]
    } else {
        merkle_root(parents(leaves))
    }
}

/// The layers of the tree over the given leaves, from the leaves to the root.
pub open spec fn layers_of(leaves: Seq<nat>) -> Seq<Seq<nat>>
    decreases leaves.len(),
{
    if leaves.len() <= 1 {
        seq![leaves]
    } else {
        seq![leaves] + layers_of(parents(leaves))
    }
}

/// The position of the other node of a pair.
pub open spec fn sibling(index: nat) -> nat {
    if index % 2 == 0 {
        index + 1
    } else {
        (index - 1) as nat
    }
}

/// The siblings met on the way from the leaf at `index` up to the root.
pub open spec fn merkle_path(leaves: Seq<nat>, index: nat) -> Seq<nat>
    decreases leaves.len(),
{
    if leaves.len() <= 1 {
        Seq::empty()
    } else {
        seq![leaves[sibling(index) as int]] + merkle_path(parents(leaves), index / 2)
    }
}

/// The node reached from `node` at position `index` by hashing it with each
/// sibling in turn, on the side that the position gives.
pub open spec fn fold_path(node: nat, index: nat, siblings: Seq<nat>) -> nat
    decreases siblings.len(),
{
    if siblings.len() == 0 {
        node
    } else {
        let parent = if index % 2 == 0 {
            hash_value(node, siblings[0])
        } else {
            hash_value(siblings[0], node)
        };
        fold_path(parent, index / 2, siblings.drop_first())
    }
}

/// What an opening holds, as values.
pub struct MerkleProofView {
    pub root: nat,
    pub leaf: nat,
    pub index: nat,
    pub siblings: Seq<nat>,
}

/// The opening of the tree over `leaves` at `index`.
pub open spec fn opening_of(leaves: Seq<nat>, index: nat) -> MerkleProofView {
    MerkleProofView {
        root: merkle_root(leaves),
        leaf: leaves[index as int],
        index,
        siblings: merkle_path(leaves, index),
    }
}

impl MerkleProofView {
    /// The node that the opening leads to.
    pub open spec fn folded(self) -> nat {
        fold_path(self.leaf, self.index, self.siblings)
    }

    /// Whether the opening is valid: hashing the leaf with the siblings in
    /// turn leads to the root.
    pub open spec fn valid(self) -> bool {
        self.folded() == self.root
    }
}

/// The values of the layers of a tree.
pub open spec fn layer_values(layers: Seq<Vec<FieldElement>>) -> Seq<Seq<nat>> {
    Seq::new(layers.len(), |k: int| values(layers[k]@))
}

/// An opening of a committed vector at one position.
#[derive(Debug)]
pub struct MerkleProof {
    /// The root of the tree that the opening is made against.
    pub root: FieldElement,
    /// The leaf that is opened.
    pub leaf: FieldElement,
    /// The position of the leaf.
    pub index: usize,
    /// The siblings on the way from the leaf to the root.
    pub siblings: Vec<FieldElement>,
}

/// A Merkle tree over field elements.
pub struct MerkleTree {
    layers: Vec<Vec<FieldElement>>,
}

impl View for MerkleProof {
    type V = MerkleProofView;

    open spec fn view(&self) -> MerkleProofView {
        MerkleProofView {
            root: self.root@,
            leaf: self.leaf@,
            index: self.index as nat,
            siblings: values(self.siblings@),
        }
    }
}

impl MerkleProof {
    /// Checks the opening against the root that it names.
    pub fn verify(&self) -> (r: bool)
        ensures
            r == self@.valid(),
    {
        let mut current = self.leaf;
        let mut position = self.index;
        let mut i: usize = 0;
        assert(values(self.siblings@).skip(0) =~= values(self.siblings@));
        while i < self.siblings.len()
            invariant
                i <= self.siblings@.len(),
                fold_path(self.leaf@, self.index as nat, values(self.siblings@)) == fold_path(
                    current@,
                    position as nat,
                    values(self.siblings@).skip(i as int),
                ),
            decreases self.siblings@.len() - i,
        {
            let sibling = self.siblings[i];
            proof {
                let rest = values(self.siblings@).skip(i as int);
                assert(rest[0] == sibling@);
                assert(rest.drop_first() =~= values(self.siblings@).skip(i as int + 1));
            }
            current = if position % 2 == 0 {
                hash_two(&[current, sibling])
            } else {
                hash_two(&[sibling, current])
            };
            position = position / 2;
            i += 1;
        }
        current == self.root
    }
}

impl MerkleTree {
    /// A tree is either empty or holds every layer over its leaves, whose
    /// number is a power of two.
    #[verifier::type_invariant]
    pub closed spec fn well_formed(self) -> bool {
        self.layers@.len() == 0 || (is_pow2(self.layers@[0]@.len()) && layer_values(self.layers@)
            == layers_of(values(self.layers@[0]@)))
    }

    /// The committed leaves; none before a commitment.
    pub closed spec fn leaves(&self) -> Seq<FieldElement> {
        if self.layers@.len() == 0 {
            Seq::empty()
        } else {
            self.layers@[0]@
        }
    }

    /// Whether a vector was committed.
    pub closed spec fn committed(&self) -> bool {
        self.layers@.len() > 0
    }

    /// An empty tree.
    pub fn new() -> (tree: MerkleTree)
        ensures
            !tree.committed(),
            tree.leaves().len() == 0,
    {
        MerkleTree { layers: Vec::new() }
    }

    /// The layers of the tree, from the leaves to the root: one more than the
    /// logarithm of the number of leaves, the last of which holds the root
    /// alone. A tree without a commitment has none.
    pub fn layers(&self) -> (r: &Vec<Vec<FieldElement>>)
        ensures
            self.committed() ==> {
                &&& is_pow2(self.leaves().len())
                &&& r@.len() == log2(self.leaves().len()) + 1
                &&& r@[0]@ == self.leaves()
                &&& layer_values(r@) == layers_of(values(self.leaves()))
                &&& values(r@.last()@) == seq![merkle_root(values(self.leaves()))]
            },
            !self.committed() ==> r@.len() == 0,
    {
        proof {
            use_type_invariant(self);
            if self.layers@.len() > 0 {
                lemma_layers_count(values(self.layers@[0]@));
                assert(layer_values(self.layers@).last() == values(self.layers@.last()@));
            }
        }
        &self.layers
    }

    /// Commits to `leaves`, replacing what the tree held, and returns the root.
    pub fn commit(&mut self, leaves: &[FieldElement]) -> (root: FieldElement)
        requires
            is_pow2(leaves@.len()),
        ensures
            root@ == merkle_root(values(leaves@)),
            final(self).committed(),
            final(self).leaves() == leaves@,
    {
        let mut layers: Vec<Vec<FieldElement>> = Vec::new();
        let mut current = slice_to_vec(leaves);
        let ghost all = layers_of(values(leaves@));
        while current.len() > 1
            invariant
                is_pow2(leaves@.len()),
                is_pow2(current@.len()),
                all == layers_of(values(leaves@)),
                all == layer_values(layers@) + layers_of(values(current@)),
                merkle_root(values(leaves@)) == merkle_root(values(current@)),
                layers@.len() > 0 ==> layers@[0]@ == leaves@,
                layers@.len() == 0 ==> current@ == leaves@,
            decreases current@.len(),
        {
            let mut next: Vec<FieldElement> = Vec::new();
            let mut i: usize = 0;
            while i < current.len()
                invariant
                    i % 2 == 0,
                    i <= current@.len(),
                    current@.len() % 2 == 0,
                    next@.len() == i / 2,
                    forall|j: int|
                        0 <= j < next@.len() ==> (#[trigger] next@[j])@ == parents(
                            values(current@),
                        )[j],
                decreases current@.len() - i,
            {
                let parent = hash_two(&[current[i], current[i + 1]]);
                next.push(parent);
                i += 2;
            }
            assert(values(next@) =~= parents(values(current@)));
            proof {
                let before = layer_values(layers@);
                assert(layer_values(layers@.push(current)) =~= before.push(values(current@)));
                assert(layers_of(values(current@)) =~= seq![values(current@)] + layers_of(
                    values(next@),
                ));
                assert(before + (seq![values(current@)] + layers_of(values(next@)))
                    =~= before.push(values(current@)) + layers_of(values(next@)));
            }
            layers.push(current);
            current = next;
        }
        let root = current[0];
        proof {
            let before = layer_values(layers@);
            assert(layer_values(layers@.push(current)) =~= before.push(values(current@)));
            assert(layers_of(values(current@)) =~= seq![values(current@)]);
            assert(before + seq![values(current@)] =~= before.push(values(current@)));
        }
        layers.push(current);
        self.layers = layers;
        root
    }

    /// The opening of the leaf at `index`, if there is such a leaf.
    pub fn open_at(&self, index: usize) -> (r: Option<MerkleProof>)
        ensures
            r is Some <==> index < self.leaves().len(),
            r is Some ==> r->0@ == opening_of(values(self.leaves()), index as nat),
    {
        proof {
            use_type_invariant(self);
        }
        if self.layers.len() == 0 {
            return None;
        }
        if index >= self.layers[0].len() {
            return None;
        }
        let leaf = self.layers[0][index];
        let ghost leaves = values(self.layers@[0]@);
        let ghost all = layers_of(leaves);
        let mut siblings: Vec<FieldElement> = Vec::new();
        let mut position = index;
        let mut level: usize = 0;
        proof {
            lemma_layers_structure(leaves, 0);
            assert(all.skip(0) =~= all);
            assert(values(siblings@) =~= Seq::<nat>::empty());
            assert(merkle_path(leaves, index as nat) =~= values(siblings@) + merkle_path(
                all[0],
                position as nat,
            ));
        }
        while level < self.layers.len() - 1
            invariant
                self.layers@.len() > 0,
                leaves == values(self.layers@[0]@),
                all == layers_of(leaves),
                layer_values(self.layers@) == all,
                is_pow2(leaves.len()),
                level < self.layers@.len(),
                position < all[level as int].len(),
                is_pow2(all[level as int].len()),
                all.skip(level as int) == layers_of(all[level as int]),
                merkle_root(all[level as int]) == merkle_root(leaves),
                merkle_path(leaves, index as nat) == values(siblings@) + merkle_path(
                    all[level as int],
                    position as nat,
                ),
            decreases self.layers@.len() - level,
        {
            let ghost layer = all[level as int];
            proof {
                assert(values(self.layers@[level as int]@) == layer);
                lemma_layers_structure(leaves, level as nat);
                assert(layer.len() >= 2);
                lemma_layers_structure(leaves, level as nat + 1);
            }
            let partner = if position % 2 == 0 {
                position + 1
            } else {
                position - 1
            };
            let node = self.layers[level][partner];
            proof {
                assert(node@ == layer[sibling(position as nat) as int]);
                assert(values(siblings@.push(node)) =~= values(siblings@).push(node@));
                assert(values(siblings@) + (seq![node@] + merkle_path(
                    parents(layer),
                    position as nat / 2,
                )) =~= values(siblings@).push(node@) + merkle_path(
                    parents(layer),
                    position as nat / 2,
                ));
            }
            siblings.push(node);
            position = position / 2;
            level += 1;
        }
        proof {
            lemma_layers_structure(leaves, level as nat);
            assert(all[level as int].len() == 1);
            assert(values(self.layers@[level as int]@) == all[level as int]);
            assert(merkle_path(all[level as int], position as nat) =~= Seq::<nat>::empty());
            assert(values(siblings@) + Seq::<nat>::empty() =~= values(siblings@));
        }
        let root = self.layers[level][0];
        Some(MerkleProof { root, leaf, index, siblings })
    }

    /// The opening of the first leaf that equals `leaf`, if there is one.
    pub fn open(&self, leaf: FieldElement) -> (r: Option<MerkleProof>)
        ensures
            r is Some <==> values(self.leaves()).contains(leaf@),
            r is Some ==> {
                let index = r->0.index as int;
                &&& index < self.leaves().len()
                &&& r->0@ == opening_of(values(self.leaves()), index as nat)
                &&& r->0.leaf@ == leaf@
                &&& forall|j: int| 0 <= j < index ==> values(self.leaves())[j] != leaf@
            },
    {
        proof {
            use_type_invariant(self);
        }
        if self.layers.len() == 0 {
            assert(values(self.leaves()) =~= Seq::<nat>::empty());
            return None;
        }
        let mut i: usize = 0;
        while i < self.layers[0].len()
            invariant
                self.layers@.len() > 0,
                i <= self.layers@[0]@.len(),
                forall|j: int| 0 <= j < i ==> values(self.layers@[0]@)[j] != leaf@,
            decreases self.layers@[0]@.len() - i,
        {
            if self.layers[0][i] == leaf {
                assert(values(self.leaves())[i as int] == leaf@);
                return self.open_at(i);
            }
            i += 1;
        }
        None
    }
}

/// Every layer of a tree over a power of two of leaves holds a power of two
/// of nodes, the layers above it are the tree over it, and it has the root of
/// the whole tree. The last layer alone holds a single node.
pub proof fn lemma_layers_structure(leaves: Seq<nat>, level: nat)
    requires
        is_pow2(leaves.len()),
        level < layers_of(leaves).len(),
    ensures
        is_pow2(layers_of(leaves)[level as int].len()),
        layers_of(leaves).skip(level as int) == layers_of(layers_of(leaves)[level as int]),
        merkle_root(layers_of(leaves)[level as int]) == merkle_root(leaves),
        layers_of(leaves)[level as int].len() == 1 <==> level + 1 == layers_of(leaves).len(),
        level + 1 < layers_of(leaves).len() ==> layers_of(leaves)[level as int + 1] == parents(
            layers_of(leaves)[level as int],
        ),
    decreases level,
{
    let all = layers_of(leaves);
    if level == 0 {
        assert(all.skip(0) =~= all);
        if leaves.len() > 1 {
            assert(layers_of(parents(leaves)).len() >= 1);
        }
    } else {
        let above = parents(leaves);
        assert(all =~= seq![leaves] + layers_of(above));
        assert(is_pow2(above.len()));
        lemma_layers_structure(above, (level - 1) as nat);
        assert(all.skip(level as int) =~= layers_of(above).skip(level as int - 1));
        assert(all[level as int] == layers_of(above)[level as int - 1]);
        if level + 1 < all.len() {
            assert(all[level as int + 1] == layers_of(above)[level as int]);
        }
    }
}

/// A tree over a power of two of leaves has one layer more than the logarithm
/// of their number, and its last layer holds the root alone.
pub proof fn lemma_layers_count(leaves: Seq<nat>)
    requires
        is_pow2(leaves.len()),
    ensures
        layers_of(leaves).len() == log2(leaves.len()) + 1,
        layers_of(leaves).last() == seq![merkle_root(leaves)],
    decreases leaves.len(),
{
    if leaves.len() > 1 {
        lemma_layers_count(parents(leaves));
    } else {
        assert(leaves =~= seq![leaves[0]]);
    }
}

/// Whether two different pairs of nodes have the same hash.
pub open spec fn hash_collision(a: nat, b: nat, c: nat, d: nat) -> bool {
    (a != c || b != d) && hash_value(a, b) == hash_value(c, d)
}

/// Two paths of one length from one position that lead to the same node, from
/// different nodes or over different siblings, pass through a collision of
/// the hash.
pub proof fn lemma_fold_binds(x: nat, y: nat, index: nat, s: Seq<nat>, t: Seq<nat>)
    requires
        s.len() == t.len(),
        fold_path(x, index, s) == fold_path(y, index, t),
        x != y || s != t,
    ensures
        exists|a: nat, b: nat, c: nat, d: nat| hash_collision(a, b, c, d),
    decreases s.len(),
{
    if s.len() == 0 {
        assert(s =~= t);
    } else {
        let px = if index % 2 == 0 {
            hash_value(x, s[0])
        } else {
            hash_value(s[0], x)
        };
        let py = if index % 2 == 0 {
            hash_value(y, t[0])
        } else {
            hash_value(t[0], y)
        };
        if px == py && (x != y || s[0] != t[0]) {
            if index % 2 == 0 {
                assert(hash_collision(x, s[0], y, t[0]));
            } else {
                assert(hash_collision(s[0], x, t[0], y));
            }
        } else {
            if px == py {
                assert(s =~= seq![s[0]] + s.drop_first());
                assert(t =~= seq![t[0]] + t.drop_first());
            }
            lemma_fold_binds(px, py, index / 2, s.drop_first(), t.drop_first());
        }
    }
}

/// An opening binds: a valid opening whose leaf or whose siblings were
/// changed is no longer valid for the same root and position, unless the
/// change hits a collision of the hash.
pub proof fn lemma_opening_binds(p: MerkleProofView, q: MerkleProofView)
    requires
        p.valid(),
        q.root == p.root,
        q.index == p.index,
        q.siblings.len() == p.siblings.len(),
        q.leaf != p.leaf || q.siblings != p.siblings,
    ensures
        !q.valid() || exists|a: nat, b: nat, c: nat, d: nat| hash_collision(a, b, c, d),
{
    if q.valid() {
        lemma_fold_binds(p.leaf, q.leaf, p.index, p.siblings, q.siblings);
    }
}

/// A valid opening is valid for no other root.
pub proof fn lemma_opening_binds_root(p: MerkleProofView, q: MerkleProofView)
    requires
        p.valid(),
        q.leaf == p.leaf,
        q.index == p.index,
        q.siblings == p.siblings,
        q.root != p.root,
    ensures
        !q.valid(),
{
}

/// The path of a leaf in a tree over a power of two of leaves has as many
/// siblings as the tree has layers above the leaves.
pub proof fn lemma_path_length(leaves: Seq<nat>, index: nat)
    requires
        is_pow2(leaves.len()),
    ensures
        merkle_path(leaves, index).len() == log2(leaves.len()),
    decreases leaves.len(),
{
    if leaves.len() > 1 {
        lemma_path_length(parents(leaves), index / 2);
    }
}

/// The opening of any leaf of a tree leads to the tree's root: it is valid,
/// and the root that it names is the root of the tree.
pub proof fn lemma_opening_leads_to_root(leaves: Seq<nat>, index: nat)
    requires
        is_pow2(leaves.len()),
        index < leaves.len(),
    ensures
        fold_path(leaves[index as int], index, merkle_path(leaves, index)) == merkle_root(leaves),
        opening_of(leaves, index).valid(),
        opening_of(leaves, index).root == merkle_root(leaves),
    decreases leaves.len(),
{
    if leaves.len() > 1 {
        let path = merkle_path(leaves, index);
        let above = parents(leaves);
        assert(path.drop_first() =~= merkle_path(above, index / 2));
        assert(path[0] == leaves[sibling(index) as int]);
        lemma_opening_leads_to_root(above, index / 2);
    }
}

} // verus!
