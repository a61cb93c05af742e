//! A FRI low-degree test over the Pallas base field: the number-theoretic
//! transform, the Merkle commitment, the Fiat-Shamir transcript, the prover
//! and the verifier.
//!
//! # The protocol
//!
//! The prover evaluates a polynomial on a subgroup of `2^k` points, twice as
//! many as the polynomial may have coefficients. In each of `k - 3` rounds it
//! commits to the codeword with a Merkle tree, absorbs the root into the
//! transcript, squeezes a challenge and folds the codeword to half its
//! length. The last codeword, of eight symbols, goes into the proof as it is.
//! The transcript then yields the query indices. For every round but the last
//! and for every index the proof opens two symbols of the round's codeword,
//! A at the index and B half a codeword further, and the symbol C of the next
//! codeword that they were folded to.
//!
//! The verifier replays the roots that the openings name, to find the
//! challenges and the indices again. It accepts when the last codeword
//! interpolates to a polynomial of degree four, every opening stands at the
//! position that its index calls for and leads to the root of its round, and
//! A, B and C lie on one line at the two points of the domain and at the
//! challenge.
//!
//! # What is proved
//!
//! Every function has a contract over the values of the field elements it
//! handles. Beyond the contracts the crate proves that the inverse transform
//! undoes the transform ([`inversion`]), that an opening leads to the root of
//! its tree and binds its leaf up to a collision of the hash ([`tree`]), that
//! proving is deterministic ([`fri_prover`]), and that the verifier accepts
//! what the prover makes of a polynomial of full degree ([`completeness`]).
//!
//! # What is believed
//!
//! The arithmetic of the field is `pasta_curves`', the permutation of the
//! hash is `keccak`'s and the transcript is `merlin`'s. The functions that
//! call them stand in [`field`], [`utils`] and [`transcript`]; their
//! contracts say what those crates compute and are not proved.
pub mod completeness;
pub mod domain;
pub mod fft;
pub mod field;
pub mod field_lemmas;
pub mod fri_prover;
pub mod fri_verifier;
pub mod inversion;
pub mod numeric;
pub mod root_lemmas;
pub mod transcript;
pub mod tree;
pub mod unipoly;
pub mod utils;

pub use field::FieldElement;
pub use fri_prover::FriProver;
pub use fri_verifier::FriVerifier;
pub use merlin::Transcript;
pub use tree::{MerkleProof, MerkleTree};
pub use unipoly::UniPoly;

use tree::MerkleProofView;
use vstd::prelude::*;

verus! {

/// The openings of one layer: for each query the points A and B of the
/// layer's codeword and the point C of the next one.
#[derive(Debug)]
pub struct LayerProof {
    pub openings: Vec<(MerkleProof, MerkleProof, MerkleProof)>,
}

/// A proof that a committed codeword is close to a polynomial of low degree.
#[derive(Debug)]
pub struct FriProof {
    /// The last codeword, in the clear.
    pub reduced_codeword: Vec<FieldElement>,
    /// The openings, layer by layer.
    pub queries: Vec<LayerProof>,
}

/// What a proof holds, as values.
pub struct FriProofView {
    pub reduced_codeword: Seq<nat>,
    pub queries: Seq<Seq<(MerkleProofView, MerkleProofView, MerkleProofView)>>,
}

impl View for LayerProof {
    type V = Seq<(MerkleProofView, MerkleProofView, MerkleProofView)>;

    open spec fn view(&self) -> Seq<(MerkleProofView, MerkleProofView, MerkleProofView)> {
        Seq::new(
            self.openings@.len(),
            |q: int| (self.openings@[q].0@, self.openings@[q].1@, self.openings@[q].2@),
        )
    }
}

impl View for FriProof {
    type V = FriProofView;

    open spec fn view(&self) -> FriProofView {
        FriProofView {
            reduced_codeword: field::values(self.reduced_codeword@),
            queries: Seq::new(self.queries@.len(), |i: int| self.queries@[i]@),
        }
    }
}

} // verus!
