//! A binary Merkle tree over SHA-256 digests rendered as lowercase hex
//! strings.
//!
//! The tree commits an ordered sequence of elements to a single root digest,
//! supports appending elements with a full rebuild, and produces and checks
//! compact inclusion proofs (a path of sibling digests from a leaf to the
//! root).

mod hashing;
mod model;
mod tree;

pub use tree::EmptyInputError;
pub use tree::MerkleTree;
pub use tree::Sibling;
pub use tree::hashes_of;
pub use tree::lemma_add_matches_reconstruct;
pub use tree::lemma_generated_proof_verifies;
pub use tree::lemma_proof_exists_iff_member;
pub use tree::lemma_root_deterministic;
pub use model::lemma_contains_iff_pair_match;
pub use model::lemma_first_match_from_finds;
pub use model::lemma_first_match_from_some;
pub use model::lemma_proof_for_folds_to_root;
pub use model::lemma_proof_for_some_iff_contains;

pub use model::SiblingView;
pub use model::first_match;
pub use model::first_match_from;
pub use model::fold_proof;
pub use model::level_parent;
pub use model::next_level;
pub use model::num_pairs;
pub use model::pair_left;
pub use model::pair_matches;
pub use model::pair_right;
pub use model::proof_for;
pub use model::root_of;
pub use model::sibling_at;
pub use hashing::hash_of;
pub use hashing::hash_str;
pub use hashing::hex_of;
pub use hashing::parent_of;
pub use hashing::sha256_of;
