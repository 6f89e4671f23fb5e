use merkle_tree::{EmptyInputError, MerkleTree, Sibling};
use sha2::{Digest, Sha256};

/// The digest function the tree is specified against: SHA-256 of the input
/// string, rendered as lowercase hex.
fn reference_hash(data: &str) -> String {
    hex::encode(Sha256::digest(data))
}

#[test]
fn test_leaf_digest_known_vector() {
    let tree = MerkleTree::new(vec!["a"]).unwrap();
    // SHA-256("a"), a published test vector.
    assert_eq!(
        tree.leaves[0],
        "ca978112ca1bbdcafac231b39a23dc4da786eff8147c4e72b9807785afee48bb"
    );
    // A one-leaf tree's root is its sole leaf digest.
    assert_eq!(tree.root, tree.leaves[0]);
}

#[test]
fn test_root_of_two_leaves_is_parent_hash() {
    let tree = MerkleTree::new(vec!["a", "b"]).unwrap();
    let expected = reference_hash(&(reference_hash("a") + &reference_hash("b")));
    assert_eq!(tree.root, expected);
}

#[test]
fn test_root_is_deterministic() {
    let elements = vec!["x", "y", "z", "w", "v"];
    let first = MerkleTree::new(elements.clone()).unwrap();
    let second = MerkleTree::new(elements).unwrap();
    assert_eq!(first.root, second.root);
    assert_eq!(first.leaves, second.leaves);
}

#[test]
fn test_every_member_proof_verifies() {
    let elements = vec!["p", "q", "r", "s", "t", "u", "v"];
    let tree = MerkleTree::new(elements.clone()).unwrap();
    for element in elements {
        let path = tree.generate_proof(element).unwrap();
        assert!(tree.verify(element, path));
    }
}

#[test]
fn test_add_element_matches_reconstruction() {
    let mut grown = MerkleTree::new(vec!["a", "b", "c"]).unwrap();
    grown.add_element("d");
    let rebuilt = MerkleTree::new(vec!["a", "b", "c", "d"]).unwrap();
    assert_eq!(grown.root, rebuilt.root);
    assert_eq!(grown.leaves, rebuilt.leaves);
}

#[test]
fn test_odd_count_duplicates_last_leaf() {
    // With three leaves the second pair is (c, c): the first proof step for
    // "c" is its own digest, sitting on the right of the tracked digest.
    let tree = MerkleTree::new(vec!["a", "b", "c"]).unwrap();
    let path = tree.generate_proof("c").unwrap();
    assert_eq!(path.len(), 2);
    match &path[0] {
        Sibling::Right(digest) => assert_eq!(digest, &reference_hash("c")),
        Sibling::Left(_) => panic!("the duplicated sibling must sit on the right"),
    }
}

#[test]
fn test_root_is_lowercase_hex() {
    let tree = MerkleTree::new(vec!["a", "b", "c", "d"]).unwrap();
    assert_eq!(tree.root.len(), 64);
    assert!(tree
        .root
        .chars()
        .all(|c| c.is_ascii_digit() || ('a'..='f').contains(&c)));
}

#[test]
fn test_empty_input_error_value() {
    let result = MerkleTree::new(Vec::new());
    assert_eq!(result.unwrap_err(), EmptyInputError);
}

#[test]
fn test_absent_element_has_no_proof() {
    let tree = MerkleTree::new(vec!["a", "b", "c", "d"]).unwrap();
    assert!(tree.generate_proof("x").is_none());
    assert!(tree.generate_proof("").is_none());
}

#[test]
fn test_foreign_proof_fails_for_other_element() {
    let tree = MerkleTree::new(vec!["a", "b", "c", "d"]).unwrap();
    let path_for_a = tree.generate_proof("a").unwrap();
    assert!(!tree.verify("b", path_for_a));
}

#[test]
fn test_truncated_proof_fails() {
    let tree = MerkleTree::new(vec!["a", "b", "c", "d", "e"]).unwrap();
    let mut path = tree.generate_proof("d").unwrap();
    assert!(tree.verify("d", path.clone()));
    path.pop();
    assert!(!tree.verify("d", path));
}

#[test]
fn test_duplicate_elements_each_get_a_leaf() {
    let tree = MerkleTree::new(vec!["a", "a", "b"]).unwrap();
    assert_eq!(tree.leaves.len(), 3);
    assert_eq!(tree.leaves[0], tree.leaves[1]);
    // The level-walk matches the first occurrence by value; its proof still
    // verifies.
    let path = tree.generate_proof("a").unwrap();
    assert!(tree.verify("a", path));
}

#[test]
fn test_one_leaf_tree_proofs() {
    let tree = MerkleTree::new(vec!["only"]).unwrap();
    let path = tree.generate_proof("only").unwrap();
    assert!(path.is_empty());
    assert!(tree.verify("only", path));
    assert!(tree.generate_proof("other").is_none());
}

#[test]
fn test_add_element_changes_root() {
    let mut tree = MerkleTree::new(vec!["a", "b"]).unwrap();
    let old_root = tree.root.clone();
    let old_proof = tree.generate_proof("a").unwrap();
    tree.add_element("c");
    assert_ne!(tree.root, old_root);
    assert_eq!(tree.leaves.len(), 3);
    // The old proof replays to the old root, which no longer matches.
    assert!(!tree.verify("a", old_proof));
    let fresh = tree.generate_proof("a").unwrap();
    assert!(tree.verify("a", fresh));
}
