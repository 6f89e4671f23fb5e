//! The Merkle tree engine: leaf storage, level-by-level aggregation into the
//! root, appending, and inclusion proofs.

use vstd::prelude::*;

use crate::hashing::hash_of;
use crate::hashing::hash_pair;
use crate::hashing::hash_str;
use crate::model::SiblingView;
use crate::model::first_match;
use crate::model::first_match_from;
use crate::model::fold_proof;
use crate::model::lemma_first_match_from_some;
use crate::model::lemma_proof_for_folds_to_root;
use crate::model::lemma_proof_for_some_iff_contains;
use crate::model::level_parent;
use crate::model::next_level;
use crate::model::num_pairs;
use crate::model::pair_matches;
use crate::model::proof_for;
use crate::model::root_of;
use crate::model::sibling_at;

verus! {

/// A proof step: a sibling digest, tagged with the side it sits on when the
/// parent digest is formed.
#[derive(Debug, Clone)]
pub enum Sibling {
    Left(String),
    Right(String),
}

impl View for Sibling {
    type V = SiblingView;

    open spec fn view(&self) -> SiblingView {
        match self {
            Sibling::Left(s) => SiblingView::Left(s@),
            Sibling::Right(s) => SiblingView::Right(s@),
        }
    }
}

impl DeepView for Sibling {
    type V = SiblingView;

    open spec fn deep_view(&self) -> SiblingView {
        self@
    }
}

/// Construction was attempted with zero elements; the tree refuses to exist
/// without a root.
#[derive(Debug, Clone, Copy, PartialEq, Eq)]
pub struct EmptyInputError;

/// A binary Merkle tree over hex-rendered SHA-256 digests.
#[derive(Debug, Clone)]
pub struct MerkleTree {
    /// The root digest, committing to all current leaves.
    pub root: String,
    /// The leaf digests, one per committed element, in insertion order.
    pub leaves: Vec<String>,
}

/// The digests of a sequence of elements, in order.
pub open spec fn hashes_of(elements: Seq<Seq<char>>) -> Seq<Seq<char>> {
    elements.map_values(|e: Seq<char>| hash_of(e))
}

impl MerkleTree {
    /// The leaf digests as the model sees them.
    pub open spec fn leaf_hashes(self) -> Seq<Seq<char>> {
        self.leaves.deep_view()
    }

    /// The tree's invariant: it has at least one leaf, and the root is the
    /// aggregation of the current leaves.
    pub open spec fn wf(self) -> bool {
        &&& self.leaves@.len() >= 1
        &&& self.root@ == root_of(self.leaf_hashes())
    }

    /// Creates a tree committing to `elements`, in order: each element is
    /// hashed into a leaf digest and the leaves are aggregated into the
    /// root. An empty element list is refused.
    pub fn new(elements: Vec<&str>) -> (result: Result<MerkleTree, EmptyInputError>)
        ensures
            match result {
                Ok(tree) => {
                    &&& elements@.len() >= 1
                    &&& tree.leaf_hashes() == hashes_of(elements.deep_view())
                    &&& tree.wf()
                },
                Err(_) => elements@.len() == 0,
            },
    {
        if elements.len() == 0 {
            return Err(EmptyInputError);
        }
        let mut leaves: Vec<String> = Vec::new();
        let mut i: usize = 0;
        while i < elements.len()
            invariant
                i <= elements@.len(),
                leaves@.len() == i,
                forall|k: int| 0 <= k < i ==> leaves.deep_view()[k] == hash_of(elements@[k]@),
            decreases elements@.len() - i,
        {
            let leaf = hash_str(elements[i]);
            let ghost prev = leaves.deep_view();
            leaves.push(leaf);
            proof {
                assert(leaves.deep_view() =~= prev.push(hash_of(elements@[i as int]@)));
            }
            i = i + 1;
        }
        assert(leaves.deep_view() =~= hashes_of(elements.deep_view()));
        let root = Self::build_tree(&leaves);
        Ok(MerkleTree { root, leaves })
    }

    /// Aggregates a non-empty leaf level into the root digest, pairing
    /// digests left to right and hashing each pair, level by level, until
    /// one digest remains.
    fn build_tree(leaves: &Vec<String>) -> (root: String)
        requires
            leaves@.len() >= 1,
        ensures
            root@ == root_of(leaves.deep_view()),
    {
        let mut current = copy_level(leaves);
        while current.len() > 1
            invariant
                current@.len() >= 1,
                root_of(current.deep_view()) == root_of(leaves.deep_view()),
            decreases current@.len(),
        {
            current = next_level_exec(&current);
        }
        assert(current.deep_view()[0] == current@[0]@);
        current[0].clone()
    }

    /// Generates the inclusion proof for `element`: its digest is looked up
    /// by value in the leaf level, and at each level the first pair holding
    /// the tracked digest contributes the opposite pair member as a sibling
    /// step. Returns `None` exactly when the element's digest is not among
    /// the leaves.
    pub fn generate_proof(&self, element: &str) -> (result: Option<Vec<Sibling>>)
        ensures
            match result {
                Some(path) => proof_for(self.leaf_hashes(), hash_of(element@)) == Some(
                    path.deep_view(),
                ),
                None => proof_for(self.leaf_hashes(), hash_of(element@)) is None,
            },
            result is Some <==> self.leaf_hashes().contains(hash_of(element@)),
    {
        let ghost l0 = self.leaf_hashes();
        let ghost h0 = hash_of(element@);
        proof {
            lemma_proof_for_some_iff_contains(l0, h0);
        }
        if self.leaves.len() == 0 {
            return None;
        }
        let mut hash = hash_str(element);
        let mut path: Vec<Sibling> = Vec::new();
        let mut current = copy_level(&self.leaves);
        proof {
            assert(opt_prepend(path.deep_view(), proof_for(current.deep_view(), hash@))
                == proof_for(l0, h0)) by {
                match proof_for(l0, h0) {
                    None => {},
                    Some(rest) => {
                        assert(path.deep_view() + rest =~= rest);
                    },
                }
            }
        }
        while current.len() > 1
            invariant
                current@.len() >= 1,
                l0 == self.leaf_hashes(),
                h0 == hash_of(element@),
                proof_for(l0, h0) == opt_prepend(
                    path.deep_view(),
                    proof_for(current.deep_view(), hash@),
                ),
                proof_for(l0, h0) is Some <==> l0.contains(h0),
            decreases current@.len(),
        {
            let ghost cur = current.deep_view();
            let ghost tracked_before = hash@;
            let next = next_level_exec(&current);
            let found = find_match(&current, &hash);
            match found {
                None => {
                    return None;
                },
                Some(j) => {
                    proof {
                        lemma_first_match_from_some(cur, tracked_before, 0, j as int);
                        assert(2 * (j as int) + 1 < cur.len() + 1);
                    }
                    let left_idx = 2 * j;
                    let sib: Sibling = if current[left_idx] == hash {
                        let right = if left_idx + 1 < current.len() {
                            current[left_idx + 1].clone()
                        } else {
                            current[left_idx].clone()
                        };
                        Sibling::Right(right)
                    } else {
                        Sibling::Left(current[left_idx].clone())
                    };
                    proof {
                        assert(sib@ == sibling_at(cur, j as int, tracked_before));
                    }
                    let ghost path_before = path.deep_view();
                    path.push(sib);
                    let new_hash = next[j].clone();
                    hash = new_hash;
                    proof {
                        let ghost parent = level_parent(cur, j as int);
                        assert(next.deep_view()[j as int] == next@[j as int]@);
                        assert(hash@ == parent);
                        assert(path.deep_view() =~= path_before.push(
                            sibling_at(cur, j as int, tracked_before),
                        ));
                        assert(opt_prepend(path.deep_view(), proof_for(next.deep_view(), hash@))
                            == opt_prepend(path_before, proof_for(cur, tracked_before))) by {
                            match proof_for(next_level(cur), parent) {
                                None => {},
                                Some(rest) => {
                                    assert(path_before + (seq![
                                        sibling_at(cur, j as int, tracked_before),
                                    ] + rest) =~= path_before.push(
                                        sibling_at(cur, j as int, tracked_before),
                                    ) + rest);
                                },
                            }
                        }
                    }
                    current = next;
                },
            }
        }
        proof {
            assert(current.deep_view()[0] == current@[0]@);
        }
        if hash == current[0] {
            proof {
                assert(proof_for(current.deep_view(), hash@) == Some(
                    Seq::<SiblingView>::empty(),
                ));
                assert(path.deep_view() + Seq::<SiblingView>::empty() =~= path.deep_view());
            }
            Some(path)
        } else {
            None
        }
    }

    /// Replays `siblings` from the digest of `element` and compares the
    /// outcome against the tree's root: each step hashes the sibling digest
    /// on its tagged side with the digest accumulated so far. True exactly
    /// when the replay ends at the root.
    pub fn verify(&self, element: &str, siblings: Vec<Sibling>) -> (valid: bool)
        ensures
            valid == (fold_proof(hash_of(element@), siblings.deep_view()) == self.root@),
    {
        let ghost full = siblings.deep_view();
        let ghost h0 = hash_of(element@);
        let mut hash = hash_str(element);
        let mut idx: usize = 0;
        proof {
            assert(full.skip(0) =~= full);
        }
        while idx < siblings.len()
            invariant
                idx <= siblings@.len(),
                full == siblings.deep_view(),
                h0 == hash_of(element@),
                fold_proof(h0, full) == fold_proof(hash@, full.skip(idx as int)),
            decreases siblings@.len() - idx,
        {
            let ghost remaining = full.skip(idx as int);
            proof {
                assert(remaining[0] == siblings.deep_view()[idx as int]);
                assert(remaining.drop_first() =~= full.skip(idx as int + 1));
            }
            let next_hash = match &siblings[idx] {
                Sibling::Left(s) => hash_pair(s.as_str(), hash.as_str()),
                Sibling::Right(s) => hash_pair(hash.as_str(), s.as_str()),
            };
            hash = next_hash;
            idx = idx + 1;
        }
        proof {
            assert(full.skip(siblings@.len() as int) =~= Seq::<SiblingView>::empty());
        }
        hash == self.root
    }

    /// Hashes `element`, appends its digest as the next leaf, and recomputes
    /// the root over the grown leaf sequence.
    pub fn add_element(&mut self, element: &str)
        ensures
            final(self).leaf_hashes() == old(self).leaf_hashes().push(hash_of(element@)),
            final(self).wf(),
    {
        let new_leaf = hash_str(element);
        self.leaves.push(new_leaf);
        assert(self.leaf_hashes() =~= old(self).leaf_hashes().push(hash_of(element@)));
        self.root = Self::build_tree(&self.leaves);
    }
}

/// The root is a function of the leaf digests alone: trees built over equal
/// leaf digests carry equal roots, however they were reached.
pub proof fn lemma_root_deterministic(first: MerkleTree, second: MerkleTree)
    requires
        first.wf(),
        second.wf(),
        first.leaf_hashes() == second.leaf_hashes(),
    ensures
        first.root@ == second.root@,
{
}

/// A proof generated for an element of the tree replays to the tree's own
/// root, so verification accepts it.
pub proof fn lemma_generated_proof_verifies(
    tree: MerkleTree,
    element: Seq<char>,
    path: Seq<SiblingView>,
)
    requires
        tree.wf(),
        proof_for(tree.leaf_hashes(), hash_of(element)) == Some(path),
    ensures
        fold_proof(hash_of(element), path) == tree.root@,
{
    lemma_proof_for_folds_to_root(tree.leaf_hashes(), hash_of(element), path);
}

/// An element's digest has an inclusion proof exactly when it is among the
/// tree's leaf digests: proof generation never succeeds for an absent
/// digest.
pub proof fn lemma_proof_exists_iff_member(tree: MerkleTree, element: Seq<char>)
    ensures
        proof_for(tree.leaf_hashes(), hash_of(element)) is Some <==> tree.leaf_hashes().contains(
            hash_of(element),
        ),
{
    lemma_proof_for_some_iff_contains(tree.leaf_hashes(), hash_of(element));
}

/// Appending an element to the leaves is the same commitment as building
/// from the extended element sequence: the grown tree and the rebuilt tree
/// carry the same root.
pub proof fn lemma_add_matches_reconstruct(
    grown: MerkleTree,
    rebuilt: MerkleTree,
    elements: Seq<Seq<char>>,
    element: Seq<char>,
)
    requires
        grown.wf(),
        rebuilt.wf(),
        grown.leaf_hashes() == hashes_of(elements).push(hash_of(element)),
        rebuilt.leaf_hashes() == hashes_of(elements.push(element)),
    ensures
        grown.root@ == rebuilt.root@,
{
    assert(hashes_of(elements.push(element)) =~= hashes_of(elements).push(hash_of(element)));
}

/// Prefixes every proof in `rest` with the steps already taken.
spec fn opt_prepend(prefix: Seq<SiblingView>, rest: Option<Seq<SiblingView>>) -> Option<
    Seq<SiblingView>,
> {
    match rest {
        None => None,
        Some(tail) => Some(prefix + tail),
    }
}

/// Finds the first pair of a level that contains the target digest.
fn find_match(level: &Vec<String>, target: &String) -> (found: Option<usize>)
    requires
        level@.len() >= 1,
    ensures
        match found {
            Some(j) => first_match(level.deep_view(), target@) == Some(j as int),
            None => first_match(level.deep_view(), target@) is None,
        },
{
    let ghost l = level.deep_view();
    let mut i: usize = 0;
    while i < level.len()
        invariant
            i <= level@.len(),
            i % 2 == 0 || i == level@.len(),
            l == level.deep_view(),
            first_match(l, target@) == first_match_from(l, target@, (i + 1) as int / 2),
        decreases level@.len() - i,
    {
        let matched = if level[i] == *target {
            true
        } else if i + 1 < level.len() {
            level[i + 1] == *target
        } else {
            false
        };
        proof {
            assert(matched == pair_matches(l, i as int / 2, target@));
        }
        if matched {
            return Some(i / 2);
        }
        i = if i + 1 < level.len() {
            i + 2
        } else {
            level.len()
        };
    }
    None
}

/// Copies one level of digests.
fn copy_level(level: &Vec<String>) -> (copy: Vec<String>)
    ensures
        copy.deep_view() == level.deep_view(),
        copy@.len() == level@.len(),
{
    let mut copy: Vec<String> = Vec::new();
    let mut i: usize = 0;
    while i < level.len()
        invariant
            i <= level@.len(),
            copy@.len() == i,
            forall|k: int| 0 <= k < i ==> copy.deep_view()[k] == level.deep_view()[k],
        decreases level@.len() - i,
    {
        let entry = level[i].clone();
        let ghost prev = copy.deep_view();
        copy.push(entry);
        proof {
            assert(copy.deep_view() =~= prev.push(level.deep_view()[i as int]));
        }
        i = i + 1;
    }
    assert(copy.deep_view() =~= level.deep_view());
    copy
}

/// Computes the parents of all pairs of a level, in pair order.
fn next_level_exec(level: &Vec<String>) -> (next: Vec<String>)
    requires
        level@.len() >= 2,
    ensures
        next.deep_view() == next_level(level.deep_view()),
        next@.len() == num_pairs(level.deep_view()),
        next@.len() < level@.len(),
{
    let mut next: Vec<String> = Vec::new();
    let mut i: usize = 0;
    while i < level.len()
        invariant
            level@.len() >= 2,
            i <= level@.len(),
            i % 2 == 0 || i == level@.len(),
            next@.len() == (i + 1) as int / 2,
            forall|j: int| 0 <= j < next@.len()
                ==> next.deep_view()[j] == level_parent(level.deep_view(), j),
        decreases level@.len() - i,
    {
        let left = &level[i];
        let right = if i + 1 < level.len() {
            &level[i + 1]
        } else {
            left
        };
        let parent = hash_pair(left.as_str(), right.as_str());
        let ghost prev = next.deep_view();
        next.push(parent);
        proof {
            assert(next.deep_view() =~= prev.push(level_parent(level.deep_view(), i as int / 2)));
        }
        i = if i + 1 < level.len() {
            i + 2
        } else {
            level.len()
        };
    }
    assert(next.deep_view() =~= next_level(level.deep_view()));
    next
}

} // verus!
