//! The mathematical model of the tree: level aggregation, the root, the
//! proof-path search, and the fold that replays a proof.
//!
//! A level is a sequence of digests (`Seq<Seq<char>>`), leaves being the
//! lowest level. Consecutive pairs are hashed into the next level; an odd
//! level pairs its last digest with itself.

use vstd::prelude::*;

use crate::hashing::parent_of;

verus! {

/// A proof step as it appears in contracts: the sibling digest together with
/// the side it sits on when forming the parent digest.
pub enum SiblingView {
    Left(Seq<char>),
    Right(Seq<char>),
}

/// How many pairs a level of this length splits into (a lone last digest
/// still forms a pair, with itself).
pub open spec fn num_pairs(level: Seq<Seq<char>>) -> int {
    (level.len() + 1) as int / 2
}

/// The left member of pair `j` of a level.
pub open spec fn pair_left(level: Seq<Seq<char>>, j: int) -> Seq<char>
    recommends
        0 <= j < num_pairs(level),
{
    level[2 * j]
}

/// The right member of pair `j`: the next digest, or the left member again
/// when the level ends on an odd count.
pub open spec fn pair_right(level: Seq<Seq<char>>, j: int) -> Seq<char>
    recommends
        0 <= j < num_pairs(level),
{
    if 2 * j + 1 < level.len() {
        level[2 * j + 1]
    } else {
        level[2 * j]
    }
}

/// The parent digest of pair `j` of a level.
pub open spec fn level_parent(level: Seq<Seq<char>>, j: int) -> Seq<char>
    recommends
        0 <= j < num_pairs(level),
{
    parent_of(pair_left(level, j), pair_right(level, j))
}

/// One aggregation step: the parents of all pairs, in pair order.
pub open spec fn next_level(level: Seq<Seq<char>>) -> Seq<Seq<char>> {
    Seq::new(num_pairs(level) as nat, |j: int| level_parent(level, j))
}

/// The root of a non-empty level: aggregate until one digest remains.
pub open spec fn root_of(level: Seq<Seq<char>>) -> Seq<char>
    recommends
        level.len() >= 1,
    decreases level.len(),
{
    if level.len() <= 1 {
        level[0]
    } else {
        root_of(next_level(level))
    }
}

/// Whether pair `j` of a level contains the digest `h`.
pub open spec fn pair_matches(level: Seq<Seq<char>>, j: int, h: Seq<char>) -> bool
    recommends
        0 <= j < num_pairs(level),
{
    pair_left(level, j) == h || pair_right(level, j) == h
}

/// The first pair at index `j` or later that contains `h`, if any.
pub open spec fn first_match_from(level: Seq<Seq<char>>, h: Seq<char>, j: int) -> Option<int>
    decreases num_pairs(level) - j,
{
    if j < 0 || j >= num_pairs(level) {
        None
    } else if pair_matches(level, j, h) {
        Some(j)
    } else {
        first_match_from(level, h, j + 1)
    }
}

/// The first pair of a level that contains `h`, if any.
pub open spec fn first_match(level: Seq<Seq<char>>, h: Seq<char>) -> Option<int> {
    first_match_from(level, h, 0)
}

/// The sibling step recorded when `h` is found in pair `j`: the opposite
/// member of the pair, tagged with the side it sits on. A digest equal to
/// both members counts as the left one.
pub open spec fn sibling_at(level: Seq<Seq<char>>, j: int, h: Seq<char>) -> SiblingView
    recommends
        0 <= j < num_pairs(level),
        pair_matches(level, j, h),
{
    if pair_left(level, j) == h {
        SiblingView::Right(pair_right(level, j))
    } else {
        SiblingView::Left(pair_left(level, j))
    }
}

/// The inclusion proof for digest `h` in a level, walking pair by pair up to
/// the root: at each level the first pair containing the tracked digest
/// contributes one sibling step, and the tracked digest becomes that pair's
/// parent. `None` when the tracked digest is not found, or the level is
/// empty; a one-digest level yields the empty proof exactly when `h` is that
/// digest.
pub open spec fn proof_for(level: Seq<Seq<char>>, h: Seq<char>) -> Option<Seq<SiblingView>>
    decreases level.len(),
{
    if level.len() == 0 {
        None
    } else if level.len() == 1 {
        if h == level[0] {
            Some(Seq::empty())
        } else {
            None
        }
    } else {
        match first_match(level, h) {
            None => None,
            Some(j) => match proof_for(next_level(level), level_parent(level, j)) {
                None => None,
                Some(rest) => Some(seq![sibling_at(level, j, h)] + rest),
            },
        }
    }
}

/// A successful search starting at `j0` returns a pair at or after `j0`, in
/// range, that contains the digest.
pub proof fn lemma_first_match_from_some(level: Seq<Seq<char>>, h: Seq<char>, j0: int, j: int)
    requires
        first_match_from(level, h, j0) == Some(j),
    ensures
        j0 <= j < num_pairs(level),
        pair_matches(level, j, h),
    decreases num_pairs(level) - j0,
{
    if 0 <= j0 < num_pairs(level) && !pair_matches(level, j0, h) {
        lemma_first_match_from_some(level, h, j0 + 1, j);
    }
}

/// If some pair at or after `j0` contains the digest, the search starting
/// at `j0` succeeds.
pub proof fn lemma_first_match_from_finds(level: Seq<Seq<char>>, h: Seq<char>, j0: int, j: int)
    requires
        0 <= j0 <= j < num_pairs(level),
        pair_matches(level, j, h),
    ensures
        first_match_from(level, h, j0) is Some,
    decreases j - j0,
{
    if j0 < j && !pair_matches(level, j0, h) {
        lemma_first_match_from_finds(level, h, j0 + 1, j);
    }
}

/// A level contains a digest exactly when one of its pairs does.
pub proof fn lemma_contains_iff_pair_match(level: Seq<Seq<char>>, h: Seq<char>)
    ensures
        level.contains(h) <==> exists|j: int|
            0 <= j < num_pairs(level) && pair_matches(level, j, h),
{
    if level.contains(h) {
        let k = choose|k: int| 0 <= k < level.len() && level[k] == h;
        let j = k / 2;
        assert(2 * j == k || 2 * j + 1 == k);
        assert(0 <= j < num_pairs(level) && pair_matches(level, j, h));
    }
    if exists|j: int| 0 <= j < num_pairs(level) && pair_matches(level, j, h) {
        let j = choose|j: int| 0 <= j < num_pairs(level) && pair_matches(level, j, h);
        assert(2 * j < level.len());
        if pair_left(level, j) == h {
            assert(level[2 * j] == h);
        } else {
            assert(2 * j + 1 < level.len() && level[2 * j + 1] == h);
        }
    }
}

/// A digest has an inclusion proof exactly when it is one of the leaf
/// digests the level holds.
pub proof fn lemma_proof_for_some_iff_contains(level: Seq<Seq<char>>, h: Seq<char>)
    ensures
        proof_for(level, h) is Some <==> level.contains(h),
    decreases level.len(),
{
    if level.len() == 0 {
    } else if level.len() == 1 {
        if level.contains(h) {
            let k = choose|k: int| 0 <= k < level.len() && level[k] == h;
            assert(k == 0);
        }
        if h == level[0] {
            assert(level.contains(h));
        }
    } else {
        lemma_contains_iff_pair_match(level, h);
        match first_match(level, h) {
            None => {
                if level.contains(h) {
                    let j = choose|j: int|
                        0 <= j < num_pairs(level) && pair_matches(level, j, h);
                    lemma_first_match_from_finds(level, h, 0, j);
                }
            },
            Some(j) => {
                lemma_first_match_from_some(level, h, 0, j);
                let parent = level_parent(level, j);
                assert(next_level(level)[j] == parent);
                assert(next_level(level).contains(parent));
                lemma_proof_for_some_iff_contains(next_level(level), parent);
            },
        }
    }
}

/// Replaying the proof that the level-walk produces for a digest ends at
/// the root of the level.
pub proof fn lemma_proof_for_folds_to_root(
    level: Seq<Seq<char>>,
    h: Seq<char>,
    path: Seq<SiblingView>,
)
    requires
        level.len() >= 1,
        proof_for(level, h) == Some(path),
    ensures
        fold_proof(h, path) == root_of(level),
    decreases level.len(),
{
    if level.len() == 1 {
        assert(path =~= Seq::<SiblingView>::empty());
    } else {
        match first_match(level, h) {
            None => {
                assert(false);
            },
            Some(j) => {
                lemma_first_match_from_some(level, h, 0, j);
                let parent = level_parent(level, j);
                match proof_for(next_level(level), parent) {
                    None => {
                        assert(false);
                    },
                    Some(rest) => {
                        let sib = sibling_at(level, j, h);
                        assert(path == seq![sib] + rest);
                        assert(path[0] == sib);
                        assert(path.drop_first() =~= rest);
                        assert(fold_proof(h, path) == fold_proof(parent, rest)) by {
                            if pair_left(level, j) == h {
                                assert(parent_of(h, pair_right(level, j)) == parent);
                            } else {
                                assert(pair_right(level, j) == h);
                                assert(parent_of(pair_left(level, j), h) == parent);
                            }
                        }
                        lemma_proof_for_folds_to_root(next_level(level), parent, rest);
                    },
                }
            },
        }
    }
}

/// Replays a proof from a starting digest: each step hashes the sibling on
/// its tagged side with the digest tracked so far.
pub open spec fn fold_proof(h: Seq<char>, path: Seq<SiblingView>) -> Seq<char>
    decreases path.len(),
{
    if path.len() == 0 {
        h
    } else {
        let next = match path[0] {
            SiblingView::Left(s) => parent_of(s, h),
            SiblingView::Right(s) => parent_of(h, s),
        };
        fold_proof(next, path.drop_first())
    }
}

} // verus!
