//! Generalized indices: the nodes of an unbounded perfect binary tree are
//! numbered level by level, the root being 1 and the children of `i` being
//! `2 * i` and `2 * i + 1`.
//!
//! The arithmetic itself is done by the `bonsai` crate. This module states what
//! each of its functions computes, over the spec functions below.
use vstd::prelude::*;

verus! {

/// The index one level above `i`.
pub open spec fn parent(i: u128) -> u128 {
    i / 2
}

/// Whether the children of `i` are indices at all: `i` is a node, and
/// `2 * i + 1` still fits in 128 bits.
pub open spec fn has_children(i: u128) -> bool {
    1 <= i <= u128::MAX / 2
}

/// The left child of `i`, where `has_children(i)`.
pub open spec fn left_child(i: u128) -> u128 {
    (2 * i) as u128
}

/// The right child of `i`, where `has_children(i)`.
pub open spec fn right_child(i: u128) -> u128 {
    (2 * i + 1) as u128
}

/// The other child of the parent of `i`.
pub open spec fn sibling(i: u128) -> u128 {
    if i % 2 == 0 {
        (i + 1) as u128
    } else {
        (i - 1) as u128
    }
}

/// The number of levels between the root and `i`: 0 for the root, and one more
/// than the parent's for every other node.
pub open spec fn level(i: u128) -> nat
    decreases i,
{
    if i <= 1 {
        0
    } else {
        1 + level(i / 2)
    }
}

/// The largest power of two that is at most `i`, which is the first index of
/// the level of `i`; 0 for 0.
pub open spec fn level_start(i: u128) -> u128
    decreases i,
{
    if i <= 1 {
        i
    } else {
        (2 * level_start(i / 2)) as u128
    }
}

/// Where the node `local` of a tree of its own lies in a larger tree, when the
/// root of the former is the node `anchor` of the latter: on the level that is
/// `level(local)` below the anchor, as far from the left edge of the anchor's
/// subtree as `local` is from the left edge of its own level.
pub open spec fn reanchored(anchor: u128, local: u128) -> int {
    anchor * level_start(local) + (local - level_start(local))
}

/// `bonsai::expand` clears the lowest bit of `index` to get the left member of
/// the sibling pair of `index`, adds one for the right member, and halves for
/// the parent. It cannot overflow: the left member is even.
pub assume_specification[ bonsai::expand ](index: u128) -> (family: (u128, u128, u128))
    ensures
        family.0 == index - index % 2,
        family.1 == family.0 + 1,
        family.2 == index / 2,
;

/// `bonsai::children` shifts `index` left by one bit for the left child and
/// sets the lowest bit for the right one. The shift drops the highest bit, so
/// the result is stated only where that bit is clear.
pub assume_specification[ bonsai::children ](index: u128) -> (pair: (u128, u128))
    ensures
        index <= u128::MAX / 2 ==> pair.0 == 2 * index && pair.1 == 2 * index + 1,
;

/// `bonsai::relative_depth` subtracts the position of the highest set bit of
/// `a` from that of `b`. Of zero it takes no logarithm, and the subtraction
/// must not go below zero.
pub assume_specification[ bonsai::relative_depth ](a: u128, b: u128) -> (depth: u128)
    requires
        1 <= a,
        1 <= b,
        level(a) <= level(b),
    ensures
        depth == level(b) - level(a),
;

/// `bonsai::subtree_index_to_general` computes
/// `root * index - (root - 1) * (index - p)`, where `p` is the largest power of
/// two that is at most `index`, and 0 for 0. The product `root * index` has to
/// fit, and `root` must not be 0.
pub assume_specification[ bonsai::subtree_index_to_general ](root: u128, index: u128) -> (general:
    u128)
    requires
        1 <= root,
        root * index <= u128::MAX,
    ensures
        general == root * index - (root - 1) * (index - level_start(index)),
;

/// `level_start(i)` is at most `i`, more than half of it, and 1 at least for
/// a node.
pub proof fn lemma_level_start_bounds(i: u128)
    ensures
        level_start(i) <= i,
        i < 2 * level_start(i) || i == 0,
        1 <= i ==> 1 <= level_start(i),
    decreases i,
{
    if i > 1 {
        lemma_level_start_bounds(i / 2);
    }
}

/// What `bonsai::subtree_index_to_general` computes is `reanchored`.
pub proof fn lemma_reanchored_formula(anchor: u128, local: u128)
    requires
        1 <= anchor,
    ensures
        anchor * local - (anchor - 1) * (local - level_start(local)) == reanchored(anchor, local),
        local <= reanchored(anchor, local) <= anchor * local,
{
    lemma_level_start_bounds(local);
    let p = level_start(local) as int;
    let a = anchor as int;
    let l = local as int;
    assert(a * l - (a - 1) * (l - p) == a * p + (l - p)) by (nonlinear_arith);
    assert(a * p + (l - p) <= a * l) by (nonlinear_arith)
        requires
            1 <= a,
            0 <= p <= l,
    ;
    assert(l <= a * p + (l - p)) by (nonlinear_arith)
        requires
            1 <= a,
            0 <= p <= l,
    ;
}

} // verus!
