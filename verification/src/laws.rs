//! What holds of a tree across several calls of `root` and `set`.
use crate::hash::compress;
use crate::index::{has_children, left_child, parent, right_child, sibling};
use crate::model::{
    cached_above, climbed, closed_upward, covered, derived_above, grounded, is_first_gap, is_gap,
    is_leaf, leaves, lemma_closed_holds_covered, lemma_covered_wider, lemma_parent_is_covered,
    lemma_root_is_covered, lies_above, no_gap, node_value, refreshed, refreshed_above, written,
    Tree,
};
use vstd::prelude::*;

verus! {

/// Deriving parents does not change what a tree covers.
proof fn lemma_refreshed_covers_same(tree: Tree, bound: int, node: u128)
    ensures
        covered(refreshed_above(tree, bound), node) == covered(tree, node),
{
    let after = refreshed_above(tree, bound);
    if covered(after, node) {
        lemma_covered_wider(after, tree, node);
    }
    if covered(tree, node) {
        lemma_covered_wider(tree, after, node);
    }
}

/// Deriving parents does not change what the nodes are worth.
proof fn lemma_refreshed_values_same(tree: Tree, bound: int, node: u128)
    ensures
        node_value(refreshed_above(tree, bound), node) == node_value(tree, node),
    decreases u128::MAX - node,
{
    let after = refreshed_above(tree, bound);
    if !after.contains_key(node) && has_children(node) {
        lemma_refreshed_values_same(tree, bound, left_child(node));
        lemma_refreshed_values_same(tree, bound, right_child(node));
    }
}

/// A tree whose parents were derived down to a bound gains nothing when they
/// are derived down to that bound again.
proof fn lemma_refreshed_again(tree: Tree, bound: int)
    ensures
        refreshed_above(refreshed_above(tree, bound), bound) == refreshed_above(tree, bound),
{
    let after = refreshed_above(tree, bound);
    let again = refreshed_above(after, bound);
    assert forall|node: u128| again.contains_key(node) == after.contains_key(node) by {
        if has_children(node) {
            lemma_refreshed_covers_same(tree, bound, left_child(node));
            lemma_refreshed_covers_same(tree, bound, right_child(node));
        }
    }
    assert forall|node: u128| again.contains_key(node) implies again[node] == after[node] by {
        lemma_refreshed_values_same(tree, bound, node);
    }
    assert(again =~= after);
}

/// A gap of a tree whose parents were derived is a gap of the tree as it was.
proof fn lemma_refreshed_gap_was_gap(tree: Tree, bound: int, node: u128)
    requires
        is_gap(refreshed_above(tree, bound), node),
    ensures
        is_gap(tree, node),
{
    lemma_refreshed_covers_same(tree, bound, node);
    lemma_refreshed_covers_same(tree, bound, sibling(node));
}

/// The root a second time, where the first time gave a value: no node is
/// added to the tree, and the value of the root is the same.
pub proof fn lemma_root_again_is_same(tree: Tree)
    requires
        no_gap(tree),
    ensures
        no_gap(refreshed(tree)),
        refreshed(refreshed(tree)) == refreshed(tree),
        covered(refreshed(tree), 1) == covered(tree, 1),
        node_value(refreshed(tree), 1) == node_value(tree, 1),
{
    let after = refreshed(tree);
    assert forall|node: u128| !is_gap(after, node) by {
        if is_gap(after, node) {
            lemma_refreshed_gap_was_gap(tree, 2, node);
        }
    }
    lemma_refreshed_again(tree, 2);
    lemma_refreshed_covers_same(tree, 2, 1);
    lemma_refreshed_values_same(tree, 2, 1);
}

/// The root a second time, where the first time named a missing node: no node
/// is added to the tree, and the same node is named.
pub proof fn lemma_root_again_is_missing(tree: Tree, gap: u128)
    requires
        is_first_gap(tree, gap),
    ensures
        is_first_gap(refreshed_above(tree, sibling(gap) + 1), gap),
        refreshed_above(refreshed_above(tree, sibling(gap) + 1), sibling(gap) + 1)
            == refreshed_above(tree, sibling(gap) + 1),
{
    let bound = sibling(gap) + 1;
    let after = refreshed_above(tree, bound);
    lemma_refreshed_again(tree, bound);
    lemma_refreshed_covers_same(tree, bound, gap);
    lemma_refreshed_covers_same(tree, bound, sibling(gap));
    let above = parent(gap);
    assert(has_children(above));
    assert(gap == left_child(above) || gap == right_child(above));
    assert(sibling(gap) == left_child(above) || sibling(gap) == right_child(above));
    assert(!derived_above(tree, above, bound));
    assert(is_gap(after, gap));
    assert forall|other: u128| is_gap(after, other) implies other <= gap by {
        lemma_refreshed_gap_was_gap(tree, bound, other);
    }
}

/// Taking a node out of a tree leaves every other node covered that was, if
/// the tree had no gap and did not hold the parent of the node.
proof fn lemma_still_covered(tree: Tree, gone: u128, node: u128)
    requires
        no_gap(tree),
        tree.contains_key(gone),
        gone >= 2,
        !tree.contains_key(parent(gone)),
        covered(tree, node),
        node != gone,
    ensures
        covered(tree.remove(gone), node),
    decreases u128::MAX - node,
{
    let rest = tree.remove(gone);
    if !tree.contains_key(node) {
        let l = left_child(node);
        let r = right_child(node);
        if l == gone || r == gone {
            let other = sibling(gone);
            assert(other == l || other == r);
            assert(!is_gap(tree, other));
            assert(sibling(other) == gone);
            assert(parent(other) == parent(gone));
            assert(covered(tree, other));
            lemma_still_covered(tree, gone, other);
        } else if covered(tree, l) {
            lemma_still_covered(tree, gone, l);
        } else {
            lemma_still_covered(tree, gone, r);
        }
    }
}

/// Where a tree has no gap, taking out a value that was needed makes the node
/// of that value the one that is named as missing: a node below which the
/// tree holds nothing, and whose parent it does not hold.
pub proof fn lemma_missing_value_is_named(tree: Tree, node: u128)
    requires
        no_gap(tree),
        tree.contains_key(node),
        node >= 2,
        !tree.contains_key(parent(node)),
        has_children(node) ==> !covered(tree, left_child(node)) && !covered(
            tree,
            right_child(node),
        ),
    ensures
        is_first_gap(tree.remove(node), node),
{
    let rest = tree.remove(node);
    let other = sibling(node);
    assert(covered(tree, other)) by {
        assert(!is_gap(tree, other));
        assert(sibling(other) == node);
        assert(parent(other) == parent(node));
    }
    lemma_still_covered(tree, node, other);
    assert(!covered(rest, node)) by {
        if has_children(node) {
            if covered(rest, left_child(node)) {
                lemma_covered_wider(rest, tree, left_child(node));
            }
            if covered(rest, right_child(node)) {
                lemma_covered_wider(rest, tree, right_child(node));
            }
        }
    }
    assert(is_gap(rest, node));
    assert forall|gap: u128| is_gap(rest, gap) implies gap <= node by {
        if gap != node {
            if covered(tree, gap) {
                lemma_still_covered(tree, node, gap);
            }
            lemma_covered_wider(rest, tree, sibling(gap));
            if parent(gap) == node {
                assert(has_children(node));
                assert(sibling(gap) == left_child(node) || sibling(gap) == right_child(node));
            }
            assert(is_gap(tree, gap));
        }
    }
}

/// What was derived when the root of a tree was asked for is the compression
/// of its children: the tree holds both of them from then on, and the derived
/// value is that of compressing theirs. This holds of the tree that a root was
/// found in, where `bound` is 2, and of the one that a node was found missing
/// in, where `bound` is the index after that of the sibling of that node: no
/// gap has a sibling of the index `bound` or more.
pub proof fn lemma_refreshed_is_derived(tree: Tree, bound: int, node: u128)
    requires
        forall|gap: u128| is_gap(tree, gap) ==> sibling(gap) < bound,
        refreshed_above(tree, bound).contains_key(node),
        !tree.contains_key(node),
    ensures
        has_children(node),
        refreshed_above(tree, bound).contains_key(left_child(node)),
        refreshed_above(tree, bound).contains_key(right_child(node)),
        refreshed_above(tree, bound)[node] == compress(
            refreshed_above(tree, bound)[left_child(node)],
            refreshed_above(tree, bound)[right_child(node)],
        ),
{
    let l = left_child(node);
    let r = right_child(node);
    assert(sibling(l) == r && sibling(r) == l);
    assert(parent(l) == node && parent(r) == node);
    assert(covered(tree, l) && covered(tree, r)) by {
        if !covered(tree, l) {
            assert(is_gap(tree, l));
        }
        if !covered(tree, r) {
            assert(is_gap(tree, r));
        }
    }
    if !tree.contains_key(l) {
        assert(left_child(l) >= bound && right_child(l) >= bound);
    }
    if !tree.contains_key(r) {
        assert(left_child(r) >= bound && right_child(r) >= bound);
    }
}

/// The first gap of a tree is the only one whose sibling has the index of the
/// sibling of that gap or a larger one.
pub proof fn lemma_first_gap_bounds(tree: Tree, first: u128, gap: u128)
    requires
        is_first_gap(tree, first),
        is_gap(tree, gap),
    ensures
        sibling(gap) < sibling(first) + 1,
{
    assert(gap <= first);
}

/// Once the root of a tree was found, the tree holds the parent of every node
/// that it holds.
pub proof fn lemma_refreshed_is_closed(tree: Tree)
    ensures
        closed_upward(refreshed(tree)),
{
    assert forall|node: u128| refreshed(tree).contains_key(node) && node >= 2 implies refreshed(
        tree,
    ).contains_key(parent(node)) by {
        let above = parent(node);
        assert(has_children(above));
        assert(node == left_child(above) || node == right_child(above));
    }
}

/// What lies above a node is at most half of it, and no two such nodes are
/// siblings.
proof fn lemma_lies_above(node: u128, key: u128)
    requires
        lies_above(node, key),
    ensures
        1 <= node <= key / 2,
        !lies_above(sibling(node), key),
        sibling(node) != key,
    decreases key,
{
    let above = parent(key);
    if node != above {
        lemma_lies_above(node, above);
    }
    if lies_above(sibling(node), above) {
        lemma_lies_above(sibling(node), above);
    }
}

/// In a tree that is closed upward, every node above one that it holds is
/// cached above it.
proof fn lemma_all_cached_above(tree: Tree, key: u128, node: u128)
    requires
        closed_upward(tree),
        tree.contains_key(key),
    ensures
        cached_above(tree, key, node) == lies_above(node, key),
    decreases key,
{
    if key >= 2 {
        lemma_all_cached_above(tree, parent(key), node);
    }
}

/// From a node on the way up from a written node to the root, the root is
/// reached by compressing with the siblings on the way.
proof fn lemma_climb(tree: Tree, after: Tree, key: u128, at: u128, value: Seq<u8>)
    requires
        at == key || lies_above(at, key),
        at >= 1,
        node_value(after, at) == value,
        forall|node: u128| lies_above(node, key) ==> !after.contains_key(node),
        forall|node: u128|
            #![trigger sibling(node)]
            (node == key || lies_above(node, key)) && node >= 2 ==> after.contains_key(
                sibling(node),
            ) && after[sibling(node)] == tree[sibling(node)],
    ensures
        node_value(after, 1) == climbed(tree, at, value),
    decreases at,
{
    if at >= 2 {
        let above = parent(at);
        let other = sibling(at);
        if at != key {
            lemma_above_the_above(at, key);
        }
        assert(lies_above(above, key));
        assert(has_children(above));
        assert(after.contains_key(other) && after[other] == tree[other]);
        assert(node_value(after, other) == tree[other]);
        assert(!after.contains_key(above));
        if at % 2 == 0 {
            assert(at == left_child(above) && other == right_child(above));
            assert(node_value(after, above) == compress(value, tree[other]));
            lemma_climb(tree, after, key, above, compress(value, tree[other]));
        } else {
            assert(at == right_child(above) && other == left_child(above));
            assert(node_value(after, above) == compress(tree[other], value));
            lemma_climb(tree, after, key, above, compress(tree[other], value));
        }
    }
}

/// A new value reaches the root. After the root of a tree was found, which
/// leaves the tree closed upward, writing `value` to a node `key` that the tree
/// holds forgets every value above `key`; the root is then found again, and is
/// what `value` gives when it is compressed, level by level, with the values
/// of the siblings on the way up. This holds where the tree holds these
/// siblings: without one of them the root cannot be derived again.
pub proof fn lemma_write_reaches_root(tree: Tree, key: u128, value: Seq<u8>)
    requires
        closed_upward(tree),
        tree.contains_key(key),
        key >= 1,
        forall|node: u128|
            #![trigger sibling(node)]
            (node == key || lies_above(node, key)) && node >= 2 ==> tree.contains_key(
                sibling(node),
            ),
    ensures
        no_gap(written(tree, key, value)),
        covered(written(tree, key, value), 1),
        node_value(written(tree, key, value), 1) == climbed(tree, key, value),
{
    let after = written(tree, key, value);
    assert forall|node: u128| lies_above(node, key) implies !after.contains_key(node) by {
        lemma_all_cached_above(tree, key, node);
        lemma_lies_above(node, key);
    }
    assert forall|node: u128|
        #![trigger sibling(node)]
        (node == key || lies_above(node, key)) && node >= 2 implies after.contains_key(
        sibling(node),
    ) && after[sibling(node)] == tree[sibling(node)] by {
        let other = sibling(node);
        lemma_all_cached_above(tree, key, other);
        if node == key {
            if lies_above(other, key) {
                lemma_lies_above(other, key);
            }
        } else {
            lemma_lies_above(node, key);
        }
    }
    lemma_climb(tree, after, key, key, value);
    assert(covered(after, key));
    lemma_root_is_covered(after, key);
    assert forall|gap: u128| !is_gap(after, gap) by {
        if is_gap(after, gap) {
            let above = parent(gap);
            let other = sibling(gap);
            assert(has_children(above));
            if tree.contains_key(above) {
                lemma_all_cached_above(tree, key, above);
                assert(lies_above(above, key));
                lemma_on_the_way(above, key);
                let below = if left_child(above) == key || lies_above(left_child(above), key) {
                    left_child(above)
                } else {
                    right_child(above)
                };
                assert(gap == below || gap == sibling(below));
                assert(after.contains_key(sibling(below)));
                lemma_covered_below(after, key, below);
            } else {
                lemma_covered_wider(after, tree, other);
                lemma_closed_holds_covered(tree, other);
                assert(parent(other) == above);
            }
        }
    }
}

/// The parent of a node above `key` lies above `key` too.
proof fn lemma_above_the_above(node: u128, key: u128)
    requires
        lies_above(node, key),
        node >= 2,
    ensures
        lies_above(parent(node), key),
    decreases key,
{
    if node != parent(key) {
        lemma_above_the_above(node, parent(key));
    } else {
        assert(lies_above(parent(node), node));
    }
}

/// A node above `key` has a child that is `key` or lies above it.
proof fn lemma_on_the_way(above: u128, key: u128)
    requires
        lies_above(above, key),
    ensures
        has_children(above),
        left_child(above) == key || lies_above(left_child(above), key) || right_child(above) == key
            || lies_above(right_child(above), key),
    decreases key,
{
    let next = parent(key);
    assert(has_children(next));
    assert(key == left_child(next) || key == right_child(next));
    if above != next {
        lemma_on_the_way(above, next);
    }
}

/// A tree that holds `key` covers `key` and what lies above it.
proof fn lemma_covered_below(tree: Tree, key: u128, node: u128)
    requires
        tree.contains_key(key),
        key >= 1,
        node == key || lies_above(node, key),
    ensures
        covered(tree, node),
    decreases key,
{
    if node != key {
        let next = parent(key);
        lemma_parent_is_covered(tree, key);
        if node != next {
            lemma_covered_above(tree, next, node);
        }
    }
}

/// A tree that covers `key` covers what lies above it.
proof fn lemma_covered_above(tree: Tree, key: u128, node: u128)
    requires
        covered(tree, key),
        lies_above(node, key),
    ensures
        covered(tree, node),
    decreases key,
{
    let next = parent(key);
    lemma_parent_is_covered(tree, key);
    if node != next {
        lemma_covered_above(tree, next, node);
    }
}

/// A tree that holds leaves only is grounded.
pub proof fn lemma_leaves_are_grounded(tree: Tree)
    requires
        forall|node: u128| tree.contains_key(node) ==> is_leaf(tree, node),
    ensures
        grounded(tree),
        leaves(tree) == tree,
{
    assert(leaves(tree) =~= tree);
}

/// Deriving parents keeps a tree grounded, and keeps its leaves.
pub proof fn lemma_refreshed_is_grounded(tree: Tree, bound: int)
    requires
        grounded(tree),
        forall|gap: u128| is_gap(tree, gap) ==> sibling(gap) < bound,
    ensures
        grounded(refreshed_above(tree, bound)),
        leaves(refreshed_above(tree, bound)) == leaves(tree),
{
    let after = refreshed_above(tree, bound);
    assert forall|node: u128| is_leaf(after, node) == is_leaf(tree, node) by {
        if has_children(node) {
            lemma_refreshed_covers_same(tree, bound, left_child(node));
            lemma_refreshed_covers_same(tree, bound, right_child(node));
        }
    }
    assert(leaves(after) =~= leaves(tree));
    assert forall|node: u128| after.contains_key(node) && !is_leaf(after, node) implies {
        &&& after.contains_key(left_child(node))
        &&& after.contains_key(right_child(node))
        &&& after[node] == compress(after[left_child(node)], after[right_child(node)])
    } by {
        if !tree.contains_key(node) {
            lemma_refreshed_is_derived(tree, bound, node);
        }
    }
}

/// Writing to a leaf keeps what a tree covers.
proof fn lemma_written_covers_same(tree: Tree, key: u128, value: Seq<u8>, node: u128)
    requires
        tree.contains_key(key),
        key >= 1,
    ensures
        covered(written(tree, key, value), node) == covered(tree, node),
    decreases u128::MAX - node,
{
    let after = written(tree, key, value);
    if covered(after, node) {
        lemma_covered_wider(after, tree, node);
    }
    if covered(tree, node) && !covered(after, node) {
        if tree.contains_key(node) {
            lemma_cached_is_above(tree, key, node);
            lemma_covered_below(after, key, node);
        } else {
            lemma_written_covers_same(tree, key, value, left_child(node));
            lemma_written_covers_same(tree, key, value, right_child(node));
        }
    }
}

/// What is cached above a node lies above it.
proof fn lemma_cached_is_above(tree: Tree, key: u128, node: u128)
    requires
        cached_above(tree, key, node),
    ensures
        lies_above(node, key),
    decreases key,
{
    if node != parent(key) {
        lemma_cached_is_above(tree, parent(key), node);
    }
}

/// Where a node is cached above another, so is its parent, if the tree holds
/// it.
proof fn lemma_cached_goes_on(tree: Tree, key: u128, node: u128)
    requires
        cached_above(tree, key, node) || node == key,
        node >= 2,
        tree.contains_key(parent(node)),
    ensures
        cached_above(tree, key, parent(node)),
    decreases key,
{
    if node != key {
        if node != parent(key) {
            lemma_cached_goes_on(tree, parent(key), node);
        } else {
            assert(cached_above(tree, node, parent(node)));
        }
    }
}

/// Writing to a leaf keeps a tree grounded: what was derived from the old
/// value is forgotten, and nothing else changes. The leaves are the same but
/// for the new value.
pub proof fn lemma_written_is_grounded(tree: Tree, key: u128, value: Seq<u8>)
    requires
        grounded(tree),
        is_leaf(tree, key),
        key >= 1,
    ensures
        grounded(written(tree, key, value)),
        leaves(written(tree, key, value)) == leaves(tree).insert(key, value),
{
    let after = written(tree, key, value);
    assert forall|node: u128| is_leaf(after, node) == is_leaf(tree, node) by {
        if has_children(node) {
            lemma_written_covers_same(tree, key, value, left_child(node));
            lemma_written_covers_same(tree, key, value, right_child(node));
        }
        if cached_above(tree, key, node) {
            lemma_cached_is_above(tree, key, node);
            lemma_on_the_way(node, key);
            if left_child(node) == key || lies_above(left_child(node), key) {
                lemma_covered_below(tree, key, left_child(node));
            } else {
                lemma_covered_below(tree, key, right_child(node));
            }
        }
    }
    assert(leaves(after) =~= leaves(tree).insert(key, value));
    assert forall|node: u128| after.contains_key(node) && !is_leaf(after, node) implies {
        &&& after.contains_key(left_child(node))
        &&& after.contains_key(right_child(node))
        &&& after[node] == compress(after[left_child(node)], after[right_child(node)])
    } by {
        let l = left_child(node);
        let r = right_child(node);
        assert(has_children(node));
        assert(parent(l) == node && parent(r) == node);
        if l == key || cached_above(tree, key, l) {
            lemma_cached_goes_on(tree, key, l);
        }
        if r == key || cached_above(tree, key, r) {
            lemma_cached_goes_on(tree, key, r);
        }
    }
}

/// In a grounded tree every node is worth what the leaves alone make it
/// worth.
pub proof fn lemma_grounded_value(tree: Tree, node: u128)
    requires
        grounded(tree),
    ensures
        node_value(tree, node) == node_value(leaves(tree), node),
    decreases u128::MAX - node,
{
    if has_children(node) && !is_leaf(tree, node) {
        lemma_grounded_value(tree, left_child(node));
        lemma_grounded_value(tree, right_child(node));
    }
}

} // verus!
