//! What a partial tree determines: which nodes can be derived from the ones it
//! holds, what they are worth, and where the derivation stops for want of a
//! value.
use crate::hash::compress;
use crate::index::{has_children, left_child, parent, right_child, sibling};
use std::collections::BTreeMap;
use vstd::prelude::*;

verus! {

/// A partial tree: the values of some nodes, by generalized index.
pub type Tree = Map<u128, Seq<u8>>;

/// The partial tree that `map` holds.
pub open spec fn tree_of(map: BTreeMap<u128, [u8; 32]>) -> Tree {
    Map::new(|node: u128| map@.contains_key(node), |node: u128| map@[node]@)
}

/// Each item of `items` is less than those that follow it.
pub open spec fn increasing(items: Seq<u128>) -> bool {
    forall|i: int, j: int| 0 <= i < j < items.len() ==> items[i] < items[j]
}

/// Whether `tree` holds `node` or a node below it.
pub open spec fn covered(tree: Tree, node: u128) -> bool
    decreases u128::MAX - node,
{
    node >= 1 && (tree.contains_key(node) || (has_children(node) && (covered(
        tree,
        left_child(node),
    ) || covered(tree, right_child(node)))))
}

/// The value of `node` as far as `tree` determines it: the value that `tree`
/// holds for it, or else the compression of the values of its two children.
pub open spec fn node_value(tree: Tree, node: u128) -> Seq<u8>
    decreases u128::MAX - node,
{
    if tree.contains_key(node) {
        tree[node]
    } else if has_children(node) {
        compress(node_value(tree, left_child(node)), node_value(tree, right_child(node)))
    } else {
        Seq::empty()
    }
}

/// Whether the value of `node` is missing for a derivation: `tree` holds
/// nothing at or below `node`, but does so for its sibling, and does not hold
/// their parent.
pub open spec fn is_gap(tree: Tree, node: u128) -> bool {
    &&& node >= 2
    &&& !covered(tree, node)
    &&& covered(tree, sibling(node))
    &&& !tree.contains_key(parent(node))
}

/// Whether every parent that `tree` does not hold, but holds something below,
/// can be derived.
pub open spec fn no_gap(tree: Tree) -> bool {
    forall|node: u128| !is_gap(tree, node)
}

/// Whether `node` is the gap of `tree` with the largest index.
pub open spec fn is_first_gap(tree: Tree, node: u128) -> bool {
    &&& is_gap(tree, node)
    &&& forall|other: u128| is_gap(tree, other) ==> other <= node
}

/// Whether `node` has a child of index `bound` or more at or below which `tree`
/// holds a node.
pub open spec fn derived_above(tree: Tree, node: u128, bound: int) -> bool {
    has_children(node) && ((covered(tree, left_child(node)) && left_child(node) >= bound) || (
    covered(tree, right_child(node)) && right_child(node) >= bound))
}

/// `tree` with the parents, as far as it did not hold them, of the nodes of
/// index `bound` or more at or below which it holds a node.
pub open spec fn refreshed_above(tree: Tree, bound: int) -> Tree {
    Map::new(
        |node: u128| tree.contains_key(node) || derived_above(tree, node, bound),
        |node: u128| node_value(tree, node),
    )
}

/// `tree` with every node above one that it holds.
pub open spec fn refreshed(tree: Tree) -> Tree {
    refreshed_above(tree, 2)
}

/// Whether `node` lies above `key` and `tree` holds it and every node between
/// the two.
pub open spec fn cached_above(tree: Tree, key: u128, node: u128) -> bool
    decreases key,
{
    key >= 2 && tree.contains_key(parent(key)) && (node == parent(key) || cached_above(
        tree,
        parent(key),
        node,
    ))
}

/// Whether `node` lies above `key`: it is the parent of `key`, or lies above
/// the parent.
pub open spec fn lies_above(node: u128, key: u128) -> bool
    decreases key,
{
    key >= 2 && (node == parent(key) || lies_above(node, parent(key)))
}

/// Whether `tree` holds the parent of every node that it holds.
pub open spec fn closed_upward(tree: Tree) -> bool {
    forall|node: u128| tree.contains_key(node) && node >= 2 ==> tree.contains_key(parent(node))
}

/// The value of the root when `key` is worth `value` and the nodes above it
/// are derived, each from the one below and from the value that `tree` holds
/// for the sibling of that one.
pub open spec fn climbed(tree: Tree, key: u128, value: Seq<u8>) -> Seq<u8>
    decreases key,
{
    if key <= 1 {
        value
    } else if key % 2 == 0 {
        climbed(tree, parent(key), compress(value, tree[sibling(key)]))
    } else {
        climbed(tree, parent(key), compress(tree[sibling(key)], value))
    }
}

/// Whether `tree` holds `node` and nothing below it.
pub open spec fn is_leaf(tree: Tree, node: u128) -> bool {
    tree.contains_key(node) && !(has_children(node) && (covered(tree, left_child(node)) || covered(
        tree,
        right_child(node),
    )))
}

/// The leaves of `tree`, with their values.
pub open spec fn leaves(tree: Tree) -> Tree {
    Map::new(|node: u128| is_leaf(tree, node), |node: u128| tree[node])
}

/// Whether every node that `tree` holds, and is no leaf of it, is derived: the
/// tree holds both of its children, and its value is the compression of
/// theirs.
pub open spec fn grounded(tree: Tree) -> bool {
    forall|node: u128|
        tree.contains_key(node) && !is_leaf(tree, node) ==> {
            &&& tree.contains_key(left_child(node))
            &&& tree.contains_key(right_child(node))
            &&& tree[node] == compress(tree[left_child(node)], tree[right_child(node)])
        }
}

/// `tree` after `value` was written to `key`: the values that it held above
/// `key`, up to the first node that it did not hold, are gone.
pub open spec fn written(tree: Tree, key: u128, value: Seq<u8>) -> Tree {
    Map::new(
        |node: u128| node == key || (tree.contains_key(node) && !cached_above(tree, key, node)),
        |node: u128|
            if node == key {
                value
            } else {
                tree[node]
            },
    )
}

/// The byte strings that `values` hold.
pub open spec fn byte_views(values: Seq<[u8; 32]>) -> Seq<Seq<u8>> {
    Seq::new(values.len(), |i: int| values[i]@)
}

/// The tree that holds, for each of `keys`, the value at the same place in
/// `values`; of a key that occurs more than once, the last place counts.
pub open spec fn assembled(keys: Seq<u128>, values: Seq<Seq<u8>>) -> Tree
    decreases keys.len(),
{
    if keys.len() == 0 {
        Map::empty()
    } else {
        assembled(keys.drop_last(), values).insert(keys.last(), values[keys.len() - 1])
    }
}

/// Where no key occurs twice, the tree assembled from `keys` and `values`
/// holds the keys, each with the value at its place.
pub proof fn lemma_assembled_distinct(keys: Seq<u128>, values: Seq<Seq<u8>>)
    requires
        keys.no_duplicates(),
        keys.len() <= values.len(),
    ensures
        forall|node: u128| assembled(keys, values).contains_key(node) <==> keys.contains(node),
        forall|i: int|
            #![trigger keys[i]]
            0 <= i < keys.len() ==> assembled(keys, values).contains_key(keys[i]) && assembled(
                keys,
                values,
            )[keys[i]] == values[i],
    decreases keys.len(),
{
    if keys.len() > 0 {
        let front = keys.drop_last();
        lemma_assembled_distinct(front, values);
        assert forall|node: u128| assembled(keys, values).contains_key(node) <==> keys.contains(
            node,
        ) by {
            if keys.contains(node) {
                let i = choose|i: int| 0 <= i < keys.len() && keys[i] == node;
                if i < keys.len() - 1 {
                    assert(front[i] == node);
                }
            }
            if front.contains(node) {
                let i = choose|i: int| 0 <= i < front.len() && front[i] == node;
                assert(keys[i] == node);
            }
        }
        assert forall|i: int| #![trigger keys[i]] 0 <= i < keys.len() implies assembled(
            keys,
            values,
        ).contains_key(keys[i]) && assembled(keys, values)[keys[i]] == values[i] by {
            let whole = assembled(keys, values);
            let part = assembled(front, values);
            assert(whole == part.insert(keys.last(), values[keys.len() - 1]));
            if i < keys.len() - 1 {
                assert(front[i] == keys[i]);
                assert(keys[i] != keys[keys.len() - 1]);
                assert(part.contains_key(front[i]) && part[front[i]] == values[i]);
            } else {
                assert(keys[i] == keys.last());
            }
        }
    }
}

/// What lies above a node has a smaller index.
pub proof fn lemma_cached_above_is_smaller(tree: Tree, key: u128, node: u128)
    requires
        cached_above(tree, key, node),
    ensures
        1 <= node <= key / 2,
    decreases key,
{
    if node != parent(key) {
        lemma_cached_above_is_smaller(tree, parent(key), node);
    }
}

/// The parent of a covered node is covered.
pub proof fn lemma_parent_is_covered(tree: Tree, node: u128)
    requires
        covered(tree, node),
        node >= 2,
    ensures
        covered(tree, parent(node)),
{
    let p = parent(node);
    assert(has_children(p));
    assert(node == left_child(p) || node == right_child(p));
}

/// Where a tree covers a node, it covers the root.
pub proof fn lemma_root_is_covered(tree: Tree, node: u128)
    requires
        covered(tree, node),
    ensures
        covered(tree, 1),
    decreases node,
{
    if node >= 2 {
        lemma_parent_is_covered(tree, node);
        lemma_root_is_covered(tree, parent(node));
    }
}

/// What one tree covers, another covers that covers the nodes of the first.
pub proof fn lemma_covered_wider(small: Tree, large: Tree, node: u128)
    requires
        forall|held: u128| held >= 1 && small.contains_key(held) ==> covered(large, held),
        covered(small, node),
    ensures
        covered(large, node),
    decreases u128::MAX - node,
{
    if !small.contains_key(node) {
        if covered(small, left_child(node)) {
            lemma_covered_wider(small, large, left_child(node));
        } else {
            lemma_covered_wider(small, large, right_child(node));
        }
    }
}

/// A tree that is closed upward holds what it covers.
pub proof fn lemma_closed_holds_covered(tree: Tree, node: u128)
    requires
        closed_upward(tree),
        covered(tree, node),
    ensures
        tree.contains_key(node),
    decreases u128::MAX - node,
{
    if !tree.contains_key(node) {
        let l = left_child(node);
        let r = right_child(node);
        if covered(tree, l) {
            lemma_closed_holds_covered(tree, l);
            assert(parent(l) == node);
        } else {
            lemma_closed_holds_covered(tree, r);
            assert(parent(r) == node);
        }
    }
}

/// Between two bounds that no node of the refreshed tree lies between, the
/// tree covers nothing.
pub proof fn lemma_nothing_covered_between(tree: Tree, low: int, bound: int, node: u128)
    requires
        forall|held: u128|
            refreshed_above(tree, bound).contains_key(held) ==> !(low < held < bound),
        low < node < bound,
    ensures
        !covered(tree, node),
    decreases u128::MAX - node,
{
    if covered(tree, node) {
        assert(!tree.contains_key(node)) by {
            assert(refreshed_above(tree, bound).contains_key(node) ==> !(low < node < bound));
        }
        assert(has_children(node));
        let l = left_child(node);
        let r = right_child(node);
        if covered(tree, l) && l < bound {
            lemma_nothing_covered_between(tree, low, bound, l);
        }
        if covered(tree, r) && r < bound {
            lemma_nothing_covered_between(tree, low, bound, r);
        }
        assert(derived_above(tree, node, bound));
        assert(refreshed_above(tree, bound).contains_key(node));
    }
}

} // verus!
