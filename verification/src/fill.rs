//! The filling of a tree with default values: what holds between two steps
//! of it, and what each step proves.
use crate::generate::{depth_of, filled_above, filled_value};
use crate::hash::{compress, zero_hash_spec};
use crate::index::{has_children, left_child, level, parent, right_child, sibling};
use crate::model::{
    covered, derived_above, is_gap, lemma_nothing_covered_between, refreshed_above, Tree,
};
use crate::order::{lemma_ordered_keys, ordered_keys};
use vstd::multiset::Multiset;
use vstd::prelude::*;

verus! {

/// Whether no node of `tree` lies below the level `depth`.
pub open spec fn within(tree: Tree, depth: nat) -> bool {
    forall|node: u128| tree.contains_key(node) ==> level(node) <= depth
}

/// What holds of a filling that began with the tree `start` and has dealt
/// with every node of index `bound` or more: `now` is the tree that it has
/// reached, and `pending` are the nodes that it has yet to visit.
pub open spec fn filling(
    start: Tree,
    leaf: Seq<u8>,
    depth: nat,
    now: Tree,
    pending: Multiset<u128>,
    bound: int,
) -> bool {
    &&& 0 <= bound <= u128::MAX + 1
    &&& within(start, depth)
    &&& now == filled_above(start, leaf, depth, bound)
    &&& forall|node: u128| #[trigger]
        pending.count(node) == (if now.contains_key(node) && node < bound && !is_gap(start, node) {
            1nat
        } else {
            0nat
        })
}

/// Whether `key` is the largest node below `bound` that `now` holds and that
/// was not filled in.
pub open spec fn next_to_fill(start: Tree, now: Tree, key: u128, bound: int) -> bool {
    &&& now.contains_key(key)
    &&& key < bound
    &&& !is_gap(start, key)
    &&& forall|other: u128|
        now.contains_key(other) && other < bound && !is_gap(start, other) ==> other <= key
}

/// A larger index is not on a higher level.
pub proof fn lemma_level_grows(low: u128, high: u128)
    requires
        low <= high,
    ensures
        level(low) <= level(high),
    decreases high,
{
    if low > 1 {
        lemma_level_grows(low / 2, high / 2);
    }
}

/// No node of a tree lies below the level of its largest index.
pub proof fn lemma_within_depth(tree: Tree)
    requires
        tree.dom().finite(),
    ensures
        within(tree, depth_of(tree)),
{
    lemma_ordered_keys(tree);
    let keys = ordered_keys(tree);
    assert forall|node: u128| tree.contains_key(node) implies level(node) <= depth_of(tree) by {
        assert(keys.contains(node));
        let i = choose|i: int| 0 <= i < keys.len() && keys[i] == node;
        if i < keys.len() - 1 {
            assert(keys[i] < keys[keys.len() - 1]);
        }
        lemma_level_grows(node, keys.last());
    }
}

/// What a tree covers does not lie below its lowest nodes.
pub proof fn lemma_covered_within(tree: Tree, depth: nat, node: u128)
    requires
        within(tree, depth),
        covered(tree, node),
    ensures
        level(node) <= depth,
    decreases u128::MAX - node,
{
    if !tree.contains_key(node) {
        let l = left_child(node);
        let r = right_child(node);
        assert(level(l) == level(node) + 1);
        assert(level(r) == level(node) + 1);
        if covered(tree, l) {
            lemma_covered_within(tree, depth, l);
        } else {
            lemma_covered_within(tree, depth, r);
        }
    }
}

/// A filling begins with all the nodes of the tree pending.
pub proof fn lemma_fill_begins(start: Tree, leaf: Seq<u8>, depth: nat, keys: Seq<u128>)
    requires
        keys.no_duplicates(),
        keys.to_set() == start.dom(),
        within(start, depth),
    ensures
        filling(start, leaf, depth, start, keys.to_multiset(), u128::MAX + 1),
{
    broadcast use vstd::seq_lib::group_to_multiset_ensures;

    assert(start =~= filled_above(start, leaf, depth, u128::MAX + 1));
    keys.lemma_multiset_has_no_duplicates();
    assert forall|node: u128| #[trigger]
        keys.to_multiset().count(node) == (if start.contains_key(node) && node < u128::MAX + 1
            && !is_gap(start, node) {
            1nat
        } else {
            0nat
        }) by {
        assert(keys.contains(node) <==> start.dom().contains(node));
    }
}

/// What the queue hands out is the next node to visit.
pub proof fn lemma_fill_popped_is_next(
    start: Tree,
    leaf: Seq<u8>,
    depth: nat,
    now: Tree,
    pending: Multiset<u128>,
    bound: int,
    key: u128,
)
    requires
        filling(start, leaf, depth, now, pending, bound),
        pending.count(key) > 0,
        forall|other: u128| pending.count(other) > 0 ==> other <= key,
    ensures
        next_to_fill(start, now, key, bound),
{
    assert forall|other: u128|
        now.contains_key(other) && other < bound && !is_gap(start, other) implies other
        <= key by {
        assert(pending.count(other) == 1);
    }
}

/// Between the node to visit and the bound the tree covers nothing; the node
/// itself is covered, and the filling holds its sibling if and only if the
/// tree it began with covers the sibling.
pub proof fn lemma_fill_next(
    start: Tree,
    leaf: Seq<u8>,
    depth: nat,
    now: Tree,
    bound: int,
    key: u128,
)
    requires
        now == filled_above(start, leaf, depth, bound),
        next_to_fill(start, now, key, bound),
    ensures
        forall|node: u128| key < node < bound ==> !covered(start, node),
        key >= 2 ==> covered(start, key) && (now.contains_key(sibling(key)) <==> covered(
            start,
            sibling(key),
        )),
{
    assert forall|node: u128| key < node < bound implies !covered(start, node) by {
        assert forall|held: u128| refreshed_above(start, bound).contains_key(held) implies !(key
            < held < bound) by {
            assert(now.contains_key(held));
            if key < held < bound {
                assert(covered(start, held));
                assert(!is_gap(start, held));
            }
        }
        lemma_nothing_covered_between(start, key as int, bound, node);
    }
    if key >= 2 {
        let s = sibling(key);
        assert(sibling(s) == key);
        if covered(start, s) && !start.contains_key(s) {
            let l = left_child(s);
            let r = right_child(s);
            assert(l > key && r > key);
            if covered(start, l) {
                assert(!(key < l < bound));
            }
            if covered(start, r) {
                assert(!(key < r < bound));
            }
            assert(derived_above(start, s, bound));
        }
    }
}

/// Once nothing is left to visit but the root, the tree is filled.
pub proof fn lemma_fill_ends(
    start: Tree,
    leaf: Seq<u8>,
    depth: nat,
    now: Tree,
    pending: Multiset<u128>,
    bound: int,
)
    requires
        filling(start, leaf, depth, now, pending, bound),
        forall|other: u128|
            now.contains_key(other) && other < bound && !is_gap(start, other) ==> other <= 1,
    ensures
        now == filled_above(start, leaf, depth, 2),
{
    assert forall|node: u128| 1 < node < bound implies !covered(start, node) by {
        assert forall|held: u128| refreshed_above(start, bound).contains_key(held) implies !(1
            < held < bound) by {
            assert(now.contains_key(held));
            if 1 < held < bound {
                assert(covered(start, held));
                assert(!is_gap(start, held));
            }
        }
        lemma_nothing_covered_between(start, 1, bound, node);
    }
    assert forall|node: u128| is_gap(start, node) implies sibling(node) >= bound by {
        assert(1 < sibling(node));
    }
    assert(now =~= filled_above(start, leaf, depth, 2));
}

/// A node whose parent the filling holds already is passed over.
pub proof fn lemma_fill_passes(
    start: Tree,
    leaf: Seq<u8>,
    depth: nat,
    now: Tree,
    pending: Multiset<u128>,
    bound: int,
    key: u128,
)
    requires
        filling(start, leaf, depth, now, pending, bound),
        next_to_fill(start, now, key, bound),
        key >= 2,
        now.contains_key(parent(key)),
    ensures
        filling(start, leaf, depth, now, pending.remove(key), key as int),
{
    lemma_fill_next(start, leaf, depth, now, bound, key);
    let p = parent(key);
    let s = sibling(key);
    assert(has_children(p));
    assert(key == left_child(p) || key == right_child(p));
    assert(s == left_child(p) || s == right_child(p));
    assert(covered(start, p));
    assert(sibling(s) == key && parent(s) == p);
    assert(now =~= filled_above(start, leaf, depth, key as int)) by {
        assert forall|node: u128| derived_above(start, node, key as int) implies now.contains_key(
            node,
        ) by {
            if !derived_above(start, node, bound) {
                assert(node == p);
            }
        }
        assert forall|node: u128|
            is_gap(start, node) && sibling(node) >= key implies now.contains_key(node) by {
            if sibling(node) < bound {
                assert(sibling(node) == key);
                assert(node == s);
                assert(derived_above(start, p, bound));
            }
        }
    }
}

/// A node whose parent is missing gives the filling the parent to hold and to
/// visit, after its sibling, if that is missing too, was filled in.
pub proof fn lemma_fill_derives(
    start: Tree,
    leaf: Seq<u8>,
    depth: nat,
    now: Tree,
    pending: Multiset<u128>,
    bound: int,
    key: u128,
)
    requires
        filling(start, leaf, depth, now, pending, bound),
        next_to_fill(start, now, key, bound),
        key >= 2,
        !now.contains_key(parent(key)),
    ensures
        has_children(parent(key)),
        level(sibling(key)) <= depth,
        ({
            let other = sibling(key);
            let above = parent(key);
            let mid = if now.contains_key(other) {
                now
            } else {
                now.insert(other, zero_hash_spec(leaf, (depth - level(other)) as nat))
            };
            &&& mid.contains_key(left_child(above))
            &&& mid.contains_key(right_child(above))
            &&& filling(
                start,
                leaf,
                depth,
                mid.insert(above, compress(mid[left_child(above)], mid[right_child(above)])),
                pending.remove(key).insert(above),
                key as int,
            )
        }),
{
    lemma_fill_next(start, leaf, depth, now, bound, key);
    lemma_covered_within(start, depth, key);
    let p = parent(key);
    let s = sibling(key);
    let l = left_child(p);
    let r = right_child(p);
    assert(has_children(p));
    assert((key == l && s == r) || (key == r && s == l));
    assert(sibling(s) == key && parent(s) == p);
    assert(level(s) == level(key));
    assert(covered(start, p));
    let mid = if now.contains_key(s) {
        now
    } else {
        now.insert(s, zero_hash_spec(leaf, (depth - level(s)) as nat))
    };
    assert(mid[s] == filled_value(start, leaf, depth, s));
    assert(mid[key] == filled_value(start, leaf, depth, key));
    let value = compress(mid[l], mid[r]);
    assert(value == filled_value(start, leaf, depth, p));
    let next = mid.insert(p, value);
    assert(next =~= filled_above(start, leaf, depth, key as int)) by {
        assert forall|node: u128| derived_above(start, node, key as int) implies next.contains_key(
            node,
        ) by {
            if !derived_above(start, node, bound) {
                assert(node == p);
            }
        }
        assert forall|node: u128|
            is_gap(start, node) && sibling(node) >= key implies next.contains_key(node) by {
            if sibling(node) < bound {
                assert(sibling(node) == key);
                assert(node == s);
            }
        }
        assert(derived_above(start, p, key as int));
        if !now.contains_key(s) {
            assert(is_gap(start, s));
        }
    }
}

} // verus!
