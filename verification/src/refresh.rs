//! The derivation of the missing parents, from the largest index down: what
//! holds between two steps of it, and what each step proves.
use crate::hash::compress;
use crate::index::{has_children, left_child, parent, right_child, sibling};
use crate::model::{
    covered, derived_above, is_first_gap, is_gap, lemma_nothing_covered_between, no_gap,
    node_value, refreshed, refreshed_above, Tree,
};
use vstd::multiset::Multiset;
use vstd::prelude::*;

verus! {

/// What holds of a derivation that began with the tree `start` and has dealt
/// with every node of index `bound` or more: `now` is the tree that it has
/// reached, and `pending` are the nodes that it has yet to visit.
pub open spec fn refreshing(start: Tree, now: Tree, pending: Multiset<u128>, bound: int) -> bool {
    &&& 0 <= bound <= u128::MAX + 1
    &&& now == refreshed_above(start, bound)
    &&& forall|node: u128| is_gap(start, node) ==> sibling(node) < bound
    &&& forall|node: u128| #[trigger]
        pending.count(node) == (if now.contains_key(node) && node < bound {
            1nat
        } else {
            0nat
        })
}

/// Whether `key` is the largest node below `bound` that `now` holds.
pub open spec fn next_to_visit(now: Tree, key: u128, bound: int) -> bool {
    &&& now.contains_key(key)
    &&& key < bound
    &&& forall|other: u128| now.contains_key(other) && other < bound ==> other <= key
}

/// A derivation begins with all the nodes of the tree pending.
pub proof fn lemma_refresh_begins(start: Tree, keys: Seq<u128>)
    requires
        keys.no_duplicates(),
        keys.to_set() == start.dom(),
    ensures
        refreshing(start, start, keys.to_multiset(), u128::MAX + 1),
{
    broadcast use vstd::seq_lib::group_to_multiset_ensures;

    assert(start =~= refreshed_above(start, u128::MAX + 1));
    keys.lemma_multiset_has_no_duplicates();
    assert forall|node: u128| #[trigger]
        keys.to_multiset().count(node) == (if start.contains_key(node) && node < u128::MAX + 1 {
            1nat
        } else {
            0nat
        }) by {
        assert(keys.contains(node) <==> start.dom().contains(node));
    }
}

/// What the queue hands out is the next node to visit.
pub proof fn lemma_popped_is_next(
    start: Tree,
    now: Tree,
    pending: Multiset<u128>,
    bound: int,
    key: u128,
)
    requires
        refreshing(start, now, pending, bound),
        pending.count(key) > 0,
        forall|other: u128| pending.count(other) > 0 ==> other <= key,
    ensures
        next_to_visit(now, key, bound),
{
    assert forall|other: u128| now.contains_key(other) && other < bound implies other <= key by {
        assert(pending.count(other) == 1);
    }
}

/// Once nothing is left to visit but the root, every parent has been derived
/// and no gap was found.
pub proof fn lemma_refresh_ends(start: Tree, now: Tree, pending: Multiset<u128>, bound: int)
    requires
        refreshing(start, now, pending, bound),
        forall|other: u128| now.contains_key(other) && other < bound ==> other <= 1,
    ensures
        no_gap(start),
        now == refreshed(start),
{
    assert forall|node: u128| 1 < node < bound implies !covered(start, node) by {
        lemma_nothing_covered_between(start, 1, bound, node);
    }
    assert(now =~= refreshed(start));
    assert forall|node: u128| !is_gap(start, node) by {
        if is_gap(start, node) {
            assert(1 < sibling(node) < bound);
        }
    }
}

/// The node to visit is covered, and the derivation holds its sibling if and
/// only if the tree it began with covers the sibling.
pub proof fn lemma_sibling_of_next(start: Tree, now: Tree, bound: int, key: u128)
    requires
        now == refreshed_above(start, bound),
        next_to_visit(now, key, bound),
        key >= 2,
    ensures
        covered(start, key),
        now.contains_key(sibling(key)) <==> covered(start, sibling(key)),
        forall|node: u128| key < node < bound ==> !covered(start, node),
{
    let s = sibling(key);
    assert forall|node: u128| key < node < bound implies !covered(start, node) by {
        lemma_nothing_covered_between(start, key as int, bound, node);
    }
    if covered(start, s) && !start.contains_key(s) {
        assert(has_children(s));
        let l = left_child(s);
        let r = right_child(s);
        assert(l > key && r > key);
        assert(covered(start, l) || covered(start, r));
        if covered(start, l) {
            assert(!(key < l < bound));
        }
        if covered(start, r) {
            assert(!(key < r < bound));
        }
        assert(derived_above(start, s, bound));
    }
}

/// A node whose parent the derivation holds already is passed over.
pub proof fn lemma_refresh_passes(
    start: Tree,
    now: Tree,
    pending: Multiset<u128>,
    bound: int,
    key: u128,
)
    requires
        refreshing(start, now, pending, bound),
        next_to_visit(now, key, bound),
        key >= 2,
        now.contains_key(parent(key)),
    ensures
        refreshing(start, now, pending.remove(key), key as int),
{
    lemma_sibling_of_next(start, now, bound, key);
    let p = parent(key);
    assert(has_children(p));
    assert(key == left_child(p) || key == right_child(p));
    assert(now =~= refreshed_above(start, key as int)) by {
        assert forall|node: u128| derived_above(start, node, key as int) implies now.contains_key(
            node,
        ) by {
            if !derived_above(start, node, bound) {
                assert(node == p);
            }
        }
    }
    assert forall|node: u128| is_gap(start, node) implies sibling(node) < key by {
        if sibling(node) == key {
            assert(node == sibling(key));
            assert(parent(node) == p);
            assert(derived_above(start, p, bound));
        }
    }
}

/// A node whose parent is missing, and whose sibling the derivation holds,
/// gives the derivation the parent to hold and to visit.
pub proof fn lemma_refresh_derives(
    start: Tree,
    now: Tree,
    pending: Multiset<u128>,
    bound: int,
    key: u128,
)
    requires
        refreshing(start, now, pending, bound),
        next_to_visit(now, key, bound),
        key >= 2,
        !now.contains_key(parent(key)),
        now.contains_key(sibling(key)),
    ensures
        has_children(parent(key)),
        now.contains_key(left_child(parent(key))),
        now.contains_key(right_child(parent(key))),
        refreshing(
            start,
            now.insert(
                parent(key),
                compress(now[left_child(parent(key))], now[right_child(parent(key))]),
            ),
            pending.remove(key).insert(parent(key)),
            key as int,
        ),
{
    lemma_sibling_of_next(start, now, bound, key);
    let p = parent(key);
    let l = left_child(p);
    let r = right_child(p);
    assert(has_children(p));
    assert((key == l && sibling(key) == r) || (key == r && sibling(key) == l));
    let value = compress(now[l], now[r]);
    let next = now.insert(p, value);
    assert(value == node_value(start, p));
    assert(next =~= refreshed_above(start, key as int)) by {
        assert forall|node: u128| derived_above(start, node, key as int) implies next.contains_key(
            node,
        ) by {
            if !derived_above(start, node, bound) {
                assert(node == p);
            }
        }
        assert(derived_above(start, p, key as int));
    }
    assert forall|node: u128| is_gap(start, node) implies sibling(node) < key by {
        if sibling(node) == key {
            assert(node == sibling(key));
        }
    }
}

/// A node whose parent is missing, and whose sibling is missing too, has
/// found the first gap: the sibling.
pub proof fn lemma_refresh_stops(
    start: Tree,
    now: Tree,
    pending: Multiset<u128>,
    bound: int,
    key: u128,
)
    requires
        refreshing(start, now, pending, bound),
        next_to_visit(now, key, bound),
        key >= 2,
        !now.contains_key(parent(key)),
        !now.contains_key(sibling(key)),
    ensures
        is_first_gap(start, sibling(key)),
        now == refreshed_above(start, key + 1),
{
    lemma_sibling_of_next(start, now, bound, key);
    let gap = sibling(key);
    assert(sibling(gap) == key);
    assert(parent(gap) == parent(key));
    assert(is_gap(start, gap));
    assert forall|other: u128| is_gap(start, other) implies other <= gap by {
        let from = sibling(other);
        assert(from < bound);
        assert(from <= key);
        assert(sibling(from) == other);
        if from != key {
            assert(from != gap);
        }
    }
    assert(now =~= refreshed_above(start, key + 1));
}

} // verus!
