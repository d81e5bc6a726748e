//! The nodes of a tree in ascending order.
use crate::model::{increasing, Tree};
use vstd::prelude::*;
use vstd::relations::total_ordering;

verus! {

/// The order of the indices.
pub open spec fn at_most() -> spec_fn(u128, u128) -> bool {
    |a: u128, b: u128| a <= b
}

/// The nodes that `tree` holds, in ascending order.
pub open spec fn ordered_keys(tree: Tree) -> Seq<u128> {
    tree.dom().to_sorted_seq(at_most())
}

/// The values that `tree` holds for `keys`, in the order of `keys`.
pub open spec fn values_at(tree: Tree, keys: Seq<u128>) -> Seq<Seq<u8>> {
    Seq::new(keys.len(), |i: int| tree[keys[i]])
}

/// The sequence that a finite set is turned into holds no item twice.
proof fn lemma_to_seq_no_duplicates(set: Set<u128>)
    requires
        set.finite(),
    ensures
        set.to_seq().no_duplicates(),
        set.to_seq().to_set() == set,
    decreases set.len(),
{
    broadcast use vstd::set::group_set_axioms;

    set.lemma_to_seq_to_set_id();
    if set.len() != 0 {
        let first = set.choose();
        let rest = set.remove(first).to_seq();
        lemma_to_seq_no_duplicates(set.remove(first));
        assert(!rest.contains(first)) by {
            assert(rest.to_set().contains(first) == rest.contains(first));
        }
        let all = Seq::<u128>::empty().push(first) + rest;
        assert(set.to_seq() == all);
        assert forall|i: int, j: int|
            0 <= i < all.len() && 0 <= j < all.len() && i != j implies all[i] != all[j] by {
            if i > 0 {
                assert(all[i] == rest[i - 1]);
            }
            if j > 0 {
                assert(all[j] == rest[j - 1]);
            }
        }
    }
}

/// Two increasing sequences of the same items are the same sequence.
pub proof fn lemma_increasing_unique(a: Seq<u128>, b: Seq<u128>)
    requires
        increasing(a),
        increasing(b),
        forall|item: u128| a.contains(item) <==> b.contains(item),
    ensures
        a == b,
    decreases a.len(),
{
    if a.len() == 0 {
        if b.len() > 0 {
            assert(b.contains(b[0]));
        }
        assert(a =~= b);
    } else {
        assert(a.contains(a.last()));
        assert(b.len() > 0);
        assert(b.contains(b.last()));
        let ia = choose|i: int| 0 <= i < a.len() && a[i] == b.last();
        let ib = choose|i: int| 0 <= i < b.len() && b[i] == a.last();
        assert(a.last() == b.last());
        let a0 = a.drop_last();
        let b0 = b.drop_last();
        assert forall|item: u128| a0.contains(item) <==> b0.contains(item) by {
            if a0.contains(item) {
                let i = choose|i: int| 0 <= i < a0.len() && a0[i] == item;
                assert(a[i] == item);
                assert(a.contains(item));
                let j = choose|j: int| 0 <= j < b.len() && b[j] == item;
                assert(j < b.len() - 1);
                assert(b0[j] == item);
            }
            if b0.contains(item) {
                let i = choose|i: int| 0 <= i < b0.len() && b0[i] == item;
                assert(b[i] == item);
                assert(b.contains(item));
                let j = choose|j: int| 0 <= j < a.len() && a[j] == item;
                assert(j < a.len() - 1);
                assert(a0[j] == item);
            }
        }
        lemma_increasing_unique(a0, b0);
        assert(a =~= a0.push(a.last()));
        assert(b =~= b0.push(b.last()));
    }
}

/// The nodes of a finite tree in ascending order: each node once, smaller
/// ones first.
pub proof fn lemma_ordered_keys(tree: Tree)
    requires
        tree.dom().finite(),
    ensures
        increasing(ordered_keys(tree)),
        forall|node: u128| ordered_keys(tree).contains(node) <==> tree.contains_key(node),
        ordered_keys(tree).len() == tree.len(),
{
    broadcast use vstd::seq_lib::group_to_multiset_ensures;

    let listed = tree.dom().to_seq();
    let sorted = ordered_keys(tree);
    lemma_to_seq_no_duplicates(tree.dom());
    assert(total_ordering(at_most()));
    listed.lemma_sort_by_ensures(at_most());
    listed.lemma_multiset_has_no_duplicates();
    sorted.lemma_multiset_has_no_duplicates_conv();
    assert forall|node: u128| sorted.contains(node) <==> tree.contains_key(node) by {
        assert(listed.to_set().contains(node) == listed.contains(node));
        assert(sorted.to_multiset().count(node) == listed.to_multiset().count(node));
    }
    assert forall|i: int, j: int| 0 <= i < j < sorted.len() implies sorted[i] < sorted[j] by {
        assert(at_most()(sorted[i], sorted[j]));
    }
    assert(sorted.len() == tree.len()) by {
        listed.unique_seq_to_set();
        assert(sorted.to_multiset().len() == listed.to_multiset().len());
    }
}

/// An increasing sequence of the nodes of a tree is its nodes in ascending
/// order.
pub proof fn lemma_ordered_keys_are(tree: Tree, keys: Seq<u128>)
    requires
        increasing(keys),
        keys.to_set() == tree.dom(),
    ensures
        keys == ordered_keys(tree),
{
    vstd::seq_lib::seq_to_set_is_finite(keys);
    lemma_ordered_keys(tree);
    assert forall|item: u128| keys.contains(item) <==> ordered_keys(tree).contains(item) by {
        assert(keys.to_set().contains(item) == keys.contains(item));
    }
    lemma_increasing_unique(keys, ordered_keys(tree));
}

} // verus!
