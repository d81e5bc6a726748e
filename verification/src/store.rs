//! The ordered map that backs a tree, by the operations that the tree needs.
use crate::model::{increasing, tree_of};
use std::collections::{BTreeMap, BTreeSet};
use vstd::prelude::*;
use vstd::std_specs::cmp::OrdSpec;
use vstd::std_specs::iter::IteratorSpec;

verus! {

broadcast use {vstd::std_specs::btree::group_btree_axioms, vstd::laws_cmp::group_laws_cmp};

/// The value that `map` holds for `node`, if any.
pub fn lookup<'a>(map: &'a BTreeMap<u128, [u8; 32]>, node: &u128) -> (found: Option<&'a [u8; 32]>)
    ensures
        match found {
            Some(value) => map@.contains_key(*node) && *value == map@[*node],
            None => !map@.contains_key(*node),
        },
{
    map.get(node)
}

/// Whether `map` holds a value for `node`.
pub fn holds(map: &BTreeMap<u128, [u8; 32]>, node: u128) -> (found: bool)
    ensures
        found == map@.contains_key(node),
{
    map.contains_key(&node)
}

/// Makes `value` the value of `node`, and returns the one that it had.
pub fn put(map: &mut BTreeMap<u128, [u8; 32]>, node: u128, value: [u8; 32]) -> (before: Option<
    [u8; 32],
>)
    ensures
        final(map)@ == old(map)@.insert(node, value),
        tree_of(*final(map)) == tree_of(*old(map)).insert(node, value@),
        match before {
            Some(value) => old(map)@.contains_key(node) && value == old(map)@[node],
            None => !old(map)@.contains_key(node),
        },
{
    let before = map.insert(node, value);
    assert(tree_of(*map) =~= tree_of(*old(map)).insert(node, value@));
    before
}

/// Takes the value of `node` out of `map`, and says whether there was one.
pub fn erase(map: &mut BTreeMap<u128, [u8; 32]>, node: u128) -> (found: bool)
    ensures
        final(map)@ == old(map)@.remove(node),
        tree_of(*final(map)) == tree_of(*old(map)).remove(node),
        found == old(map)@.contains_key(node),
{
    let before = map.remove(&node);
    assert(tree_of(*map) =~= tree_of(*old(map)).remove(node));
    before.is_some()
}

/// The nodes that `map` holds, in ascending order.
pub fn ascending_keys(map: &BTreeMap<u128, [u8; 32]>) -> (keys: Vec<u128>)
    ensures
        increasing(keys@),
        keys@.to_set() == map@.dom(),
        keys@.len() == map@.len(),
{
    let mut keys: Vec<u128> = Vec::new();
    let ghost all = vstd::std_specs::btree::spec_keys_iter(map).remaining();
    for key in walk: map.keys()
        invariant
            walk.seq() == all,
            keys@ == walk.seq().take(walk.index()).unref(),
    {
        keys.push(*key);
    }
    proof {
        assert(keys@ == all.unref());
        assert(vstd::laws_cmp::obeys_cmp::<u128>());
        assert(vstd::laws_cmp::obeys_cmp::<&u128>());
        assert forall|i: int, j: int| 0 <= i < j < keys@.len() implies keys@[i] < keys@[j] by {
            assert(OrdSpec::cmp_spec(&all[i], &all[j]) is Less);
            assert(keys@[i] == *all[i]);
            assert(keys@[j] == *all[j]);
        }
    }
    keys
}

/// The set of the nodes that `map` holds.
pub fn key_set(map: &BTreeMap<u128, [u8; 32]>) -> (keys: BTreeSet<u128>)
    ensures
        keys@ == map@.dom(),
{
    let listed = ascending_keys(map);
    let mut keys: BTreeSet<u128> = BTreeSet::new();
    for at in 0..listed.len()
        invariant
            keys@ == listed@.take(at as int).to_set(),
    {
        assert(listed@.take(at + 1) == listed@.take(at as int).push(listed@[at as int]));
        keys.insert(listed[at]);
        assert(keys@ =~= listed@.take(at + 1).to_set()) by {
            broadcast use vstd::seq_lib::group_seq_properties;

        }
    }
    assert(listed@.take(listed@.len() as int) == listed@);
    keys
}

} // verus!
