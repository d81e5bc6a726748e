//! A sparse view of a binary hash tree: the values of some of its nodes, by
//! generalized index, from which the value of the root can be derived, or
//! which can be found to lack a value for that.
//!
//! [`Oof`] is the tree: it is read and written node by node, asked for its
//! root, and turned into bytes and back ([`codec`]). [`blob::Blob`] reads a
//! tree where its bytes lie. [`generate::Generate`] is what the producer of a
//! proof needs besides. [`model`] says what a tree determines, and [`laws`]
//! what holds of it from one call to the next.
use std::collections::{BTreeMap, BTreeSet};
use vstd::prelude::*;

pub mod blob;
pub mod codec;
mod fill;
pub mod generate;
pub mod hash;
pub mod index;
pub mod laws;
pub mod model;
pub mod order;
pub mod queue;
mod refresh;
mod store;

use crate::hash::hash;
use crate::index::{has_children, left_child, parent, right_child, sibling};
use crate::model::{
    assembled, byte_views, cached_above, covered, is_first_gap, lemma_cached_above_is_smaller,
    no_gap, node_value, refreshed, refreshed_above, tree_of, written, Tree,
};
use crate::queue::IndexQueue;
use crate::refresh::{
    lemma_popped_is_next, lemma_refresh_begins, lemma_refresh_derives, lemma_refresh_ends,
    lemma_refresh_passes, lemma_refresh_stops, refreshing,
};
use crate::store::{ascending_keys, erase, holds, key_set, lookup, put};

verus! {

/// A partial tree of 32-byte values.
#[derive(Clone, Debug, PartialEq)]
pub struct Oof {
    /// The values of the nodes that the tree holds, by index.
    pub map: BTreeMap<u128, [u8; 32]>,
}

/// Why a tree has no root value.
#[derive(Debug, PartialEq)]
pub enum Error {
    /// The value of this node is needed and the tree does not hold it.
    EntryNotFound(u128),
}

impl View for Oof {
    type V = Tree;

    open spec fn view(&self) -> Tree {
        tree_of(self.map)
    }
}

impl Oof {
    /// The tree that holds, for each of `keys`, the value at the same place in
    /// `values`.
    pub fn new(keys: &[u128], values: &[[u8; 32]]) -> (tree: Self)
        requires
            keys@.len() <= values@.len(),
        ensures
            tree@ == assembled(keys@, byte_views(values@)),
    {
        let mut map: BTreeMap<u128, [u8; 32]> = BTreeMap::new();
        assert(tree_of(map) =~= assembled(keys@.take(0), byte_views(values@)));
        for at in 0..keys.len()
            invariant
                keys@.len() <= values@.len(),
                tree_of(map) == assembled(keys@.take(at as int), byte_views(values@)),
        {
            assert(keys@.take(at + 1).drop_last() == keys@.take(at as int));
            put(&mut map, keys[at], values[at]);
        }
        assert(keys@.take(keys@.len() as int) == keys@);
        Self { map }
    }

    /// The tree that holds `map`.
    pub fn from_map(map: BTreeMap<u128, [u8; 32]>) -> (tree: Self)
        ensures
            tree.map == map,
    {
        Self { map }
    }

    /// The map that the tree holds.
    pub fn to_map(self) -> (map: BTreeMap<u128, [u8; 32]>)
        ensures
            map == self.map,
    {
        self.map
    }

    /// The value of the node `key`, if the tree holds one.
    pub fn get(&self, key: &u128) -> (found: Option<&[u8; 32]>)
        ensures
            match found {
                Some(value) => self@.contains_key(*key) && value@ == self@[*key],
                None => !self@.contains_key(*key),
            },
    {
        lookup(&self.map, key)
    }

    /// Makes `value` the value of the node `key` and returns the value that the
    /// node had. The values above the node that were derived from the old one
    /// are forgotten: the parent, and from there on each parent of a node that
    /// was forgotten, up to the first one that the tree did not hold.
    pub fn set(&mut self, key: u128, value: [u8; 32]) -> (before: Option<[u8; 32]>)
        ensures
            final(self)@ == written(old(self)@, key, value@),
            match before {
                Some(held) => old(self)@.contains_key(key) && held@ == old(self)@[key],
                None => !old(self)@.contains_key(key),
            },
    {
        let mut at = key;
        while at >= 2
            invariant
                at <= key,
                forall|node: u128|
                    self@.contains_key(node) <==> old(self)@.contains_key(node) && !(cached_above(
                        old(self)@,
                        key,
                        node,
                    ) && !cached_above(old(self)@, at, node)),
                forall|node: u128| self@.contains_key(node) ==> self@[node] == old(self)@[node],
                forall|node: u128|
                    cached_above(old(self)@, at, node) ==> cached_above(old(self)@, key, node),
            ensures
                forall|node: u128|
                    self@.contains_key(node) <==> old(self)@.contains_key(node) && !cached_above(
                        old(self)@,
                        key,
                        node,
                    ),
                forall|node: u128| self@.contains_key(node) ==> self@[node] == old(self)@[node],
            decreases at,
        {
            let (_, _, above) = bonsai::expand(at);
            proof {
                assert forall|node: u128| cached_above(old(self)@, above, node) implies node
                    != above by {
                    lemma_cached_above_is_smaller(old(self)@, above, node);
                }
            }
            if !erase(&mut self.map, above) {
                break ;
            }
            at = above;
        }
        proof {
            if cached_above(old(self)@, key, key) {
                lemma_cached_above_is_smaller(old(self)@, key, key);
            }
        }
        let before = put(&mut self.map, key, value);
        assert(self@ =~= written(old(self)@, key, value@));
        before
    }

    /// The value of the root, after the values that can be derived from the
    /// ones that the tree holds were derived: they are held from then on. Where
    /// a value is missing for that, the error names the node; where the tree
    /// holds no node at all, the root.
    pub fn root(&mut self) -> (found: Result<&[u8; 32], Error>)
        ensures
            match found {
                Ok(value) => {
                    &&& no_gap(old(self)@)
                    &&& covered(old(self)@, 1)
                    &&& value@ == node_value(old(self)@, 1)
                    &&& final(self)@ == refreshed(old(self)@)
                },
                Err(Error::EntryNotFound(node)) => if node == 1 {
                    &&& no_gap(old(self)@)
                    &&& !covered(old(self)@, 1)
                    &&& final(self)@ == refreshed(old(self)@)
                } else {
                    &&& is_first_gap(old(self)@, node)
                    &&& final(self)@ == refreshed_above(old(self)@, sibling(node) + 1)
                },
            },
    {
        match self.refresh() {
            Ok(()) => {},
            Err(error) => {
                return Err(error);
            },
        }
        proof {
            let start = old(self)@;
            assert(self@.contains_key(1) <==> refreshed(start).contains_key(1));
            assert(refreshed(start).contains_key(1) <==> covered(start, 1)) by {
                assert(has_children(1));
                assert(left_child(1) == 2 && right_child(1) == 3);
            }
            if self@.contains_key(1) {
                assert(self@[1] == refreshed(start)[1]);
            }
        }
        match lookup(&self.map, &1) {
            Some(value) => Ok(value),
            None => Err(Error::EntryNotFound(1)),
        }
    }

    /// The nodes that the tree holds.
    pub fn keys(&self) -> (keys: BTreeSet<u128>)
        ensures
            keys@ == self@.dom(),
    {
        let keys = key_set(&self.map);
        assert(keys@ =~= self@.dom());
        keys
    }

    /// Derives the value of every node that the tree does not hold and holds
    /// a node below, from the largest index down, and stops at the first that
    /// cannot be derived.
    fn refresh(&mut self) -> (done: Result<(), Error>)
        ensures
            match done {
                Ok(()) => no_gap(old(self)@) && final(self)@ == refreshed(old(self)@),
                Err(Error::EntryNotFound(node)) => {
                    &&& is_first_gap(old(self)@, node)
                    &&& final(self)@ == refreshed_above(old(self)@, sibling(node) + 1)
                },
            },
    {
        let keys = ascending_keys(&self.map);
        proof {
            assert(keys@.to_set() =~= self@.dom());
            assert(keys@.no_duplicates());
            lemma_refresh_begins(self@, keys@);
        }
        let mut queue = IndexQueue::from_ascending(keys);
        let ghost mut bound: int = u128::MAX + 1;
        loop
            invariant
                refreshing(old(self)@, self@, queue@, bound),
            decreases bound,
        {
            let key = match queue.pop() {
                Some(key) => key,
                None => {
                    proof {
                        assert forall|other: u128|
                            self@.contains_key(other) && other < bound implies other <= 1 by {
                            assert(queue@.count(other) == 0);
                        }
                        lemma_refresh_ends(old(self)@, self@, queue@, bound);
                    }
                    return Ok(());
                },
            };
            proof {
                lemma_popped_is_next(old(self)@, self@, queue@.insert(key), bound, key);
            }
            if key <= 1 {
                proof {
                    lemma_refresh_ends(old(self)@, self@, queue@.insert(key), bound);
                }
                return Ok(());
            }
            let (left, right, above) = bonsai::expand(key);
            if holds(&self.map, above) {
                proof {
                    lemma_refresh_passes(old(self)@, self@, queue@.insert(key), bound, key);
                }
            } else {
                let value = match (lookup(&self.map, &left), lookup(&self.map, &right)) {
                    (Some(l), Some(r)) => hash(l, r),
                    (None, _) => {
                        proof {
                            lemma_refresh_stops(old(self)@, self@, queue@.insert(key), bound, key);
                        }
                        return Err(Error::EntryNotFound(left));
                    },
                    (_, None) => {
                        proof {
                            lemma_refresh_stops(old(self)@, self@, queue@.insert(key), bound, key);
                        }
                        return Err(Error::EntryNotFound(right));
                    },
                };
                proof {
                    lemma_refresh_derives(old(self)@, self@, queue@.insert(key), bound, key);
                }
                put(&mut self.map, above, value);
                queue.push(above);
            }
            proof {
                bound = key as int;
            }
        }
    }
}

} // verus!
