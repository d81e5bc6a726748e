//! What the producer of a proof needs of a tree: to fill in what is missing
//! with default values, to drop what can be derived, and to move a tree of its
//! own under a node of a larger one.
use crate::fill::{
    filling, lemma_fill_begins, lemma_fill_derives, lemma_fill_ends, lemma_fill_passes,
    lemma_fill_popped_is_next, lemma_within_depth,
};
use crate::hash::{compress, hash, zero_hash_spec, ZeroHashes};
use crate::index::{
    has_children, left_child, lemma_level_start_bounds, lemma_reanchored_formula, level,
    level_start, parent, reanchored, right_child, sibling,
};
use crate::model::{
    closed_upward, covered, derived_above, increasing, is_gap, lemma_closed_holds_covered, no_gap,
    refreshed, tree_of, Tree,
};
use crate::order::{lemma_ordered_keys_are, ordered_keys};
use crate::queue::IndexQueue;
use crate::store::{ascending_keys, erase, holds, lookup, put};
use crate::Oof;
use std::collections::BTreeMap;
use vstd::prelude::*;

verus! {

/// The level of the lowest nodes of `tree`, which is that of its largest
/// index.
pub open spec fn depth_of(tree: Tree) -> nat {
    if ordered_keys(tree).len() == 0 {
        0
    } else {
        level(ordered_keys(tree).last())
    }
}

/// The value of `node` when what `tree` lacks is filled in: the value that
/// `tree` holds; or the compression of the values of the children, where
/// `tree` holds a node below; or else the value of the root of a tree all of
/// whose leaves hold `leaf`, and which reaches from `node` down to the level
/// `depth`.
pub open spec fn filled_value(tree: Tree, leaf: Seq<u8>, depth: nat, node: u128) -> Seq<u8>
    decreases u128::MAX - node,
{
    if tree.contains_key(node) {
        tree[node]
    } else if has_children(node) && covered(tree, node) {
        compress(
            filled_value(tree, leaf, depth, left_child(node)),
            filled_value(tree, leaf, depth, right_child(node)),
        )
    } else {
        zero_hash_spec(leaf, (depth - level(node)) as nat)
    }
}

/// `tree` filled in for the nodes of index `bound` or more at or below which
/// it holds a node: with their parents and with their missing siblings.
pub open spec fn filled_above(tree: Tree, leaf: Seq<u8>, depth: nat, bound: int) -> Tree {
    Map::new(
        |node: u128|
            tree.contains_key(node) || derived_above(tree, node, bound) || (is_gap(tree, node)
                && sibling(node) >= bound),
        |node: u128| filled_value(tree, leaf, depth, node),
    )
}

/// `tree` filled in: with every node above one that it holds, and with the
/// siblings that are missing to derive these, which are given the value of a
/// tree of their height whose leaves hold `leaf`.
pub open spec fn filled(tree: Tree, leaf: Seq<u8>) -> Tree {
    filled_above(tree, leaf, depth_of(tree), 2)
}

/// `tree` without the nodes both of whose children it holds.
pub open spec fn pruned(tree: Tree) -> Tree {
    Map::new(
        |node: u128|
            tree.contains_key(node) && !(has_children(node) && tree.contains_key(left_child(node))
                && tree.contains_key(right_child(node))),
        |node: u128| tree[node],
    )
}

/// Whether `tree` holds `local` and `general` is where `local` lies under
/// `anchor`.
pub open spec fn moves_to(tree: Tree, anchor: u128, local: u128, general: u128) -> bool {
    tree.contains_key(local) && reanchored(anchor, local) == general
}

/// `tree` with each of its nodes moved to where it lies under `anchor`.
pub open spec fn moved(tree: Tree, anchor: u128) -> Tree {
    Map::new(
        |general: u128| exists|local: u128| moves_to(tree, anchor, local, general),
        |general: u128| tree[choose|local: u128| moves_to(tree, anchor, local, general)],
    )
}

/// Of two indices the larger one is on the same level or on a lower one, the
/// first index of which is twice that of the other's level at least.
proof fn lemma_level_start_doubles(low: u128, high: u128)
    requires
        low <= high,
    ensures
        level_start(low) == level_start(high) || 2 * level_start(low) <= level_start(high),
    decreases high,
{
    lemma_level_start_bounds(high);
    if low >= 2 {
        lemma_level_start_doubles(low / 2, high / 2);
        lemma_level_start_bounds(low / 2);
        lemma_level_start_bounds(high / 2);
    } else if high >= 2 {
        lemma_level_start_bounds(high / 2);
    }
}

/// Moving under an anchor keeps the order of the indices, so no two nodes are
/// moved to one.
pub proof fn lemma_reanchored_increases(anchor: u128, low: u128, high: u128)
    requires
        1 <= anchor,
        low < high,
    ensures
        reanchored(anchor, low) < reanchored(anchor, high),
{
    lemma_level_start_bounds(low);
    lemma_level_start_bounds(high);
    lemma_level_start_doubles(low, high);
    let a = anchor as int;
    let p = level_start(low) as int;
    let q = level_start(high) as int;
    assert(reanchored(anchor, low) == a * p + (low - p));
    assert(reanchored(anchor, high) == a * q + (high - q));
    if p != q {
        assert(a * p + p <= a * q && q <= a * q && (p == 0 ==> a * p == 0)) by (nonlinear_arith)
            requires
                1 <= a,
                0 <= p,
                2 * p <= q,
        ;
    }
}

/// Whether `moved` holds the value of `local` where `local` lies under
/// `anchor`.
pub open spec fn carried(moved: Tree, tree: Tree, anchor: u128, local: u128) -> bool {
    &&& 0 <= reanchored(anchor, local) <= u128::MAX
    &&& moved.contains_key(reanchored(anchor, local) as u128)
    &&& moved[reanchored(anchor, local) as u128] == tree[local]
}

/// A tree that was filled holds what it held, with the same values, and the
/// parent of every node that it holds. Nothing is missing in it to derive the
/// root, and nothing is left to derive: where the tree held a node at all, the
/// root is held.
pub proof fn lemma_filled_is_whole(tree: Tree, leaf: Seq<u8>)
    ensures
        forall|node: u128|
            tree.contains_key(node) ==> filled(tree, leaf).contains_key(node) && filled(
                tree,
                leaf,
            )[node] == tree[node],
        closed_upward(filled(tree, leaf)),
        no_gap(filled(tree, leaf)),
        refreshed(filled(tree, leaf)) == filled(tree, leaf),
        covered(tree, 1) ==> filled(tree, leaf).contains_key(1),
{
    let full = filled(tree, leaf);
    assert forall|node: u128| full.contains_key(node) && node >= 2 implies full.contains_key(
        parent(node),
    ) by {
        let above = parent(node);
        assert(has_children(above));
        assert(node == left_child(above) || node == right_child(above));
        if is_gap(tree, node) {
            let other = sibling(node);
            assert(other == left_child(above) || other == right_child(above));
        }
    }
    assert forall|node: u128| !is_gap(full, node) by {
        if is_gap(full, node) {
            lemma_closed_holds_covered(full, sibling(node));
            assert(parent(sibling(node)) == parent(node));
        }
    }
    assert forall|node: u128| refreshed(full).contains_key(node) implies full.contains_key(
        node,
    ) by {
        if !full.contains_key(node) {
            assert(covered(full, node));
            lemma_closed_holds_covered(full, node);
        }
    }
    assert(refreshed(full) =~= full);
    if covered(tree, 1) && !tree.contains_key(1) {
        assert(has_children(1));
        assert(left_child(1) == 2 && right_child(1) == 3);
    }
}

/// Filling and then minimizing gives the leaves back: a tree that holds no
/// node above another one of its nodes, and in which no value is missing to
/// derive the root, is what is left of it when it is filled and then minimized.
/// Where a value is missing, the one that is filled in for it stays.
pub proof fn lemma_fill_then_prune(tree: Tree, leaf: Seq<u8>)
    requires
        forall|node: u128|
            tree.contains_key(node) && has_children(node) ==> !covered(tree, left_child(node))
                && !covered(tree, right_child(node)),
        no_gap(tree),
    ensures
        pruned(filled(tree, leaf)) == tree,
{
    let full = filled(tree, leaf);
    assert forall|node: u128| full.contains_key(node) && node >= 1 implies covered(tree, node) by {
        assert(!is_gap(tree, node));
    }
    assert forall|node: u128| covered(tree, node) implies full.contains_key(node) by {
        if !tree.contains_key(node) {
            assert(left_child(node) >= 2);
        }
    }
    assert forall|node: u128| pruned(full).contains_key(node) <==> tree.contains_key(node) by {
        if has_children(node) {
            let l = left_child(node);
            let r = right_child(node);
            if full.contains_key(node) && !tree.contains_key(node) {
                assert(covered(tree, node));
                assert(!is_gap(tree, l));
                assert(!is_gap(tree, r));
                assert(sibling(l) == r && sibling(r) == l);
                assert(crate::index::parent(l) == node && crate::index::parent(r) == node);
                assert(covered(tree, l) && covered(tree, r));
            }
        }
    }
    assert(pruned(full) =~= tree);
}

/// What a tree offers to the producer of a proof, beyond what the verifier of
/// one needs.
pub trait Generate: Sized + View<V = Tree> {
    /// Fills the tree in: every node above one that it holds is derived, and
    /// where the sibling of a node is missing for that, it is given the value
    /// of a tree of its height whose leaves hold `default`, the lowest level
    /// of the tree being the level of the leaves. No value that the tree held
    /// is changed.
    fn fill_with_default(&mut self, default: &[u8; 32])
        ensures
            final(self)@ == filled(old(self)@, default@),
    ;

    /// Minimizes the tree: the nodes both of whose children it holds, and
    /// which can thus be derived, are dropped.
    fn into_branch(self) -> (branch: Self)
        ensures
            branch@ == pruned(self@),
    ;

    /// Moves the tree, which has its root at 1, under the node `anchor` of a
    /// larger tree: each node is from then on held at the index that it has
    /// there. No index of the larger tree may be beyond 128 bits.
    fn to_subtree(&mut self, anchor: u128)
        requires
            1 <= anchor,
            forall|node: u128| old(self)@.contains_key(node) ==> anchor * node <= u128::MAX,
        ensures
            final(self)@ == moved(old(self)@, anchor),
    ;
}

impl Generate for Oof {
    fn fill_with_default(&mut self, default: &[u8; 32]) {
        let keys = ascending_keys(&self.map);
        let deepest = if keys.len() > 0 && keys[keys.len() - 1] >= 1 {
            keys[keys.len() - 1]
        } else {
            1
        };
        let ghost depth = depth_of(self@);
        proof {
            assert(keys@.to_set() =~= self@.dom());
            assert(keys@.no_duplicates());
            lemma_ordered_keys_are(self@, keys@);
            vstd::seq_lib::seq_to_set_is_finite(keys@);
            lemma_within_depth(self@);
            assert(level(deepest) == depth);
            lemma_fill_begins(self@, default@, depth, keys@);
        }
        let mut zeros = ZeroHashes::new(default);
        let mut queue = IndexQueue::from_ascending(keys);
        let ghost mut bound: int = u128::MAX + 1;
        loop
            invariant
                filling(old(self)@, default@, depth, self@, queue@, bound),
                depth == depth_of(old(self)@),
                zeros.leaf() == default@,
                level(deepest) == depth,
                deepest >= 1,
            decreases bound,
        {
            let key = match queue.pop() {
                Some(key) => key,
                None => {
                    proof {
                        assert forall|other: u128|
                            self@.contains_key(other) && other < bound && !is_gap(
                                old(self)@,
                                other,
                            ) implies other <= 1 by {
                            assert(queue@.count(other) == 0);
                        }
                        lemma_fill_ends(old(self)@, default@, depth, self@, queue@, bound);
                    }
                    return ;
                },
            };
            proof {
                lemma_fill_popped_is_next(
                    old(self)@,
                    default@,
                    depth,
                    self@,
                    queue@.insert(key),
                    bound,
                    key,
                );
            }
            if key <= 1 {
                proof {
                    lemma_fill_ends(
                        old(self)@,
                        default@,
                        depth,
                        self@,
                        queue@.insert(key),
                        bound,
                    );
                }
                return ;
            }
            let (left, right, above) = bonsai::expand(key);
            if holds(&self.map, above) {
                proof {
                    lemma_fill_passes(
                        old(self)@,
                        default@,
                        depth,
                        self@,
                        queue@.insert(key),
                        bound,
                        key,
                    );
                    assert(queue@.insert(key).remove(key) =~= queue@);
                }
            } else {
                let ghost now = self@;
                proof {
                    lemma_fill_derives(
                        old(self)@,
                        default@,
                        depth,
                        now,
                        queue@.insert(key),
                        bound,
                        key,
                    );
                    assert(left == left_child(above) && right == right_child(above));
                    assert((key == left && sibling(key) == right) || (key == right && sibling(key)
                        == left));
                }
                let l = match lookup(&self.map, &left) {
                    Some(value) => *value,
                    None => {
                        let value = zeros.at(bonsai::relative_depth(left, deepest));
                        put(&mut self.map, left, value);
                        value
                    },
                };
                let r = match lookup(&self.map, &right) {
                    Some(value) => *value,
                    None => {
                        let value = zeros.at(bonsai::relative_depth(right, deepest));
                        put(&mut self.map, right, value);
                        value
                    },
                };
                let ghost mid = self@;
                proof {
                    let other = sibling(key);
                    assert(mid =~= if now.contains_key(other) {
                        now
                    } else {
                        now.insert(other, zero_hash_spec(default@, (depth - level(other)) as nat))
                    });
                    assert(l@ == mid[left] && r@ == mid[right]);
                }
                let ghost waiting = queue@;
                put(&mut self.map, above, hash(&l, &r));
                queue.push(above);
                proof {
                    assert(waiting.insert(key).remove(key) =~= waiting);
                    assert(self@ == mid.insert(above, compress(mid[left], mid[right])));
                }
            }
            proof {
                bound = key as int;
            }
        }
    }

    fn into_branch(self) -> (branch: Self) {
        let mut map = self.map;
        let keys = ascending_keys(&map);
        let ghost start = tree_of(map);
        for at in 0..keys.len()
            invariant
                increasing(keys@),
                keys@.to_set() == start.dom(),
                forall|node: u128|
                    tree_of(map).contains_key(node) <==> start.contains_key(node) && (pruned(
                        start,
                    ).contains_key(node) || !keys@.take(at as int).contains(node)),
                forall|node: u128|
                    tree_of(map).contains_key(node) ==> tree_of(map)[node] == start[node],
        {
            let key = keys[at];
            let ghost shorter = keys@.take(at as int);
            let ghost longer = keys@.take(at + 1);
            proof {
                assert(keys@.to_set().contains(key));
                assert(longer == shorter.push(key));
                assert(!shorter.contains(key)) by {
                    if shorter.contains(key) {
                        let i = choose|i: int| 0 <= i < shorter.len() && shorter[i] == key;
                        assert(keys@[i] < keys@[at as int]);
                    }
                }
                assert forall|node: u128| node > key implies !longer.contains(node) by {
                    if longer.contains(node) {
                        let i = choose|i: int| 0 <= i < longer.len() && longer[i] == node;
                        assert(keys@[i] <= keys@[at as int]);
                    }
                }
                assert forall|node: u128| node != key implies (longer.contains(node)
                    <==> shorter.contains(node)) by {
                    if shorter.contains(node) {
                        let i = choose|i: int| 0 <= i < shorter.len() && shorter[i] == node;
                        assert(longer[i] == node);
                    }
                    if longer.contains(node) {
                        let i = choose|i: int| 0 <= i < longer.len() && longer[i] == node;
                        assert(shorter[i] == node);
                    }
                }
                assert(longer[at as int] == key);
            }
            if key >= 1 && key <= u128::MAX / 2 {
                let (left, right) = bonsai::children(key);
                if holds(&map, left) && holds(&map, right) {
                    erase(&mut map, key);
                }
            }
        }
        proof {
            assert(keys@.take(keys@.len() as int) == keys@);
            assert forall|node: u128| tree_of(map).contains_key(node) <==> pruned(
                start,
            ).contains_key(node) by {
                if start.contains_key(node) {
                    assert(keys@.to_set().contains(node));
                    assert(keys@.contains(node));
                }
            }
            assert(tree_of(map) =~= pruned(start));
        }
        Oof { map }
    }

    fn to_subtree(&mut self, anchor: u128) {
        let keys = ascending_keys(&self.map);
        let ghost start = self@;
        let mut map: BTreeMap<u128, [u8; 32]> = BTreeMap::new();
        for at in 0..keys.len()
            invariant
                1 <= anchor,
                start == self@,
                increasing(keys@),
                keys@.to_set() == start.dom(),
                forall|node: u128| start.contains_key(node) ==> anchor * node <= u128::MAX,
                forall|general: u128|
                    tree_of(map).contains_key(general) ==> exists|i: int|
                        0 <= i < at && #[trigger] reanchored(anchor, keys@[i]) == general,
                forall|i: int|
                    0 <= i < at ==> carried(tree_of(map), start, anchor, #[trigger] keys@[i]),
        {
            let key = keys[at];
            proof {
                assert(keys@.to_set().contains(key));
                lemma_reanchored_formula(anchor, key);
            }
            let general = bonsai::subtree_index_to_general(anchor, key);
            let ghost before = tree_of(map);
            match lookup(&self.map, &key) {
                Some(value) => {
                    put(&mut map, general, *value);
                },
                None => {},
            }
            proof {
                assert forall|i: int| 0 <= i < at implies reanchored(anchor, keys@[i])
                    != general by {
                    lemma_reanchored_increases(anchor, keys@[i], key);
                }
                assert forall|other: u128| tree_of(map).contains_key(other) implies exists|i: int|
                    0 <= i < at + 1 && #[trigger] reanchored(anchor, keys@[i]) == other by {
                    if other == general {
                        assert(reanchored(anchor, keys@[at as int]) == other);
                    } else {
                        assert(before.contains_key(other));
                        let i = choose|i: int|
                            0 <= i < at && #[trigger] reanchored(anchor, keys@[i]) == other;
                        assert(0 <= i < at + 1 && reanchored(anchor, keys@[i]) == other);
                    }
                }
                assert forall|i: int| 0 <= i < at + 1 implies carried(
                    tree_of(map),
                    start,
                    anchor,
                    #[trigger] keys@[i],
                ) by {
                    if i < at {
                        assert(carried(before, start, anchor, keys@[i]));
                    }
                }
            }
        }
        proof {
            assert forall|general: u128|
                tree_of(map).contains_key(general) <==> moved(start, anchor).contains_key(
                    general,
                ) by {
                if tree_of(map).contains_key(general) {
                    let i = choose|i: int|
                        0 <= i < keys@.len() && #[trigger] reanchored(anchor, keys@[i])
                            == general;
                    assert(keys@.to_set().contains(keys@[i]));
                    assert(moves_to(start, anchor, keys@[i], general));
                }
                if moved(start, anchor).contains_key(general) {
                    let local = choose|local: u128| moves_to(start, anchor, local, general);
                    assert(keys@.to_set().contains(local));
                    let i = choose|i: int| 0 <= i < keys@.len() && keys@[i] == local;
                    assert(carried(tree_of(map), start, anchor, keys@[i]));
                }
            }
            assert forall|general: u128| tree_of(map).contains_key(general) implies tree_of(
                map,
            )[general] == moved(start, anchor)[general] by {
                let i = choose|i: int|
                    0 <= i < keys@.len() && #[trigger] reanchored(anchor, keys@[i]) == general;
                assert(keys@.to_set().contains(keys@[i]));
                assert(moves_to(start, anchor, keys@[i], general));
                assert(carried(tree_of(map), start, anchor, keys@[i]));
                let local = choose|local: u128| moves_to(start, anchor, local, general);
                if local < keys@[i] {
                    lemma_reanchored_increases(anchor, local, keys@[i]);
                }
                if keys@[i] < local {
                    lemma_reanchored_increases(anchor, keys@[i], local);
                }
            }
            assert(tree_of(map) =~= moved(start, anchor));
        }
        self.map = map;
    }
}

} // verus!
