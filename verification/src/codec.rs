//! The binary form of a tree, all of it little-endian: a count of 4 bytes,
//! then as many indices of 16 bytes, then as many values of 32 bytes, the
//! value of an index at the place of the index.
use crate::model::{assembled, byte_views, lemma_assembled_distinct, Tree};
use crate::order::{lemma_ordered_keys, lemma_ordered_keys_are, ordered_keys, values_at};
use crate::store::{ascending_keys, lookup};
use crate::Oof;
use vstd::bytes::*;
use vstd::prelude::*;
use vstd::slice::{slice_subrange, slice_to_vec};

verus! {

/// The number of entries that `blob` declares.
pub open spec fn blob_count(blob: Seq<u8>) -> nat {
    spec_u32_from_le_bytes(blob.subrange(0, 4)) as nat
}

/// Whether `blob` is as long as the entries that it declares.
pub open spec fn blob_fits(blob: Seq<u8>) -> bool {
    blob.len() >= 4 && blob.len() >= 4 + 48 * blob_count(blob)
}

/// The index of entry `i` of `blob`.
pub open spec fn blob_key(blob: Seq<u8>, i: int) -> u128 {
    spec_u128_from_le_bytes(blob.subrange(4 + 16 * i, 4 + 16 * i + 16))
}

/// The value of entry `i` of `blob`.
pub open spec fn blob_value(blob: Seq<u8>, i: int) -> Seq<u8> {
    blob.subrange(
        4 + 16 * blob_count(blob) + 32 * i,
        4 + 16 * blob_count(blob) + 32 * i + 32,
    )
}

/// The indices of the entries of `blob`, in its order.
pub open spec fn blob_keys(blob: Seq<u8>) -> Seq<u128> {
    Seq::new(blob_count(blob), |i: int| blob_key(blob, i))
}

/// The values of the entries of `blob`, in its order.
pub open spec fn blob_values(blob: Seq<u8>) -> Seq<Seq<u8>> {
    Seq::new(blob_count(blob), |i: int| blob_value(blob, i))
}

/// The tree that `blob` stands for.
pub open spec fn decoded(blob: Seq<u8>) -> Tree {
    assembled(blob_keys(blob), blob_values(blob))
}

/// `keys`, each as 16 bytes.
pub open spec fn key_bytes(keys: Seq<u128>) -> Seq<u8> {
    Seq::new(16 * keys.len(), |j: int| spec_u128_to_le_bytes(keys[j / 16])[j % 16])
}

/// `values`, which hold 32 bytes each, one after the other.
pub open spec fn value_bytes(values: Seq<Seq<u8>>) -> Seq<u8> {
    Seq::new(32 * values.len(), |j: int| values[j / 32][j % 32])
}

/// The binary form of `tree`: the number of its entries, as far as 4 bytes can
/// say it, and the entries in ascending order of the index.
pub open spec fn encoded(tree: Tree) -> Seq<u8> {
    spec_u32_to_le_bytes(tree.len() as u32) + key_bytes(ordered_keys(tree)) + value_bytes(
        values_at(tree, ordered_keys(tree)),
    )
}

/// Whether `tree` can be held and written: it has finitely many nodes, no more
/// than the count of a blob can say, and their values have 32 bytes.
pub open spec fn writable(tree: Tree) -> bool {
    &&& tree.dom().finite()
    &&& tree.len() <= u32::MAX
    &&& forall|node: u128| tree.contains_key(node) ==> #[trigger] tree[node].len() == 32
}

/// The binary form of a tree stands for that tree.
pub proof fn lemma_decode_encode(tree: Tree)
    requires
        writable(tree),
    ensures
        blob_fits(encoded(tree)),
        encoded(tree).len() == 4 + 48 * tree.len(),
        decoded(encoded(tree)) == tree,
{
    let keys = ordered_keys(tree);
    let values = values_at(tree, keys);
    let count = tree.len();
    let head = spec_u32_to_le_bytes(count as u32);
    let blob = encoded(tree);
    lemma_ordered_keys(tree);
    lemma_auto_spec_u32_to_from_le_bytes();
    lemma_auto_spec_u128_to_from_le_bytes();
    assert(head.len() == 4);
    assert(blob.len() == 4 + 16 * count + 32 * count);
    assert(blob.subrange(0, 4) =~= head);
    assert(blob_count(blob) == count);
    assert forall|i: int| 0 <= i < count implies blob_key(blob, i) == keys[i] by {
        let bytes = spec_u128_to_le_bytes(keys[i]);
        assert(bytes.len() == 16);
        assert forall|j: int| 0 <= j < 16 implies blob[4 + 16 * i + j] == bytes[j] by {
            assert(blob[4 + 16 * i + j] == key_bytes(keys)[16 * i + j]);
            assert((16 * i + j) / 16 == i && (16 * i + j) % 16 == j);
        }
        assert(blob.subrange(4 + 16 * i, 4 + 16 * i + 16) =~= bytes);
    }
    assert forall|i: int| 0 <= i < count implies blob_value(blob, i) == values[i] by {
        assert(keys.contains(keys[i]));
        assert(values[i].len() == 32);
        assert forall|j: int| 0 <= j < 32 implies blob[4 + 16 * count + 32 * i + j]
            == values[i][j] by {
            assert(blob[4 + 16 * count + 32 * i + j] == value_bytes(values)[32 * i + j]);
            assert((32 * i + j) / 32 == i && (32 * i + j) % 32 == j);
        }
        assert(blob.subrange(4 + 16 * count + 32 * i, 4 + 16 * count + 32 * i + 32)
            =~= values[i]);
    }
    assert(blob_keys(blob) =~= keys);
    assert(blob_values(blob) =~= values);
    lemma_assembled_distinct(keys, values);
    assert forall|node: u128| tree.contains_key(node) implies assembled(keys, values)[node]
        == tree[node] by {
        let i = choose|i: int| 0 <= i < keys.len() && keys[i] == node;
        assert(assembled(keys, values)[keys[i]] == values[i]);
    }
    assert(decoded(blob) =~= tree);
}

impl Oof {
    /// The binary form of the tree. The count has 4 bytes: of a tree of more
    /// nodes than they can say, it holds the lowest 32 bits of their number.
    pub fn to_bytes(&self) -> (bytes: Vec<u8>)
        ensures
            bytes@ == encoded(self@),
    {
        let keys = ascending_keys(&self.map);
        proof {
            assert(self@.dom() =~= self.map@.dom());
            lemma_ordered_keys_are(self@, keys@);
            lemma_auto_spec_u128_to_from_le_bytes();
        }
        let mut bytes = u32_to_le_bytes(#[verifier::truncate] (keys.len() as u32));
        let ghost head = bytes@;
        for at in 0..keys.len()
            invariant
                bytes@ == head + key_bytes(keys@.take(at as int)),
                forall|x: u128| #[trigger] spec_u128_to_le_bytes(x).len() == 16,
        {
            let mut key = u128_to_le_bytes(keys[at]);
            bytes.append(&mut key);
            assert(bytes@ =~= head + key_bytes(keys@.take(at + 1)));
        }
        assert(keys@.take(keys@.len() as int) == keys@);
        let ghost front = bytes@;
        let ghost values = values_at(self@, keys@);
        for at in 0..keys.len()
            invariant
                keys@.to_set() == self.map@.dom(),
                values == values_at(self@, keys@),
                bytes@ == front + value_bytes(values.take(at as int)),
        {
            assert(keys@.to_set().contains(keys@[at as int]));
            let value = lookup(&self.map, &keys[at]);
            match value {
                Some(value) => {
                    let mut value = slice_to_vec(value.as_slice());
                    bytes.append(&mut value);
                },
                None => {},
            }
            assert(bytes@ =~= front + value_bytes(values.take(at + 1)));
        }
        assert(values.take(keys@.len() as int) == values);
        bytes
    }

    /// The tree that `data` stands for, where `data` is as long as the entries
    /// that it declares.
    pub fn from_raw(data: &[u8]) -> (tree: Self)
        requires
            blob_fits(data@),
        ensures
            tree@ == decoded(data@),
    {
        assert(data@.len() == data.len());
        let count = u32_from_le_bytes(slice_subrange(data, 0, 4)) as usize;
        let mut keys: Vec<u128> = Vec::new();
        for at in 0..count
            invariant
                count == blob_count(data@),
                data@.len() <= usize::MAX,
                blob_fits(data@),
                keys@ == blob_keys(data@).take(at as int),
        {
            let key = u128_from_le_bytes(slice_subrange(data, 4 + 16 * at, 4 + 16 * at + 16));
            keys.push(key);
            assert(keys@ =~= blob_keys(data@).take(at + 1));
        }
        let base = 4 + 16 * count;
        let mut values: Vec<[u8; 32]> = Vec::new();
        for at in 0..count
            invariant
                count == blob_count(data@),
                data@.len() <= usize::MAX,
                base == 4 + 16 * count,
                blob_fits(data@),
                values@.len() == at,
                byte_views(values@) == blob_values(data@).take(at as int),
        {
            let mut value = [0u8; 32];
            for byte in 0..32usize
                invariant
                    count == blob_count(data@),
                    data@.len() <= usize::MAX,
                    base == 4 + 16 * count,
                    blob_fits(data@),
                    at < count,
                    forall|j: int| 0 <= j < byte ==> value@[j] == data@[base + 32 * at + j],
            {
                value[byte] = data[base + 32 * at + byte];
            }
            assert(value@ =~= blob_value(data@, at as int));
            let ghost before = values@;
            values.push(value);
            assert forall|i: int| 0 <= i <= at implies #[trigger] byte_views(values@)[i]
                == blob_values(data@)[i] by {
                if i < at {
                    assert(byte_views(before)[i] == blob_values(data@).take(at as int)[i]);
                    assert(values@[i] == before[i]);
                } else {
                    assert(values@[i] == value);
                }
            }
            assert(byte_views(values@) =~= blob_values(data@).take(at + 1));
        }
        assert(keys@ == blob_keys(data@));
        assert(byte_views(values@) == blob_values(data@));
        Self::new(keys.as_slice(), values.as_slice())
    }

    /// The tree that `data` stands for, if `data` is as long as the entries
    /// that it declares.
    pub fn from_bytes(data: &[u8]) -> (tree: Option<Self>)
        ensures
            match tree {
                Some(tree) => blob_fits(data@) && tree@ == decoded(data@),
                None => !blob_fits(data@),
            },
    {
        if data.len() < 4 {
            return None;
        }
        let count = u32_from_le_bytes(slice_subrange(data, 0, 4));
        if (data.len() as u64) < 4 + 48 * (count as u64) {
            return None;
        }
        Some(Self::from_raw(data))
    }
}

} // verus!
