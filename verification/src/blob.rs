//! A tree that is read where its binary form lies, without a copy.
use crate::codec::{blob_count, blob_fits, blob_key, blob_keys, blob_value, blob_values, decoded};
use crate::model::{increasing, lemma_assembled_distinct, Tree};
use vstd::bytes::*;
use vstd::prelude::*;
use vstd::slice::slice_subrange;

verus! {

/// The binary form of a tree whose entries are in ascending order of the
/// index, which is what makes it searchable as it lies.
pub struct Blob<'a> {
    data: &'a [u8],
    count: usize,
}

/// Whether `blob` is as long as the entries that it declares, and these are
/// in ascending order of the index.
pub open spec fn blob_in_order(blob: Seq<u8>) -> bool {
    blob_fits(blob) && increasing(blob_keys(blob))
}

impl<'a> View for Blob<'a> {
    type V = Tree;

    open spec fn view(&self) -> Tree {
        decoded(self.bytes())
    }
}

impl<'a> Blob<'a> {
    #[verifier::type_invariant]
    spec fn sound(self) -> bool {
        blob_in_order(self.data@) && self.count == blob_count(self.data@)
    }

    /// The bytes that are read.
    pub closed spec fn bytes(&self) -> Seq<u8> {
        self.data@
    }

    /// The index of entry `at`.
    fn key_at(data: &[u8], at: usize) -> (key: u128)
        requires
            blob_fits(data@),
            at < blob_count(data@),
        ensures
            key == blob_key(data@, at as int),
    {
        assert(data@.len() == data.len());
        u128_from_le_bytes(slice_subrange(data, 4 + 16 * at, 4 + 16 * at + 16))
    }

    /// A view of the tree that `data` stands for, if `data` is as long as the
    /// entries that it declares, and these are in ascending order of the
    /// index.
    pub fn parse(data: &'a [u8]) -> (blob: Option<Blob<'a>>)
        ensures
            match blob {
                Some(blob) => blob_in_order(data@) && blob.bytes() == data@,
                None => !blob_in_order(data@),
            },
    {
        if data.len() < 4 {
            return None;
        }
        let declared = u32_from_le_bytes(slice_subrange(data, 0, 4));
        if (data.len() as u64) < 4 + 48 * (declared as u64) {
            return None;
        }
        let count = declared as usize;
        if count > 0 {
            let mut last = Self::key_at(data, 0);
            for at in 1..count
                invariant
                    blob_fits(data@),
                    count == blob_count(data@),
                    last == blob_key(data@, at - 1),
                    forall|i: int, j: int|
                        0 <= i < j < at ==> blob_keys(data@)[i] < blob_keys(data@)[j],
            {
                let key = Self::key_at(data, at);
                if key <= last {
                    assert(!(blob_keys(data@)[at - 1] < blob_keys(data@)[at as int]));
                    return None;
                }
                last = key;
            }
        }
        Some(Blob { data, count })
    }

    /// The number of nodes of the tree.
    pub fn len(&self) -> (count: usize)
        ensures
            count == self@.len(),
    {
        proof {
            use_type_invariant(self);
            self.lemma_entries();
        }
        self.count
    }

    /// The tree holds the index of each entry, with the value of the entry,
    /// and nothing else.
    proof fn lemma_entries(self)
        requires
            self.sound(),
        ensures
            forall|node: u128| self@.contains_key(node) <==> blob_keys(self.data@).contains(node),
            forall|i: int|
                #![trigger blob_key(self.data@, i)]
                0 <= i < blob_count(self.data@) ==> self@.contains_key(blob_key(self.data@, i))
                    && self@[blob_key(self.data@, i)] == blob_value(self.data@, i),
            self@.dom().finite(),
            self@.len() == blob_count(self.data@),
    {
        let keys = blob_keys(self.data@);
        let values = blob_values(self.data@);
        lemma_assembled_distinct(keys, values);
        assert forall|i: int|
            #![trigger blob_key(self.data@, i)]
            0 <= i < blob_count(self.data@) implies self@.contains_key(blob_key(self.data@, i))
            && self@[blob_key(self.data@, i)] == blob_value(self.data@, i) by {
            assert(keys[i] == blob_key(self.data@, i));
            assert(values[i] == blob_value(self.data@, i));
        }
        assert(self@.dom() =~= keys.to_set());
        vstd::seq_lib::seq_to_set_is_finite(keys);
        keys.unique_seq_to_set();
    }

    /// The value of the node `key`, if the tree holds one: 32 of the bytes
    /// that are read, found by bisection.
    pub fn get(&self, key: &u128) -> (found: Option<&'a [u8]>)
        ensures
            match found {
                Some(value) => self@.contains_key(*key) && value@ == self@[*key],
                None => !self@.contains_key(*key),
            },
    {
        proof {
            use_type_invariant(self);
        }
        let ghost keys = blob_keys(self.data@);
        assert(self.data@.len() == self.data.len());
        let mut low: usize = 0;
        let mut high: usize = self.count;
        while low < high
            invariant
                self.sound(),
                keys == blob_keys(self.data@),
                self.data@.len() <= usize::MAX,
                low <= high <= self.count,
                forall|i: int| 0 <= i < low ==> keys[i] < *key,
                forall|i: int| high <= i < self.count ==> *key < keys[i],
            decreases high - low,
        {
            let mid = low + (high - low) / 2;
            let here = Self::key_at(self.data, mid);
            assert(here == keys[mid as int]);
            if here == *key {
                let base = 4 + 16 * self.count + 32 * mid;
                let value = slice_subrange(self.data, base, base + 32);
                proof {
                    self.lemma_entries();
                    assert(here == blob_key(self.data@, mid as int));
                }
                return Some(value);
            } else if here < *key {
                low = mid + 1;
            } else {
                high = mid;
            }
        }
        proof {
            self.lemma_entries();
            if keys.contains(*key) {
                let i = choose|i: int| 0 <= i < keys.len() && keys[i] == *key;
                assert(i < low || i >= high);
            }
        }
        None
    }
}

} // verus!
