//! The compression function of the tree: two 32-byte values in, one out.
use sha2::{Digest, Sha256};
use vstd::prelude::*;

verus! {

/// The SHA-256 digest of `data`, as the `sha2` crate computes it.
pub uninterp spec fn sha256(data: Seq<u8>) -> Seq<u8>;

/// `Sha256::digest` hashes `data` in one call. Its output type holds 32 bytes,
/// which are copied out as they are.
#[verifier::external_body]
fn sha256_digest(data: &[u8]) -> (digest: [u8; 32])
    ensures
        digest@ == sha256(data@),
{
    Sha256::digest(data).into()
}

/// The value of a node whose children hold `left` and `right`: the first 32
/// bytes of the SHA-256 digest of `left` followed by `right`.
pub open spec fn compress(left: Seq<u8>, right: Seq<u8>) -> Seq<u8> {
    sha256(left + right).take(32)
}

/// The value of the root of a tree of height `depth` all of whose leaves hold
/// `leaf`.
pub open spec fn zero_hash_spec(leaf: Seq<u8>, depth: nat) -> Seq<u8>
    decreases depth,
{
    if depth == 0 {
        leaf
    } else {
        compress(zero_hash_spec(leaf, (depth - 1) as nat), zero_hash_spec(leaf, (depth - 1) as nat))
    }
}

/// Compresses two node values into the value of their parent.
pub fn hash(left: &[u8; 32], right: &[u8; 32]) -> (out: [u8; 32])
    ensures
        out@ == compress(left@, right@),
{
    let mut buf = [0u8; 64];
    for i in 0..32usize
        invariant
            forall|j: int| 0 <= j < i ==> buf@[j] == left@[j] && buf@[32 + j] == right@[j],
    {
        buf[i] = left[i];
        buf[32 + i] = right[i];
    }
    assert(buf@ =~= left@ + right@);
    let digest = sha256_digest(buf.as_slice());
    assert(digest@.take(32) =~= digest@);
    digest
}

/// The value of the root of a tree of height `depth` all of whose leaves hold
/// `leaf`, by `depth` compressions.
pub fn zero_hash(leaf: &[u8; 32], depth: u128) -> (out: [u8; 32])
    ensures
        out@ == zero_hash_spec(leaf@, depth as nat),
{
    let mut out = *leaf;
    let mut done: u128 = 0;
    while done < depth
        invariant
            done <= depth,
            out@ == zero_hash_spec(leaf@, done as nat),
        decreases depth - done,
    {
        out = hash(&out, &out);
        done = done + 1;
    }
    out
}

/// The values of the roots of the trees all of whose leaves hold one value,
/// by height; each is computed once, when a tree of its height or a higher one
/// is first asked for.
pub struct ZeroHashes {
    leaf: [u8; 32],
    above: Vec<[u8; 32]>,
}

impl ZeroHashes {
    /// The value for a height, as far as it has been computed: the leaf value
    /// for height 0, then the items of `above`.
    spec fn known(leaf: [u8; 32], above: Seq<[u8; 32]>, depth: int) -> Seq<u8> {
        if depth == 0 {
            leaf@
        } else {
            above[depth - 1]@
        }
    }

    /// Each value is the compression of the one below with itself.
    spec fn chain(leaf: [u8; 32], above: Seq<[u8; 32]>) -> bool {
        forall|depth: int|
            0 < depth <= above.len() ==> #[trigger] Self::known(leaf, above, depth) == compress(
                Self::known(leaf, above, depth - 1),
                Self::known(leaf, above, depth - 1),
            )
    }

    #[verifier::type_invariant]
    spec fn chained(self) -> bool {
        Self::chain(self.leaf, self.above@)
    }

    /// The value that the leaves hold.
    pub closed spec fn leaf(&self) -> Seq<u8> {
        self.leaf@
    }

    /// What is known for a height is the zero hash of that height.
    proof fn lemma_known(leaf: [u8; 32], above: Seq<[u8; 32]>, depth: nat)
        requires
            Self::chain(leaf, above),
            depth <= above.len(),
        ensures
            Self::known(leaf, above, depth as int) == zero_hash_spec(leaf@, depth),
        decreases depth,
    {
        if depth > 0 {
            Self::lemma_known(leaf, above, (depth - 1) as nat);
        }
    }

    /// The zero hashes of the leaf value `leaf`.
    pub fn new(leaf: &[u8; 32]) -> (hashes: Self)
        ensures
            hashes.leaf() == leaf@,
    {
        ZeroHashes { leaf: *leaf, above: Vec::new() }
    }

    /// The value of the root of a tree of height `depth`.
    pub fn at(&mut self, depth: u128) -> (out: [u8; 32])
        ensures
            out@ == zero_hash_spec(old(self).leaf(), depth as nat),
            final(self).leaf() == old(self).leaf(),
    {
        proof {
            use_type_invariant(&*self);
        }
        if depth == 0 {
            return self.leaf;
        }
        let leaf = self.leaf;
        let mut above = Vec::new();
        std::mem::swap(&mut above, &mut self.above);
        while (above.len() as u128) < depth
            invariant
                Self::chain(leaf, above@),
            decreases depth - above@.len(),
        {
            let last = if above.len() == 0 {
                leaf
            } else {
                above[above.len() - 1]
            };
            let ghost before = above@;
            above.push(hash(&last, &last));
            assert forall|level: int| 0 < level <= above@.len() implies #[trigger] Self::known(
                leaf,
                above@,
                level,
            ) == compress(
                Self::known(leaf, above@, level - 1),
                Self::known(leaf, above@, level - 1),
            ) by {
                if level < above@.len() {
                    assert(Self::known(leaf, before, level) == Self::known(leaf, above@, level));
                }
            }
        }
        let out = above[(depth - 1) as usize];
        proof {
            Self::lemma_known(leaf, above@, depth as nat);
        }
        self.above = above;
        out
    }
}

} // verus!
