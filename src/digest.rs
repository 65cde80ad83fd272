use vstd::prelude::*;

use crate::nibbles::{all_nibbles, encode_path, hex_prefix};

verus! {

/// Width in bytes of every digest.
pub const DIGEST_LENGTH: usize = 32;

/// Failures of trie construction and insertion.
#[derive(Debug, Clone, Copy, PartialEq, Eq, Structural)]
pub enum TrieError {
    /// A value that must be a digest does not have the digest width.
    InvalidValueWidth,
    /// The key is already present.
    DuplicateKey,
    /// A branch was given a number of slots other than 16, or fewer than two children.
    StructuralInvariantViolation,
    /// The two selector nibbles of a leaf split coincide.
    InternalInconsistency,
    /// A leaf's edge is not a suffix of the routing path of its key.
    EdgeNotSuffix,
    /// The key's length differs from that of the keys already in the trie.
    KeyLengthMismatch,
}

/// The sentinel digest of emptiness: all zero bytes.
pub open spec fn zero_digest() -> Seq<u8> {
    Seq::new(DIGEST_LENGTH as nat, |i: int| 0u8)
}

/// The digest oracle. Every preimage in this library is stated over it; its
/// only visible property is its width (see `lemma_digest_len`). The present
/// oracle yields the sentinel for every input.
#[verifier::opaque]
pub open spec fn digest_of(data: Seq<u8>) -> Seq<u8> {
    zero_digest()
}

/// Every digest has the digest width.
pub proof fn lemma_digest_len(data: Seq<u8>)
    ensures
        #[trigger] digest_of(data).len() == DIGEST_LENGTH,
{
    reveal(digest_of);
}

/// Digest of a leaf: the hex-prefix encoded edge followed by the value's digest.
pub open spec fn leaf_digest(edge: Seq<u8>, value: Seq<u8>) -> Seq<u8> {
    digest_of(hex_prefix(edge) + digest_of(value))
}

/// Digest of a branch: the edge followed by the merkle root of its children.
pub open spec fn branch_digest(edge: Seq<u8>, root: Seq<u8>) -> Seq<u8> {
    digest_of(edge + root)
}

/// The digest oracle.
pub fn hash(data: &Vec<u8>) -> (r: Vec<u8>)
    ensures
        r@ == digest_of(data@),
        r@.len() == DIGEST_LENGTH,
{
    reveal(digest_of);
    let mut r: Vec<u8> = Vec::new();
    let mut i: usize = 0;
    while i < DIGEST_LENGTH
        invariant
            i <= DIGEST_LENGTH,
            r@ =~= zero_digest().take(i as int),
        decreases DIGEST_LENGTH - i,
    {
        r.push(0u8);
        i = i + 1;
    }
    assert(r@ =~= zero_digest());
    r
}

/// The sentinel digest of emptiness.
pub fn empty_digest() -> (r: Vec<u8>)
    ensures
        r@ == zero_digest(),
{
    let mut r: Vec<u8> = Vec::new();
    let mut i: usize = 0;
    while i < DIGEST_LENGTH
        invariant
            i <= DIGEST_LENGTH,
            r@ =~= zero_digest().take(i as int),
        decreases DIGEST_LENGTH - i,
    {
        r.push(0u8);
        i = i + 1;
    }
    assert(r@ =~= zero_digest());
    r
}

/// Leaf digest from an edge and the digest of the leaf's value; fails when
/// the latter is not a digest.
pub fn leaf_hash(prefix_nibbles: Vec<u8>, value: Vec<u8>) -> (r: Result<Vec<u8>, TrieError>)
    requires
        all_nibbles(prefix_nibbles@),
    ensures
        r is Ok <==> value@.len() == DIGEST_LENGTH,
        r is Err ==> r == Err::<Vec<u8>, TrieError>(TrieError::InvalidValueWidth),
        r matches Ok(h) ==> h@ == digest_of(hex_prefix(prefix_nibbles@) + value@),
{
    if value.len() != DIGEST_LENGTH {
        return Err(TrieError::InvalidValueWidth);
    }
    let mut pre = encode_path(&prefix_nibbles);
    let mut tail = value;
    pre.append(&mut tail);
    Ok(hash(&pre))
}

/// Branch digest from an edge and the merkle root of the children; fails
/// when the root is not a digest.
pub fn branch_hash(prefix_nibbles: &Vec<u8>, root: &Vec<u8>) -> (r: Result<Vec<u8>, TrieError>)
    ensures
        r is Ok <==> root@.len() == DIGEST_LENGTH,
        r is Err ==> r == Err::<Vec<u8>, TrieError>(TrieError::InvalidValueWidth),
        r matches Ok(h) ==> h@ == branch_digest(prefix_nibbles@, root@),
{
    if root.len() != DIGEST_LENGTH {
        return Err(TrieError::InvalidValueWidth);
    }
    let mut pre = prefix_nibbles.clone();
    let mut tail = root.clone();
    assert(pre@ =~= prefix_nibbles@);
    assert(tail@ =~= root@);
    pre.append(&mut tail);
    Ok(hash(&pre))
}

} // verus!
