//! A Merkle-Patricia trie: a path-compressed key/value index whose nodes
//! carry digests committing to their whole subtree.
pub mod digest;
pub mod nibbles;
pub mod trie;

pub use digest::{branch_hash, empty_digest, hash, leaf_hash, TrieError, DIGEST_LENGTH};
pub use nibbles::{common_prefix, encode_path, to_nibbles};
pub use trie::{merkle_root, to_sparse_vec, Trie};
