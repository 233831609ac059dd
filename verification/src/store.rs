//! A content-addressed blob store: prior file contents are kept under the
//! lower-case hex SHA-256 of their bytes, so identical contents are stored once.

use vstd::prelude::*;
use sha2::{Digest, Sha256};
use crate::paths::{join, join_path};
use crate::text::{hex_lower, to_hex_lower};

verus! {

/// The SHA-256 digest of a byte string.
pub uninterp spec fn sha256(data: Seq<u8>) -> Seq<u8>;

/// `sha2::Sha256::digest`: the 32-byte SHA-256 digest of `data`.
#[verifier::external_body]
fn sha256_digest(data: &[u8]) -> (r: Vec<u8>)
    ensures
        r@ == sha256(data@),
        r@.len() == 32,
{
    Sha256::digest(data).to_vec()
}

/// Where blobs live: one file per content hash under `root`.
#[derive(Clone, Debug, PartialEq, Eq)]
pub struct Store {
    pub root: String,
}

proof fn lemma_hex_len(bytes: Seq<u8>)
    ensures
        hex_lower(bytes).len() == 2 * bytes.len(),
    decreases bytes.len(),
{
    if bytes.len() > 0 {
        lemma_hex_len(bytes.drop_last());
    }
}

impl Store {
    pub fn new(root: String) -> (s: Store)
        ensures
            s.root@ == root@,
    {
        Store { root }
    }

    /// The content hash of `data`: its SHA-256 in lower-case hex.
    pub fn hash_hex(data: &[u8]) -> (h: String)
        ensures
            h@ == hex_lower(sha256(data@)),
            h@.len() == 64,
    {
        let digest = sha256_digest(data);
        proof {
            lemma_hex_len(digest@);
        }
        to_hex_lower(digest.as_slice())
    }

    /// The file that holds the blob with hash `hash`.
    pub fn object_path(&self, hash: &str) -> (p: String)
        ensures
            p@ == join(self.root@, hash@),
    {
        join_path(self.root.as_str(), hash)
    }
}

} // verus!
