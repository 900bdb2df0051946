//! The series commit: the record binding sizes, code parameters, AEAD
//! algorithm and Merkle root, and the Series Commit Identifier derived from
//! its canonical encoding.

use vstd::prelude::*;

use crate::bytes::u64_le_bytes;
use crate::hashes::{sha256, sha256_of};
use crate::hexcode::{hex_encode, hex_of};
use crate::poc::{enc_str, utf8};

verus! {

/// The commitment record of one packed series.
#[derive(Clone, Debug)]
pub struct SeriesCommit {
    pub version: u8,
    pub size_bytes: usize,
    pub chunk_size: usize,
    pub erasure_data: usize,
    pub erasure_parity: usize,
    pub aead_alg: String,
    pub merkle_root: Vec<u8>,
}

/// The canonical encoding of a commit: version byte, the four sizes as
/// little-endian 64-bit words, the length-prefixed algorithm name, and the
/// root bytes.
pub open spec fn spec_commit_encoding(c: &SeriesCommit) -> Seq<u8> {
    seq![c.version] + u64_le_bytes(c.size_bytes as u64) + u64_le_bytes(c.chunk_size as u64)
        + u64_le_bytes(c.erasure_data as u64) + u64_le_bytes(c.erasure_parity as u64) + enc_str(
        c.aead_alg@,
    ) + c.merkle_root@
}

/// The Series Commit Identifier: lowercase hex of the SHA-256 digest of the
/// canonical encoding.
pub open spec fn spec_scid(c: &SeriesCommit) -> Seq<char> {
    hex_of(sha256_of(spec_commit_encoding(c)))
}

/// Field-for-field agreement of two commits, by value and view.
pub open spec fn commit_matches(a: &SeriesCommit, b: &SeriesCommit) -> bool {
    &&& a.version == b.version
    &&& a.size_bytes == b.size_bytes
    &&& a.chunk_size == b.chunk_size
    &&& a.erasure_data == b.erasure_data
    &&& a.erasure_parity == b.erasure_parity
    &&& a.aead_alg@ == b.aead_alg@
    &&& a.merkle_root@ == b.merkle_root@
}

/// Logically equal commits have one identifier: the SCID is a function of
/// the commit's fields alone, independent of any serialization.
pub proof fn lemma_scid_stable(a: &SeriesCommit, b: &SeriesCommit)
    requires
        commit_matches(a, b),
    ensures
        spec_scid(a) == spec_scid(b),
{
    assert(spec_commit_encoding(a) =~= spec_commit_encoding(b));
}

impl SeriesCommit {
    /// Compute the Series Commit Identifier.
    pub fn scid(&self) -> (r: String)
        ensures
            r@ == spec_scid(self),
    {
        let mut buf: Vec<u8> = Vec::new();
        buf.push(self.version);
        let mut w = crate::bytes::u64_to_le_vec(self.size_bytes as u64);
        buf.append(&mut w);
        let mut w = crate::bytes::u64_to_le_vec(self.chunk_size as u64);
        buf.append(&mut w);
        let mut w = crate::bytes::u64_to_le_vec(self.erasure_data as u64);
        buf.append(&mut w);
        let mut w = crate::bytes::u64_to_le_vec(self.erasure_parity as u64);
        buf.append(&mut w);
        let alg_bytes = self.aead_alg.as_str().as_bytes();
        let mut len_bytes = crate::bytes::u64_to_le_vec(alg_bytes.len() as u64);
        buf.append(&mut len_bytes);
        buf.extend_from_slice(alg_bytes);
        buf.extend_from_slice(self.merkle_root.as_slice());
        proof {
            assert(buf@ =~= spec_commit_encoding(self));
        }
        let digest = sha256(&buf);
        hex_encode(&digest)
    }
}

} // verus!
