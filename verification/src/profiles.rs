//! The packaging profiles' computation cores: whole-file Reed–Solomon
//! packing and unpacking, the streaming per-chunk variants, the fountain
//! packing and peeling, and pack verification. File reading and writing
//! stay with the caller; these functions map plain bytes to plain bytes.

use vstd::prelude::*;

use vstd::string::StringExecFns;

use crate::crypto::{derive_nonce_from_base, derived_nonce, xchacha_seal, KeySchedule, Nonce};
use crate::erasure::{encode, opt_view, reconstruct, rs_codeword, rs_shard_len, ShardMetadata, ShardedBlob};
use crate::errors::S3pError;
use crate::fountain::{
    complete_blocks, decoded_len, eq_sat, sorted_unique, FountainDecoder, FountainEncoder,
    FountainMetadata, FountainPacket,
};
use crate::hashes::sha256_of;
use crate::hexcode::{hex_decode, hex_encode, hex_of, unhex};
use crate::merkle::{leaf_hash, merkle_root, merkle_root_spec};
use crate::poc::utf8;
use crate::series::{spec_scid, SeriesCommit};

verus! {

/// The SHA-256 leaf hashes of a shard list, in order.
pub open spec fn shard_leaves(shards: Seq<Seq<u8>>) -> Seq<Seq<u8>> {
    Seq::new(shards.len(), |i: int| sha256_of(shards[i]))
}

/// Manifest of a whole-file Reed–Solomon pack.
pub struct Manifest {
    pub version: u8,
    pub scid: String,
    pub commit: SeriesCommit,
    pub aad: String,
    pub nonce_hex: String,
    pub ct_len: usize,
    pub data_shards: usize,
    pub parity_shards: usize,
    pub file_name: String,
}

/// Compute the leaf hashes of the shards.
fn hash_shards(shards: &Vec<Vec<u8>>) -> (r: Vec<Vec<u8>>)
    ensures
        r.deep_view() == shard_leaves(shards.deep_view()),
        r@.len() == shards@.len(),
{
    let mut leaves: Vec<Vec<u8>> = Vec::new();
    let mut i: usize = 0;
    while i < shards.len()
        invariant
            i <= shards@.len(),
            leaves@.len() == i,
            forall|t: int| 0 <= t < i ==> (#[trigger] leaves@[t]@) == sha256_of(shards@[t]@),
        decreases shards@.len() - i,
    {
        leaves.push(leaf_hash(&shards[i]));
        i += 1;
    }
    proof {
        assert forall|t: int| 0 <= t < leaves@.len() implies (#[trigger] leaves.deep_view()[t])
            == shard_leaves(shards.deep_view())[t] by {
            assert(leaves.deep_view()[t] =~= leaves@[t]@);
            assert(shards.deep_view()[t] =~= shards@[t]@);
        }
        assert(leaves.deep_view() =~= shard_leaves(shards.deep_view()));
    }
    leaves
}

/// A whole-file pack: the coded shards with their manifest.
pub struct RsPack {
    pub blob: ShardedBlob,
    pub manifest: Manifest,
}

/// A pack output is sound for given inputs when some 24-byte nonce ties
/// all its parts together.
pub open spec fn pack_ok(
    p: &RsPack,
    key: Seq<u8>,
    aad: Seq<char>,
    file_name: Seq<char>,
    plain: Seq<u8>,
    data_shards: usize,
    parity_shards: usize,
) -> bool {
    exists|nonce: Seq<u8>|
        #[trigger] packed_with(
            &p.blob,
            &p.manifest,
            key,
            aad,
            file_name,
            plain,
            data_shards,
            parity_shards,
            nonce,
        )
}

/// The relation a successful whole-file pack establishes between the
/// plaintext, the chosen nonce, the shards and the manifest.
pub open spec fn packed_with(
    blob: &ShardedBlob,
    manifest: &Manifest,
    key: Seq<u8>,
    aad: Seq<char>,
    file_name: Seq<char>,
    plain: Seq<u8>,
    data_shards: usize,
    parity_shards: usize,
    nonce: Seq<u8>,
) -> bool {
    let ct = xchacha_seal(key, nonce, utf8(aad), plain);
    let shard_len = rs_shard_len((plain.len() + 16) as nat, data_shards as nat);
    &&& nonce.len() == 24
    &&& ct.len() == plain.len() + 16
    &&& manifest.nonce_hex@ == hex_of(nonce)
    &&& blob.shards.deep_view() == rs_codeword(
        crate::bytes::blocks_of(ct, data_shards as nat, shard_len),
        parity_shards as nat,
    )
    &&& blob.shards@.len() == data_shards + parity_shards
    &&& (forall|i: int| 0 <= i < blob.shards@.len() ==> (#[trigger] blob.shards@[i]@).len() == shard_len)
    &&& blob.meta.data_shards == data_shards
    &&& blob.meta.parity_shards == parity_shards
    &&& blob.meta.shard_len == shard_len
    &&& blob.meta.original_len == ct.len()
    &&& manifest.version == 1
    &&& manifest.ct_len == ct.len()
    &&& manifest.data_shards == data_shards
    &&& manifest.parity_shards == parity_shards
    &&& manifest.aad@ == aad
    &&& manifest.file_name@ == file_name
    &&& manifest.commit.version == 1
    &&& manifest.commit.size_bytes == plain.len()
    &&& manifest.commit.chunk_size == ct.len()
    &&& manifest.commit.erasure_data == data_shards
    &&& manifest.commit.erasure_parity == parity_shards
    &&& manifest.commit.aead_alg@ == "XChaCha20-Poly1305"@
    &&& manifest.commit.merkle_root@ == merkle_root_spec(
        false,
        shard_leaves(blob.shards.deep_view()),
    )
    &&& manifest.scid@ == spec_scid(&manifest.commit)
}

/// Pack a payload under the whole-file profile: seal it under a fresh
/// random nonce, erasure-code the ciphertext, and commit the shards under
/// a Merkle root and its identifier.
pub fn pack_artifact(
    plain: &Vec<u8>,
    data_shards: usize,
    parity_shards: usize,
    ks: &KeySchedule,
    aad: &String,
    file_name: &String,
) -> (r: Result<RsPack, S3pError>)
    requires
        ks.wf(),
        plain@.len() / 64 < 4294967295,
        plain@.len() + 16 <= usize::MAX - 256,
    ensures
        r is Ok <==> (1 <= data_shards && 1 <= parity_shards && data_shards + parity_shards
            <= 256),
        r matches Ok(p) ==> pack_ok(
            &p,
            ks.key_bytes(),
            aad@,
            file_name@,
            plain@,
            data_shards,
            parity_shards,
        ),
{
    let mut aad_bytes: Vec<u8> = Vec::new();
    aad_bytes.extend_from_slice(aad.as_str().as_bytes());
    proof {
        assert(aad_bytes@ =~= utf8(aad@));
    }
    let (ciphertext, nonce) = match ks.seal(&aad_bytes, plain) {
        Ok(p) => p,
        Err(e) => {
            proof {
                assert(false);
            }
            return Err(e);
        },
    };
    let blob = match encode(&ciphertext, data_shards, parity_shards) {
        Ok(b) => b,
        Err(e) => {
            return Err(e);
        },
    };
    let leaves = hash_shards(&blob.shards);
    let root = match merkle_root(leaves) {
        Ok(rt) => rt,
        Err(e) => {
            proof {
                assert(false);
            }
            return Err(e);
        },
    };
    let commit = SeriesCommit {
        version: 1,
        size_bytes: plain.len(),
        chunk_size: ciphertext.len(),
        erasure_data: data_shards,
        erasure_parity: parity_shards,
        aead_alg: String::from_str("XChaCha20-Poly1305"),
        merkle_root: root,
    };
    let scid = commit.scid();
    let manifest = Manifest {
        version: 1,
        scid,
        commit,
        aad: aad.clone(),
        nonce_hex: hex_encode(nonce.as_bytes()),
        ct_len: ciphertext.len(),
        data_shards,
        parity_shards,
        file_name: file_name.clone(),
    };
    let result = RsPack { blob, manifest };
    proof {
        let n = nonce@;
        assert(packed_with(
            &result.blob,
            &result.manifest,
            ks.key_bytes(),
            aad@,
            file_name@,
            plain@,
            data_shards,
            parity_shards,
            n,
        ));
        assert(pack_ok(
            &result,
            ks.key_bytes(),
            aad@,
            file_name@,
            plain@,
            data_shards,
            parity_shards,
        ));
    }
    Ok(result)
}

/// How a pack verification failed, if it did.
#[derive(Clone, Copy, Debug, PartialEq, Eq, Structural)]
pub enum VerifyOutcome {
    /// Root and identifier both match the shards.
    Accepted,
    /// The recomputed Merkle root differs from the committed one.
    RootMismatch,
    /// The recomputed identifier differs from the recorded one.
    ScidMismatch,
}

/// Recompute the Merkle root over the shards and the commit identifier,
/// and compare both against the manifest's records: root first.
pub fn verify_pack_core(commit: &SeriesCommit, recorded_scid: &String, shards: &Vec<Vec<u8>>) -> (r:
    VerifyOutcome)
    requires
        shards@.len() >= 1,
    ensures
        r == (if commit.merkle_root@ != merkle_root_spec(
            false,
            shard_leaves(shards.deep_view()),
        ) {
            VerifyOutcome::RootMismatch
        } else if recorded_scid@ != spec_scid(commit) {
            VerifyOutcome::ScidMismatch
        } else {
            VerifyOutcome::Accepted
        }),
{
    let leaves = hash_shards(shards);
    let root = match merkle_root(leaves) {
        Ok(rt) => rt,
        Err(_) => {
            proof {
                assert(false);
            }
            return VerifyOutcome::RootMismatch;
        },
    };
    if !crate::bytes::bytes_eq(&root, &commit.merkle_root) {
        return VerifyOutcome::RootMismatch;
    }
    let scid = commit.scid();
    if !(scid == *recorded_scid) {
        return VerifyOutcome::ScidMismatch;
    }
    VerifyOutcome::Accepted
}

/// The surviving shards agree with a whole-file pack of plaintext `pt`
/// sealed under `nonce` and this manifest's parameters.
pub open spec fn survivors_match(
    manifest: &Manifest,
    shards: Seq<Option<Vec<u8>>>,
    key: Seq<u8>,
    pt: Seq<u8>,
    nonce: Seq<u8>,
) -> bool {
    let ct = xchacha_seal(key, nonce, utf8(manifest.aad@), pt);
    let k = manifest.data_shards;
    let shard_len = rs_shard_len(manifest.ct_len as nat, k as nat);
    &&& pt.len() / 64 < 4294967295
    &&& nonce.len() == 24
    &&& manifest.nonce_hex@ == hex_of(nonce)
    &&& ct.len() == manifest.ct_len
    &&& (forall|i: int|
        0 <= i < shards.len() && shards[i] is Some ==> opt_view(#[trigger] shards[i])
            == rs_codeword(
            crate::bytes::blocks_of(ct, k as nat, shard_len),
            manifest.parity_shards as nat,
        )[i])
}

/// A shard list from which the pack is recoverable: agreement with a pack
/// of some plaintext, one slot per shard, sound code parameters, enough
/// present shards, and each present shard of the committed length.
pub open spec fn pack_recoverable(
    manifest: &Manifest,
    shards: Seq<Option<Vec<u8>>>,
    key: Seq<u8>,
    pt: Seq<u8>,
    nonce: Seq<u8>,
) -> bool {
    let k = manifest.data_shards;
    let m = manifest.parity_shards;
    let shard_len = rs_shard_len(manifest.ct_len as nat, k as nat);
    &&& survivors_match(manifest, shards, key, pt, nonce)
    &&& xchacha_seal(key, nonce, utf8(manifest.aad@), pt).len() == pt.len() + 16
    &&& pt.len() + 16 <= usize::MAX - 256
    &&& shards.len() == k + m
    &&& 1 <= k
    &&& 1 <= m
    &&& k + m <= 256
    &&& crate::erasure::num_present(shards) >= k
    &&& (forall|i: int|
        0 <= i < shards.len() && shards[i] is Some ==> opt_view(#[trigger] shards[i]).len()
            == shard_len)
}

/// What holds of the manifest and shard list once a pack is recoverable.
proof fn lemma_recoverable_facts(
    manifest: &Manifest,
    shards: Seq<Option<Vec<u8>>>,
    key: Seq<u8>,
    pt: Seq<u8>,
    nonce: Seq<u8>,
)
    requires
        pack_recoverable(manifest, shards, key, pt, nonce),
    ensures
        manifest.ct_len == pt.len() + 16,
        16 <= manifest.ct_len,
        manifest.ct_len <= usize::MAX - 256,
        crate::hexcode::is_hex(manifest.nonce_hex@),
        unhex(manifest.nonce_hex@) == nonce,
        nonce.len() == 24,
{
    crate::hexcode::lemma_hex_round_trip(nonce);
}

/// Unpack a whole-file pack from its manifest and whatever shards survive:
/// rebuild the ciphertext from any `data_shards` of them, open it, and cut
/// the plaintext at the recorded size. Succeeds whenever the pack is
/// recoverable from the list, and whenever the surviving shards agree with
/// a pack of some plaintext under this manifest, that plaintext comes
/// back.
pub fn unpack_artifact(
    manifest: &Manifest,
    shards_opt: Vec<Option<Vec<u8>>>,
    ks: &KeySchedule,
) -> (r: Result<Vec<u8>, S3pError>)
    requires
        ks.wf(),
    ensures
        r matches Ok(out) ==> forall|pt: Seq<u8>, nonce: Seq<u8>|
            #[trigger] survivors_match(manifest, shards_opt@, ks.key_bytes(), pt, nonce) ==> out@
                == pt.take(
                if manifest.commit.size_bytes <= pt.len() {
                    manifest.commit.size_bytes as int
                } else {
                    pt.len() as int
                },
            ),
        (exists|pt: Seq<u8>, nonce: Seq<u8>|
            #[trigger] pack_recoverable(manifest, shards_opt@, ks.key_bytes(), pt, nonce)) ==> r
            is Ok,
{
    let ghost recoverable = exists|pt: Seq<u8>, nonce: Seq<u8>|
        #[trigger] pack_recoverable(manifest, shards_opt@, ks.key_bytes(), pt, nonce);
    let k = manifest.data_shards;
    let m = manifest.parity_shards;
    if k == 0 {
        proof {
            if recoverable {
                let (pt, n) = choose|pt: Seq<u8>, n: Seq<u8>|
                    pack_recoverable(manifest, shards_opt@, ks.key_bytes(), pt, n);
                assert(false);
            }
        }
        return Err(S3pError::ReedSolomon(crate::errors::RsError::TooFewDataShards));
    }
    if manifest.ct_len == 0 {
        proof {
            if recoverable {
                let (pt, n) = choose|pt: Seq<u8>, n: Seq<u8>|
                    pack_recoverable(manifest, shards_opt@, ks.key_bytes(), pt, n);
                lemma_recoverable_facts(manifest, shards_opt@, ks.key_bytes(), pt, n);
                assert(false);
            }
        }
        return Err(S3pError::ReedSolomon(crate::errors::RsError::EmptyShard));
    }
    if manifest.ct_len > usize::MAX - 256 {
        proof {
            if recoverable {
                let (pt, n) = choose|pt: Seq<u8>, n: Seq<u8>|
                    pack_recoverable(manifest, shards_opt@, ks.key_bytes(), pt, n);
                lemma_recoverable_facts(manifest, shards_opt@, ks.key_bytes(), pt, n);
                assert(false);
            }
        }
        return Err(S3pError::ReedSolomon(crate::errors::RsError::IncorrectShardSize));
    }
    if k > 256 {
        proof {
            if recoverable {
                let (pt, n) = choose|pt: Seq<u8>, n: Seq<u8>|
                    pack_recoverable(manifest, shards_opt@, ks.key_bytes(), pt, n);
                assert(false);
            }
        }
        return Err(S3pError::ReedSolomon(crate::errors::RsError::TooManyShards));
    }
    let shard_len: usize = (manifest.ct_len + k - 1) / k;
    proof {
        vstd::arithmetic::div_mod::lemma_fundamental_div_mod(
            (manifest.ct_len + k - 1) as int,
            k as int,
        );
        vstd::arithmetic::div_mod::lemma_div_non_zero((manifest.ct_len + k - 1) as int, k as int);
        assert(k * shard_len >= manifest.ct_len);
        assert(shard_len == rs_shard_len(manifest.ct_len as nat, k as nat));
    }
    let meta = ShardMetadata {
        data_shards: k,
        parity_shards: m,
        shard_len,
        original_len: manifest.ct_len,
    };
    let ghost shards_view = shards_opt@;
    let joined = match reconstruct(&meta, shards_opt) {
        Ok(j) => j,
        Err(e) => {
            proof {
                if recoverable {
                    let (pt, n) = choose|pt: Seq<u8>, n: Seq<u8>|
                        pack_recoverable(manifest, shards_view, ks.key_bytes(), pt, n);
                    lemma_recoverable_facts(manifest, shards_view, ks.key_bytes(), pt, n);
                    assert(false);
                }
            }
            return Err(e);
        },
    };
    let nonce_bytes = match hex_decode(manifest.nonce_hex.as_str()) {
        Some(b) => b,
        None => {
            proof {
                if recoverable {
                    let (pt, n) = choose|pt: Seq<u8>, n: Seq<u8>|
                        pack_recoverable(manifest, shards_view, ks.key_bytes(), pt, n);
                    lemma_recoverable_facts(manifest, shards_view, ks.key_bytes(), pt, n);
                    assert(false);
                }
            }
            return Err(S3pError::InvalidNonce);
        },
    };
    let nonce = match Nonce::from_slice(&nonce_bytes) {
        Ok(n) => n,
        Err(e) => {
            proof {
                if recoverable {
                    let (pt, n2) = choose|pt: Seq<u8>, n2: Seq<u8>|
                        pack_recoverable(manifest, shards_view, ks.key_bytes(), pt, n2);
                    lemma_recoverable_facts(manifest, shards_view, ks.key_bytes(), pt, n2);
                    assert(false);
                }
            }
            return Err(e);
        },
    };
    let mut aad_bytes: Vec<u8> = Vec::new();
    aad_bytes.extend_from_slice(manifest.aad.as_str().as_bytes());
    proof {
        assert(aad_bytes@ =~= utf8(manifest.aad@));
    }
    let mut plain = match ks.open(&aad_bytes, &nonce, &joined) {
        Ok(p) => p,
        Err(e) => {
            proof {
                if recoverable {
                    let (pt, n) = choose|pt: Seq<u8>, n: Seq<u8>|
                        pack_recoverable(manifest, shards_view, ks.key_bytes(), pt, n);
                    lemma_recoverable_facts(manifest, shards_view, ks.key_bytes(), pt, n);
                    let ct = xchacha_seal(ks.key_bytes(), n, utf8(manifest.aad@), pt);
                    assert(joined@ == ct);
                    assert(nonce@ == n);
                    assert(false);
                }
            }
            return Err(e);
        },
    };
    plain.truncate(manifest.commit.size_bytes);
    let result = plain;
    proof {
        assert forall|pt: Seq<u8>, nonce_s: Seq<u8>|
            #[trigger] survivors_match(
                manifest,
                shards_view,
                ks.key_bytes(),
                pt,
                nonce_s,
            ) implies result@ == pt.take(
            if manifest.commit.size_bytes <= pt.len() {
                manifest.commit.size_bytes as int
            } else {
                pt.len() as int
            },
        ) by {
            let ct = xchacha_seal(ks.key_bytes(), nonce_s, utf8(manifest.aad@), pt);
            assert(joined@ == ct);
            crate::hexcode::lemma_hex_round_trip(nonce_s);
            assert(unhex(manifest.nonce_hex@) == nonce_s);
            assert(nonce@ == nonce_s);
        }
    }
    Ok(result)
}

/// Seal one stream chunk under its derived nonce and erasure-code the
/// chunk ciphertext into stripes, one per shard file.
pub fn pack_stream_chunk(
    ks: &KeySchedule,
    aad: &String,
    nonce_base: &Nonce,
    idx: u64,
    chunk_plain: &Vec<u8>,
    data_shards: usize,
    parity_shards: usize,
) -> (r: Result<Vec<Vec<u8>>, S3pError>)
    requires
        ks.wf(),
        nonce_base.wf(),
        chunk_plain@.len() / 64 < 4294967295,
        chunk_plain@.len() + 16 <= usize::MAX - 256,
    ensures
        r is Ok <==> (1 <= data_shards && 1 <= parity_shards && data_shards + parity_shards
            <= 256),
        r matches Ok(stripes) ==> ({
            let ct = xchacha_seal(
                ks.key_bytes(),
                derived_nonce(nonce_base@, idx),
                utf8(aad@),
                chunk_plain@,
            );
            let shard_len = rs_shard_len((chunk_plain@.len() + 16) as nat, data_shards as nat);
            &&& stripes@.len() == data_shards + parity_shards
            &&& stripes.deep_view() == rs_codeword(
                crate::bytes::blocks_of(ct, data_shards as nat, shard_len),
                parity_shards as nat,
            )
            &&& (forall|i: int| 0 <= i < stripes@.len() ==> (#[trigger] stripes@[i]@).len() == shard_len)
        }),
{
    let nonce = derive_nonce_from_base(nonce_base, idx);
    let mut aad_bytes: Vec<u8> = Vec::new();
    aad_bytes.extend_from_slice(aad.as_str().as_bytes());
    proof {
        assert(aad_bytes@ =~= utf8(aad@));
    }
    let ciphertext = match ks.seal_with_nonce(&aad_bytes, &nonce, chunk_plain) {
        Ok(c) => c,
        Err(e) => {
            proof {
                assert(false);
            }
            return Err(e);
        },
    };
    let blob = match encode(&ciphertext, data_shards, parity_shards) {
        Ok(b) => b,
        Err(e) => {
            return Err(e);
        },
    };
    Ok(blob.shards)
}

/// The surviving stripes agree with a packed stream chunk of plaintext
/// `pt` at index `idx`.
pub open spec fn stripes_match(
    stripes: Seq<Option<Vec<u8>>>,
    key: Seq<u8>,
    aad: Seq<char>,
    base: Seq<u8>,
    idx: u64,
    data_shards: usize,
    parity_shards: usize,
    ct_len_per_chunk: usize,
    pt: Seq<u8>,
) -> bool {
    let ct = xchacha_seal(key, derived_nonce(base, idx), utf8(aad), pt);
    let shard_len = rs_shard_len(ct_len_per_chunk as nat, data_shards as nat);
    &&& pt.len() / 64 < 4294967295
    &&& ct.len() == ct_len_per_chunk
    &&& (forall|i: int|
        0 <= i < stripes.len() && stripes[i] is Some ==> opt_view(#[trigger] stripes[i])
            == rs_codeword(
            crate::bytes::blocks_of(ct, data_shards as nat, shard_len),
            parity_shards as nat,
        )[i])
}

/// A stripe list from which the chunk is recoverable: agreement with a
/// packed chunk of some plaintext, one slot per shard, sound code
/// parameters, enough present stripes, and each present stripe of the
/// committed length.
pub open spec fn chunk_recoverable(
    stripes: Seq<Option<Vec<u8>>>,
    key: Seq<u8>,
    aad: Seq<char>,
    base: Seq<u8>,
    idx: u64,
    data_shards: usize,
    parity_shards: usize,
    ct_len_per_chunk: usize,
    pt: Seq<u8>,
) -> bool {
    let shard_len = rs_shard_len(ct_len_per_chunk as nat, data_shards as nat);
    &&& stripes_match(
        stripes,
        key,
        aad,
        base,
        idx,
        data_shards,
        parity_shards,
        ct_len_per_chunk,
        pt,
    )
    &&& xchacha_seal(key, derived_nonce(base, idx), utf8(aad), pt).len() == pt.len() + 16
    &&& pt.len() + 16 <= usize::MAX - 256
    &&& stripes.len() == data_shards + parity_shards
    &&& 1 <= data_shards
    &&& 1 <= parity_shards
    &&& data_shards + parity_shards <= 256
    &&& crate::erasure::num_present(stripes) >= data_shards
    &&& (forall|i: int|
        0 <= i < stripes.len() && stripes[i] is Some ==> opt_view(#[trigger] stripes[i]).len()
            == shard_len)
}

/// Rebuild one stream chunk from its surviving stripes and open it under
/// the derived nonce. Succeeds whenever the chunk is recoverable from the
/// list, and whenever the stripes agree with a packed chunk of some
/// plaintext, that chunk comes back whole.
pub fn unpack_stream_chunk(
    ks: &KeySchedule,
    aad: &String,
    nonce_base: &Nonce,
    idx: u64,
    stripes: Vec<Option<Vec<u8>>>,
    data_shards: usize,
    parity_shards: usize,
    ct_len_per_chunk: usize,
) -> (r: Result<Vec<u8>, S3pError>)
    requires
        ks.wf(),
        nonce_base.wf(),
    ensures
        r matches Ok(out) ==> forall|pt: Seq<u8>|
            #[trigger] stripes_match(
                stripes@,
                ks.key_bytes(),
                aad@,
                nonce_base@,
                idx,
                data_shards,
                parity_shards,
                ct_len_per_chunk,
                pt,
            ) ==> out@ == pt,
        (exists|pt: Seq<u8>|
            #[trigger] chunk_recoverable(
                stripes@,
                ks.key_bytes(),
                aad@,
                nonce_base@,
                idx,
                data_shards,
                parity_shards,
                ct_len_per_chunk,
                pt,
            )) ==> r is Ok,
{
    let ghost recoverable = exists|pt: Seq<u8>|
        #[trigger] chunk_recoverable(
            stripes@,
            ks.key_bytes(),
            aad@,
            nonce_base@,
            idx,
            data_shards,
            parity_shards,
            ct_len_per_chunk,
            pt,
        );
    let k = data_shards;
    let m = parity_shards;
    proof {
        if recoverable {
            let pt = choose|pt: Seq<u8>|
                chunk_recoverable(
                    stripes@,
                    ks.key_bytes(),
                    aad@,
                    nonce_base@,
                    idx,
                    k,
                    m,
                    ct_len_per_chunk,
                    pt,
                );
            assert(1 <= k && 1 <= m && k + m <= 256);
            assert(ct_len_per_chunk == pt.len() + 16);
            assert(16 <= ct_len_per_chunk && ct_len_per_chunk <= usize::MAX - 256);
        }
    }
    if k == 0 {
        return Err(S3pError::ReedSolomon(crate::errors::RsError::TooFewDataShards));
    }
    if ct_len_per_chunk == 0 {
        return Err(S3pError::ReedSolomon(crate::errors::RsError::EmptyShard));
    }
    if ct_len_per_chunk > usize::MAX - 256 {
        return Err(S3pError::ReedSolomon(crate::errors::RsError::IncorrectShardSize));
    }
    if k > 256 {
        return Err(S3pError::ReedSolomon(crate::errors::RsError::TooManyShards));
    }
    let shard_len: usize = (ct_len_per_chunk + k - 1) / k;
    proof {
        vstd::arithmetic::div_mod::lemma_fundamental_div_mod(
            (ct_len_per_chunk + k - 1) as int,
            k as int,
        );
        vstd::arithmetic::div_mod::lemma_div_non_zero((ct_len_per_chunk + k - 1) as int, k as int);
        assert(k * shard_len >= ct_len_per_chunk);
        assert(shard_len == rs_shard_len(ct_len_per_chunk as nat, k as nat));
    }
    let meta = ShardMetadata {
        data_shards: k,
        parity_shards: m,
        shard_len,
        original_len: ct_len_per_chunk,
    };
    let ghost stripes_view = stripes@;
    let joined = match reconstruct(&meta, stripes) {
        Ok(j) => j,
        Err(e) => {
            proof {
                if recoverable {
                    let pt = choose|pt: Seq<u8>|
                        chunk_recoverable(
                            stripes_view,
                            ks.key_bytes(),
                            aad@,
                            nonce_base@,
                            idx,
                            k,
                            m,
                            ct_len_per_chunk,
                            pt,
                        );
                    assert(false);
                }
            }
            return Err(e);
        },
    };
    let nonce = derive_nonce_from_base(nonce_base, idx);
    let mut aad_bytes: Vec<u8> = Vec::new();
    aad_bytes.extend_from_slice(aad.as_str().as_bytes());
    proof {
        assert(aad_bytes@ =~= utf8(aad@));
    }
    let out = match ks.open(&aad_bytes, &nonce, &joined) {
        Ok(p) => p,
        Err(e) => {
            proof {
                if recoverable {
                    let pt = choose|pt: Seq<u8>|
                        chunk_recoverable(
                            stripes_view,
                            ks.key_bytes(),
                            aad@,
                            nonce_base@,
                            idx,
                            k,
                            m,
                            ct_len_per_chunk,
                            pt,
                        );
                    let ct = xchacha_seal(
                        ks.key_bytes(),
                        derived_nonce(nonce_base@, idx),
                        utf8(aad@),
                        pt,
                    );
                    assert(joined@ == ct);
                    assert(nonce@ == derived_nonce(nonce_base@, idx));
                    assert(false);
                }
            }
            return Err(e);
        },
    };
    proof {
        assert forall|pt: Seq<u8>|
            #[trigger] stripes_match(
                stripes_view,
                ks.key_bytes(),
                aad@,
                nonce_base@,
                idx,
                k,
                m,
                ct_len_per_chunk,
                pt,
            ) implies out@ == pt by {
            let ct = xchacha_seal(ks.key_bytes(), derived_nonce(nonce_base@, idx), utf8(aad@), pt);
            assert(joined@ == ct);
        }
    }
    Ok(out)
}

/// Emit the fountain packet stream for a ciphertext: cut it into `k`
/// blocks, emit the `k` systematic packets in order, then random coded
/// packets up to the target count (never below `k`). The coded stream is
/// seeded by `seed`, and its degrees are drawn from `degree_weights` when a
/// usable table is given (entry `d - 1` weighting degree `d`); otherwise
/// the encoder's built-in table applies.
pub fn pack_fountain_core(
    ciphertext: &Vec<u8>,
    k: usize,
    target_packets: usize,
    seed: u64,
    degree_weights: Option<Vec<u64>>,
) -> (r: Result<(FountainMetadata, Vec<FountainPacket>), S3pError>)
    requires
        ciphertext@.len() >= 1,
    ensures
        r is Ok <==> k >= 1,
        r matches Err(e) ==> e is Fountain,
        r matches Ok(p) ==> ({
            let meta = p.0;
            let packets = p.1;
            let block_len = rs_shard_len(ciphertext@.len(), k as nat);
            let blocks = crate::bytes::blocks_of(ciphertext@, k as nat, block_len);
            &&& meta == (FountainMetadata {
                original_len: ciphertext@.len() as usize,
                block_len: block_len as usize,
                block_count: k,
            })
            &&& packets@.len() == (if target_packets >= k {
                target_packets as int
            } else {
                k as int
            })
            &&& (forall|t: int|
                0 <= t < packets@.len() ==> {
                    let p2 = #[trigger] packets@[t];
                    &&& p2.metadata == meta
                    &&& sorted_unique(p2.indices@)
                    &&& 1 <= p2.indices@.len() <= k
                    &&& (forall|u: int| 0 <= u < p2.indices@.len() ==> p2.indices@[u] < k)
                    &&& p2.payload@.len() == block_len
                    &&& eq_sat(blocks, p2.indices@, p2.payload@, block_len)
                })
            &&& (forall|t: int|
                0 <= t < k && t < packets@.len() ==> (#[trigger] packets@[t]).indices@ == seq![
                    t as usize,
                ])
        }),
{
    let mut enc = match FountainEncoder::from_partition(ciphertext, k) {
        Ok(e) => e,
        Err(e) => {
            return Err(e);
        },
    };
    enc.set_seed(seed);
    match degree_weights {
        Some(w) => {
            let _ = enc.set_degree_weights(w);
        },
        None => {},
    }
    let meta = enc.metadata();
    let total: usize = if target_packets >= k {
        target_packets
    } else {
        k
    };
    let mut packets: Vec<FountainPacket> = Vec::new();
    let mut t: usize = 0;
    let ghost blocks = enc.blocks_view();
    let ghost block_len = meta.block_len;
    while t < total
        invariant
            t <= total,
            packets@.len() == t,
            enc.wf(),
            enc.blocks_view() == blocks,
            enc.meta_view() == meta,
            meta.block_count == k,
            meta.block_len == block_len,
            enc.systematic_pos() == if t < k {
                t as int
            } else {
                k as int
            },
            forall|u: int|
                0 <= u < packets@.len() ==> {
                    let p2 = #[trigger] packets@[u];
                    &&& p2.metadata == meta
                    &&& sorted_unique(p2.indices@)
                    &&& 1 <= p2.indices@.len() <= k
                    &&& (forall|w: int| 0 <= w < p2.indices@.len() ==> p2.indices@[w] < k)
                    &&& p2.payload@.len() == block_len
                    &&& eq_sat(blocks, p2.indices@, p2.payload@, block_len as nat)
                },
            forall|u: int|
                0 <= u < k && u < packets@.len() ==> (#[trigger] packets@[u]).indices@ == seq![
                    u as usize,
                ],
        decreases total - t,
    {
        let packet = enc.next_packet();
        packets.push(packet);
        t += 1;
    }
    Ok((meta, packets))
}

/// One recorded equation comes from a well-formed packet of the list.
pub open spec fn entry_covered(
    entry: (Seq<usize>, Seq<u8>),
    packets: Seq<FountainPacket>,
    meta: FountainMetadata,
) -> bool {
    exists|t: int|
        0 <= t < packets.len() && (#[trigger] packets[t]).metadata == meta && sorted_unique(
            packets[t].indices@,
        ) && entry == (packets[t].indices@, packets[t].payload@)
}

/// The list holds the systematic packet of block `i` under this metadata.
pub open spec fn has_systematic(
    packets: Seq<FountainPacket>,
    meta: FountainMetadata,
    i: int,
) -> bool {
    exists|t: int|
        0 <= t < packets.len() && (#[trigger] packets[t]).metadata == meta && packets[t].indices@
            == seq![i as usize] && packets[t].payload@.len() == meta.block_len
}

/// Feed a packet list to a fresh peeling decoder and return the recovered
/// ciphertext once every block is solved; `None` when the list does not
/// determine all blocks. Packets with unsorted or repeated indices are
/// skipped. Whatever comes back is the unique payload consistent with the
/// well-formed packets of the list; and a mutually consistent list holding
/// every systematic packet always decodes.
#[verifier::loop_isolation(false)]
pub fn peel_decode(meta: FountainMetadata, packets: Vec<FountainPacket>) -> (r: Option<Vec<u8>>)
    ensures
        r matches Some(d) ==> d@.len() == decoded_len(meta) && (forall|bl: Seq<Seq<u8>>|
            (complete_blocks(bl, meta.block_count as nat, meta.block_len as nat) && (forall|t: int|
                0 <= t < packets@.len() ==> ((#[trigger] packets@[t]).metadata == meta
                    && sorted_unique(packets@[t].indices@) ==> eq_sat(
                    bl,
                    packets@[t].indices@,
                    packets@[t].payload@,
                    meta.block_len as nat,
                )))) ==> d@ == crate::bytes::concat_all(bl).take(decoded_len(meta))),
        ((exists|bl: Seq<Seq<u8>>|
            #[trigger] complete_blocks(bl, meta.block_count as nat, meta.block_len as nat) && (
            forall|t: int|
                0 <= t < packets@.len() ==> ((#[trigger] packets@[t]).metadata == meta
                    && sorted_unique(packets@[t].indices@) ==> eq_sat(
                    bl,
                    packets@[t].indices@,
                    packets@[t].payload@,
                    meta.block_len as nat,
                )))) && (forall|j: int|
            0 <= j < meta.block_count ==> #[trigger] has_systematic(packets@, meta, j))) ==> r
            is Some,
{
    let ghost solvable = (exists|bl: Seq<Seq<u8>>|
        #[trigger] complete_blocks(bl, meta.block_count as nat, meta.block_len as nat) && (forall|
            t: int,
        |
            0 <= t < packets@.len() ==> ((#[trigger] packets@[t]).metadata == meta
                && sorted_unique(packets@[t].indices@) ==> eq_sat(
                bl,
                packets@[t].indices@,
                packets@[t].payload@,
                meta.block_len as nat,
            ))));
    let mut dec = FountainDecoder::new(meta);
    let mut i: usize = 0;
    let ghost n = meta.block_len;
    while i < packets.len()
        invariant
            i <= packets@.len(),
            n == meta.block_len,
            dec.inv(),
            dec.meta_view() == meta,
            dec.solutions_view().len() == meta.block_count,
            forall|e: int|
                0 <= e < dec.received_view().len() ==> entry_covered(
                    #[trigger] dec.received_view()[e],
                    packets@,
                    meta,
                ),
            solvable ==> (forall|j: int|
                0 <= j < meta.block_count && #[trigger] has_systematic(
                    packets@.take(i as int),
                    meta,
                    j,
                ) ==> dec.solutions_view()[j] is Some),
        decreases packets@.len() - i,
    {
        let ghost prev_dec = dec;
        let sorted = crate::fountain::is_sorted_unique(&packets[i].indices);
        if sorted {
            let packet = packets[i].clone();
            let ghost pre = dec.received_view();
            let res = dec.receive(packet);
            proof {
                assert forall|e: int|
                    0 <= e < dec.received_view().len() implies entry_covered(
                    #[trigger] dec.received_view()[e],
                    packets@,
                    meta,
                ) by {
                    let rec = dec.received_view();
                    if rec != pre {
                        if e < pre.len() {
                            assert(rec[e] == pre[e]);
                        } else {
                            assert(rec[e] == (
                                packets@[i as int].indices@,
                                packets@[i as int].payload@,
                            ));
                            assert(packets@[i as int].metadata == meta);
                        }
                    }
                }
                if solvable {
                    lemma_covered_decodes(&dec, packets@, meta, n);
                    let bl0 = choose|bl: Seq<Seq<u8>>|
                        #[trigger] complete_blocks(
                            bl,
                            meta.block_count as nat,
                            meta.block_len as nat,
                        ) && (forall|t: int|
                            0 <= t < packets@.len() ==> ((#[trigger] packets@[t]).metadata == meta
                                && sorted_unique(packets@[t].indices@) ==> eq_sat(
                                bl,
                                packets@[t].indices@,
                                packets@[t].payload@,
                                meta.block_len as nat,
                            )));
                    assert(dec.consistent(bl0));
                    assert forall|j: int|
                        0 <= j < meta.block_count && #[trigger] has_systematic(
                            packets@.take(i as int + 1),
                            meta,
                            j,
                        ) implies dec.solutions_view()[j] is Some by {
                        let w = choose|w: int|
                            0 <= w < packets@.take(i as int + 1).len() && (#[trigger] packets@.take(
                                i as int + 1,
                            )[w]).metadata == meta && packets@.take(i as int + 1)[w].indices@
                                == seq![j as usize] && packets@.take(i as int + 1)[w].payload@.len()
                                == meta.block_len;
                        if w < i {
                            assert(packets@.take(i as int)[w] == packets@[w]);
                            assert(has_systematic(packets@.take(i as int), meta, j));
                            assert(prev_dec.solutions_view()[j] is Some);
                        } else {
                            assert(packets@[i as int].indices@ == seq![j as usize]);
                            assert(packets@[i as int].indices@[0] == j as usize);
                            assert(res is Ok) by {
                                if res is Err {
                                    assert(!dec.consistent(bl0));
                                }
                            }
                        }
                    }
                }
            }
            match res {
                Ok(Some(out)) => {
                    proof {
                        lemma_covered_decodes(&dec, packets@, meta, n);
                        assert forall|bl: Seq<Seq<u8>>|
                            (complete_blocks(bl, meta.block_count as nat, meta.block_len as nat)
                                && (forall|t: int|
                                0 <= t < packets@.len() ==> ((#[trigger] packets@[t]).metadata
                                    == meta && sorted_unique(packets@[t].indices@) ==> eq_sat(
                                    bl,
                                    packets@[t].indices@,
                                    packets@[t].payload@,
                                    meta.block_len as nat,
                                )))) implies out@ == crate::bytes::concat_all(bl).take(
                            decoded_len(meta),
                        ) by {
                            assert(dec.consistent(bl));
                        }
                    }
                    return Some(out);
                },
                _ => {},
            }
        } else {
            proof {
                if solvable {
                    assert forall|j: int|
                        0 <= j < meta.block_count && #[trigger] has_systematic(
                            packets@.take(i as int + 1),
                            meta,
                            j,
                        ) implies dec.solutions_view()[j] is Some by {
                        let w = choose|w: int|
                            0 <= w < packets@.take(i as int + 1).len() && (#[trigger] packets@.take(
                                i as int + 1,
                            )[w]).metadata == meta && packets@.take(i as int + 1)[w].indices@
                                == seq![j as usize] && packets@.take(i as int + 1)[w].payload@.len()
                                == meta.block_len;
                        if w < i {
                            assert(packets@.take(i as int)[w] == packets@[w]);
                            assert(has_systematic(packets@.take(i as int), meta, j));
                        } else {
                            assert(packets@[i as int].indices@ == seq![j as usize]);
                            assert(sorted_unique(packets@[i as int].indices@));
                            assert(false);
                        }
                    }
                }
            }
        }
        i += 1;
    }
    proof {
        if solvable && (forall|j: int|
            0 <= j < meta.block_count ==> #[trigger] has_systematic(packets@, meta, j)) {
            assert(packets@.take(packets@.len() as int) =~= packets@);
            assert forall|j: int|
                0 <= j < dec.solutions_view().len() implies dec.solutions_view()[j] is Some by {
                assert(has_systematic(packets@, meta, j));
                assert(has_systematic(packets@.take(packets@.len() as int), meta, j));
            }
        }
    }
    match dec.try_finalize() {
        Some(out) => {
            proof {
                lemma_covered_decodes(&dec, packets@, meta, n);
                assert forall|bl: Seq<Seq<u8>>|
                    (complete_blocks(bl, meta.block_count as nat, meta.block_len as nat) && (
                    forall|t: int|
                        0 <= t < packets@.len() ==> ((#[trigger] packets@[t]).metadata == meta
                            && sorted_unique(packets@[t].indices@) ==> eq_sat(
                            bl,
                            packets@[t].indices@,
                            packets@[t].payload@,
                            meta.block_len as nat,
                        )))) implies out@ == crate::bytes::concat_all(bl).take(
                    decoded_len(meta),
                ) by {
                    assert(dec.consistent(bl));
                }
            }
            Some(out)
        },
        None => {
            proof {
                if solvable && (forall|j: int|
                    0 <= j < meta.block_count ==> #[trigger] has_systematic(packets@, meta, j)) {
                    assert(false);
                }
            }
            None
        },
    }
}

/// A decoder whose log is covered by the well-formed packets is consistent
/// with any assignment those packets satisfy.
proof fn lemma_covered_decodes(
    dec: &FountainDecoder,
    packets: Seq<FountainPacket>,
    meta: FountainMetadata,
    n: usize,
)
    requires
        dec.meta_view() == meta,
        n == meta.block_len,
        forall|e: int|
            0 <= e < dec.received_view().len() ==> entry_covered(
                #[trigger] dec.received_view()[e],
                packets,
                meta,
            ),
    ensures
        forall|bl: Seq<Seq<u8>>|
            (complete_blocks(bl, meta.block_count as nat, meta.block_len as nat) && (forall|t: int|
                0 <= t < packets.len() ==> ((#[trigger] packets[t]).metadata == meta
                    && sorted_unique(packets[t].indices@) ==> eq_sat(
                    bl,
                    packets[t].indices@,
                    packets[t].payload@,
                    meta.block_len as nat,
                )))) ==> #[trigger] dec.consistent(bl),
{
    assert forall|bl: Seq<Seq<u8>>|
        (complete_blocks(bl, meta.block_count as nat, meta.block_len as nat) && (forall|t: int|
            0 <= t < packets.len() ==> ((#[trigger] packets[t]).metadata == meta && sorted_unique(
                packets[t].indices@,
            ) ==> eq_sat(
                bl,
                packets[t].indices@,
                packets[t].payload@,
                meta.block_len as nat,
            )))) implies #[trigger] dec.consistent(bl) by {
        let rec = dec.received_view();
        assert forall|e: int| 0 <= e < rec.len() implies eq_sat(
            bl,
            (#[trigger] rec[e]).0,
            rec[e].1,
            meta.block_len as nat,
        ) by {
            assert(entry_covered(rec[e], packets, meta));
            let t = choose|t: int|
                0 <= t < packets.len() && (#[trigger] packets[t]).metadata == meta
                    && sorted_unique(packets[t].indices@) && rec[e] == (
                packets[t].indices@,
                packets[t].payload@,
            );
            assert(eq_sat(bl, packets[t].indices@, packets[t].payload@, meta.block_len as nat));
        }
        assert(crate::fountain::sat_all(bl, rec, meta.block_len as nat));
    }
}

} // verus!
