//! Proof-of-Delivery: a storage node's signed assertion that it holds a
//! shard whose leaf hash matches the committed Merkle leaf, and the
//! aggregation of valid assertions under a Merkle root.

use vstd::prelude::*;

use crate::bytes::{u32_le_bytes, u64_le_bytes};
use crate::ed25519::{ed25519_public_key, ed25519_sign, ed25519_verify, ed_pubkey_of, ed_sign, ed_valid};
use crate::errors::S3pError;
use crate::hashes::{sha256, sha256_of};
use crate::hexcode::{hex_encode, hex_of};
use crate::merkle::{leaf_hash, merkle_root, merkle_root_spec};
use crate::poc::utf8;

verus! {

/// The bytes a delivery signature binds: identifier, shard index,
/// timestamp, signer key and leaf hash, in order.
pub open spec fn pod_msg(
    scid: Seq<char>,
    shard_index: u32,
    ts_unix_ms: u64,
    signer_pubkey: Seq<u8>,
    leaf: Seq<u8>,
) -> Seq<u8> {
    utf8(scid) + u32_le_bytes(shard_index) + u64_le_bytes(ts_unix_ms) + signer_pubkey + leaf
}

/// The ASCII bytes of `"s3p-pod-leaf-v1"`, the aggregation leaf prefix.
pub open spec fn pod_leaf_tag() -> Seq<u8> {
    seq![
        115u8,
        51u8,
        112u8,
        45u8,
        112u8,
        111u8,
        100u8,
        45u8,
        108u8,
        101u8,
        97u8,
        102u8,
        45u8,
        118u8,
        49u8,
    ]
}

/// A signed assertion of holding one shard.
#[derive(Clone, Debug)]
pub struct ProofOfDelivery {
    pub scid: String,
    pub shard_index: u32,
    pub ts_unix_ms: u64,
    pub signer_pubkey: Vec<u8>,
    pub leaf_hash: Vec<u8>,
    pub signature: Vec<u8>,
}

/// Whether a delivery proof's signature binds its own fields.
pub open spec fn pod_signature_valid(p: &ProofOfDelivery) -> bool {
    ed_valid(
        p.signer_pubkey@,
        pod_msg(p.scid@, p.shard_index, p.ts_unix_ms, p.signer_pubkey@, p.leaf_hash@),
        p.signature@,
    )
}

/// Build the message a delivery signature covers.
fn pod_msg_exec(
    scid: &String,
    shard_index: u32,
    ts_unix_ms: u64,
    signer_pubkey: &Vec<u8>,
    leaf: &Vec<u8>,
) -> (r: Vec<u8>)
    ensures
        r@ == pod_msg(scid@, shard_index, ts_unix_ms, signer_pubkey@, leaf@),
{
    let mut buf: Vec<u8> = Vec::new();
    buf.extend_from_slice(scid.as_str().as_bytes());
    let mut idx = crate::bytes::u32_to_le_vec(shard_index);
    buf.append(&mut idx);
    let mut ts = crate::bytes::u64_to_le_vec(ts_unix_ms);
    buf.append(&mut ts);
    buf.extend_from_slice(signer_pubkey.as_slice());
    buf.extend_from_slice(leaf.as_slice());
    proof {
        assert(buf@ =~= pod_msg(scid@, shard_index, ts_unix_ms, signer_pubkey@, leaf@));
    }
    buf
}

impl ProofOfDelivery {
    /// Sign a delivery assertion: compute the shard's leaf hash and bind
    /// all fields under the secret key. The caller supplies the timestamp.
    pub fn sign(
        sk: &Vec<u8>,
        scid: &String,
        shard_index: u32,
        shard_bytes: &Vec<u8>,
        ts_unix_ms: u64,
    ) -> (r: ProofOfDelivery)
        requires
            sk@.len() == 32,
        ensures
            r.scid@ == scid@,
            r.shard_index == shard_index,
            r.ts_unix_ms == ts_unix_ms,
            r.signer_pubkey@ == ed_pubkey_of(sk@),
            r.leaf_hash@ == sha256_of(shard_bytes@),
            r.signature@ == ed_sign(
                sk@,
                pod_msg(scid@, shard_index, ts_unix_ms, ed_pubkey_of(sk@), sha256_of(shard_bytes@)),
            ),
            pod_signature_valid(&r),
    {
        let signer_pubkey = ed25519_public_key(sk);
        let leaf = leaf_hash(shard_bytes);
        let msg = pod_msg_exec(scid, shard_index, ts_unix_ms, &signer_pubkey, &leaf);
        let signature = ed25519_sign(sk, &msg);
        ProofOfDelivery {
            scid: scid.clone(),
            shard_index,
            ts_unix_ms,
            signer_pubkey,
            leaf_hash: leaf,
            signature,
        }
    }

    /// Check the signature against the proof's own fields.
    pub fn verify(&self) -> (r: bool)
        ensures
            r == pod_signature_valid(self),
    {
        let msg = pod_msg_exec(
            &self.scid,
            self.shard_index,
            self.ts_unix_ms,
            &self.signer_pubkey,
            &self.leaf_hash,
        );
        ed25519_verify(&self.signer_pubkey, &msg, &self.signature)
    }
}

/// One delivery proof's standing against a pack.
#[derive(Clone, Copy, Debug, PartialEq, Eq, Structural)]
pub enum PodCheck {
    /// Identifier, shard, leaf hash and signature all check out.
    Accepted,
    /// The proof names a different pack.
    ScidMismatch,
    /// The shard the proof speaks of is not there.
    ShardMissing,
    /// The shard's hash differs from the committed leaf hash.
    LeafMismatch,
    /// The signature does not bind the fields.
    BadSignature,
}

/// Judge one delivery proof against the expected pack identifier and the
/// shard bytes as found on disk, exactly as the verification pass does:
/// identifier first, then presence, then leaf hash, then signature.
pub fn check_pod(pod: &ProofOfDelivery, expected_scid: &String, shard_bytes: &Option<Vec<u8>>) -> (r:
    PodCheck)
    ensures
        r == (if pod.scid@ != expected_scid@ {
            PodCheck::ScidMismatch
        } else if shard_bytes is None {
            PodCheck::ShardMissing
        } else if sha256_of(crate::erasure::opt_view(*shard_bytes)) != pod.leaf_hash@ {
            PodCheck::LeafMismatch
        } else if !pod_signature_valid(pod) {
            PodCheck::BadSignature
        } else {
            PodCheck::Accepted
        }),
{
    if !(pod.scid == *expected_scid) {
        return PodCheck::ScidMismatch;
    }
    let shard = match shard_bytes {
        Some(b) => b,
        None => {
            return PodCheck::ShardMissing;
        },
    };
    let recomputed = leaf_hash(shard);
    if !crate::bytes::bytes_eq(&recomputed, &pod.leaf_hash) {
        return PodCheck::LeafMismatch;
    }
    if !pod.verify() {
        return PodCheck::BadSignature;
    }
    PodCheck::Accepted
}

/// The aggregation leaf of one delivery proof: a tagged SHA-256 over its
/// fields.
pub open spec fn spec_pod_leaf(p: &ProofOfDelivery) -> Seq<u8> {
    sha256_of(
        pod_leaf_tag() + utf8(p.scid@) + u32_le_bytes(p.shard_index) + u64_le_bytes(p.ts_unix_ms)
            + p.signer_pubkey@ + p.leaf_hash@,
    )
}

/// Compute the aggregation leaf of one delivery proof.
pub fn pod_leaf(pod: &ProofOfDelivery) -> (r: Vec<u8>)
    ensures
        r@ == spec_pod_leaf(pod),
        r@.len() == 32,
{
    let mut buf: Vec<u8> = Vec::new();
    buf.push(115u8);
    buf.push(51u8);
    buf.push(112u8);
    buf.push(45u8);
    buf.push(112u8);
    buf.push(111u8);
    buf.push(100u8);
    buf.push(45u8);
    buf.push(108u8);
    buf.push(101u8);
    buf.push(97u8);
    buf.push(102u8);
    buf.push(45u8);
    buf.push(118u8);
    buf.push(49u8);
    assert(buf@ =~= pod_leaf_tag());
    buf.extend_from_slice(pod.scid.as_str().as_bytes());
    let mut idx = crate::bytes::u32_to_le_vec(pod.shard_index);
    buf.append(&mut idx);
    let mut ts = crate::bytes::u64_to_le_vec(pod.ts_unix_ms);
    buf.append(&mut ts);
    buf.extend_from_slice(pod.signer_pubkey.as_slice());
    buf.extend_from_slice(pod.leaf_hash.as_slice());
    proof {
        assert(buf@ =~= pod_leaf_tag() + utf8(pod.scid@) + u32_le_bytes(pod.shard_index)
            + u64_le_bytes(pod.ts_unix_ms) + pod.signer_pubkey@ + pod.leaf_hash@);
    }
    sha256(&buf)
}

/// A delivery proof counted into an aggregate: the right pack and a valid
/// signature.
pub open spec fn pod_countable(p: &ProofOfDelivery, scid: Seq<char>) -> bool {
    p.scid@ == scid && pod_signature_valid(p)
}

/// Summary of aggregating the delivery proofs of one pack.
pub struct PodAggregate {
    pub version: u8,
    pub scid: String,
    pub total_shards: usize,
    pub present_pods: usize,
    pub ok: usize,
    pub bad: usize,
    pub missing: usize,
    pub pod_root_hex: String,
    pub included_indexes: Vec<usize>,
    pub ts_unix_ms: u64,
}

/// The aggregation leaves of the countable proofs, in index order.
pub open spec fn countable_leaves(pods: Seq<Option<ProofOfDelivery>>, scid: Seq<char>) -> Seq<
    Seq<u8>,
>
    decreases pods.len(),
{
    if pods.len() == 0 {
        Seq::empty()
    } else {
        let rest = countable_leaves(pods.drop_first(), scid);
        match pods[0] {
            Some(p) => if pod_countable(&p, scid) {
                seq![spec_pod_leaf(&p)] + rest
            } else {
                rest
            },
            None => rest,
        }
    }
}

/// Aggregate the delivery proofs of one pack: count the valid, invalid and
/// missing ones, and commit the valid ones' aggregation leaves under a
/// Merkle root. Fails when no proof can be counted.
#[verifier::loop_isolation(false)]
pub fn aggregate_pods(
    scid: &String,
    pods: &Vec<Option<ProofOfDelivery>>,
    ts_unix_ms: u64,
) -> (r: Result<PodAggregate, S3pError>)
    ensures
        r is Ok <==> countable_leaves(pods@, scid@).len() >= 1,
        r matches Ok(agg) ==> {
            &&& agg.scid@ == scid@
            &&& agg.total_shards == pods@.len()
            &&& agg.ok == countable_leaves(pods@, scid@).len()
            &&& agg.ok + agg.bad == agg.present_pods
            &&& agg.present_pods + agg.missing == pods@.len()
            &&& agg.included_indexes@.len() == agg.ok
            &&& crate::fountain::sorted_unique(agg.included_indexes@)
            &&& agg.ts_unix_ms == ts_unix_ms
            &&& agg.version == 1
            &&& agg.pod_root_hex@ == hex_of(
                merkle_root_spec(false, countable_leaves(pods@, scid@)),
            )
        },
        r matches Err(e) ==> e is Merkle,
{
    let mut leaves: Vec<Vec<u8>> = Vec::new();
    let mut included: Vec<usize> = Vec::new();
    let mut ok: usize = 0;
    let mut bad: usize = 0;
    let mut missing: usize = 0;
    let mut present: usize = 0;
    let mut i: usize = 0;
    proof {
        assert(pods@.skip(0) =~= pods@);
    }
    while i < pods.len()
        invariant
            i <= pods@.len(),
            ok == leaves@.len(),
            ok == included@.len(),
            ok + bad == present,
            present + missing == i,
            crate::fountain::sorted_unique(included@),
            forall|t: int| 0 <= t < included@.len() ==> included@[t] < i,
            leaves.deep_view() + countable_leaves(pods@.skip(i as int), scid@)
                == countable_leaves(pods@, scid@),
        decreases pods@.len() - i,
    {
        proof {
            assert(pods@.skip(i as int)[0] == pods@[i as int]);
            assert(pods@.skip(i as int).drop_first() =~= pods@.skip(i as int + 1));
        }
        match &pods[i] {
            Some(pod) => {
                present = present + 1;
                let countable = if !(pod.scid == *scid) {
                    false
                } else {
                    pod.verify()
                };
                if countable {
                    ok = ok + 1;
                    let ghost pre = leaves.deep_view();
                    leaves.push(pod_leaf(pod));
                    included.push(i);
                    proof {
                        assert forall|t: int| 0 <= t < leaves.deep_view().len() implies
                            leaves.deep_view()[t] == (pre + seq![
                            spec_pod_leaf(&pods@[i as int]->Some_0),
                        ])[t] by {
                            assert(leaves.deep_view()[t] =~= leaves@[t]@);
                            if t < pre.len() {
                                assert(pre[t] =~= leaves@[t]@);
                            }
                        }
                        assert(leaves.deep_view() =~= pre + seq![
                            spec_pod_leaf(&pods@[i as int]->Some_0),
                        ]);
                        assert(leaves.deep_view() + countable_leaves(
                            pods@.skip(i as int + 1),
                            scid@,
                        ) =~= countable_leaves(pods@, scid@));
                    }
                } else {
                    bad = bad + 1;
                }
            },
            None => {
                missing = missing + 1;
            },
        }
        i += 1;
    }
    proof {
        assert(pods@.skip(pods@.len() as int) =~= Seq::<Option<ProofOfDelivery>>::empty());
        assert(leaves.deep_view() + Seq::<Seq<u8>>::empty() =~= leaves.deep_view());
        assert(leaves.deep_view() =~= countable_leaves(pods@, scid@));
    }
    let root = match merkle_root(leaves) {
        Ok(rt) => rt,
        Err(_) => {
            return Err(S3pError::Merkle("no valid delivery proof to aggregate"));
        },
    };
    let pod_root_hex = hex_encode(&root);
    Ok(
        PodAggregate {
            version: 1,
            scid: scid.clone(),
            total_shards: pods.len(),
            present_pods: present,
            ok,
            bad,
            missing,
            pod_root_hex,
            included_indexes: included,
            ts_unix_ms,
        },
    )
}

} // verus!
