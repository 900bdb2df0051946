//! LT-style fountain code: a streaming encoder that first emits every source
//! block in order and then random XOR combinations, and a peeling decoder
//! that solves the received XOR equations until all blocks are recovered.
//!
//! Soundness is proved: whatever packets come in, any payload the decoder
//! returns is the unique one consistent with every accepted packet.

use vstd::prelude::*;

use crate::bytes::{
    all_zero, blocks_of, concat_all, lemma_xor_bytes_assoc, lemma_xor_bytes_comm,
    lemma_xor_bytes_self, lemma_xor_bytes_zero, xor_bytes, xor_in_place, zero_bytes,
};
use crate::crypto::clone_bytes;
use crate::errors::S3pError;
use crate::rng::{rng_from_seed, rng_next_u64};

verus! {

/// Metadata describing the fountain stream.
#[derive(Clone, Copy, Debug, PartialEq, Eq, Structural)]
pub struct FountainMetadata {
    pub original_len: usize,
    pub block_len: usize,
    pub block_count: usize,
}

impl FountainMetadata {
    /// Bundle the stream dimensions.
    pub fn new(original_len: usize, block_len: usize, block_count: usize) -> (r: Self)
        ensures
            r.original_len == original_len,
            r.block_len == block_len,
            r.block_count == block_count,
    {
        FountainMetadata { original_len, block_len, block_count }
    }
}

/// Encoded fountain packet carrying XORed blocks.
#[derive(Debug)]
pub struct FountainPacket {
    pub seed: u64,
    pub indices: Vec<usize>,
    pub payload: Vec<u8>,
    pub metadata: FountainMetadata,
}

impl Clone for FountainPacket {
    fn clone(&self) -> (r: Self)
        ensures
            r.seed == self.seed,
            r.indices@ == self.indices@,
            r.payload@ == self.payload@,
            r.metadata == self.metadata,
    {
        let mut indices: Vec<usize> = Vec::new();
        let mut i: usize = 0;
        while i < self.indices.len()
            invariant
                i <= self.indices@.len(),
                indices@ == self.indices@.take(i as int),
            decreases self.indices@.len() - i,
        {
            indices.push(self.indices[i]);
            assert(indices@ =~= self.indices@.take(i as int + 1));
            i += 1;
        }
        assert(self.indices@.take(self.indices@.len() as int) =~= self.indices@);
        FountainPacket {
            seed: self.seed,
            indices,
            payload: crate::crypto::clone_bytes(&self.payload),
            metadata: self.metadata,
        }
    }
}

/// Strictly increasing indices: sorted with no duplicates.
pub open spec fn sorted_unique(s: Seq<usize>) -> bool {
    forall|i: int, j: int| 0 <= i < j < s.len() ==> s[i] < s[j]
}

/// The XOR of the blocks selected by `ids`, over zeroes of length `n`.
pub open spec fn xor_over(blocks: Seq<Seq<u8>>, ids: Seq<usize>, n: nat) -> Seq<u8>
    decreases ids.len(),
{
    if ids.len() == 0 {
        zero_bytes(n)
    } else {
        xor_bytes(xor_over(blocks, ids.drop_last(), n), blocks[ids.last() as int])
    }
}

/// A candidate assignment of source blocks: `k` rows of `n` bytes.
pub open spec fn complete_blocks(bl: Seq<Seq<u8>>, k: nat, n: nat) -> bool {
    bl.len() == k && forall|i: int| 0 <= i < bl.len() ==> (#[trigger] bl[i]).len() == n
}

/// `bl` satisfies the equation `ids`/`payload`.
pub open spec fn eq_sat(bl: Seq<Seq<u8>>, ids: Seq<usize>, payload: Seq<u8>, n: nat) -> bool {
    payload == xor_over(bl, ids, n)
}

/// `bl` satisfies every recorded packet.
pub open spec fn sat_all(bl: Seq<Seq<u8>>, rec: Seq<(Seq<usize>, Seq<u8>)>, n: nat) -> bool {
    forall|e: int| 0 <= e < rec.len() ==> eq_sat(bl, (#[trigger] rec[e]).0, rec[e].1, n)
}

/// The XOR over any id list has the base length.
pub proof fn lemma_xor_over_len(blocks: Seq<Seq<u8>>, ids: Seq<usize>, n: nat)
    ensures
        xor_over(blocks, ids, n).len() == n,
    decreases ids.len(),
{
    if ids.len() > 0 {
        lemma_xor_over_len(blocks, ids.drop_last(), n);
    }
}

/// Removing one id from the list factors its block out of the XOR.
pub proof fn lemma_xor_over_remove(blocks: Seq<Seq<u8>>, ids: Seq<usize>, n: nat, p: int)
    requires
        0 <= p < ids.len(),
        forall|j: int| 0 <= j < ids.len() ==> ids[j] < blocks.len(),
        forall|i: int| 0 <= i < blocks.len() ==> (#[trigger] blocks[i]).len() == n,
    ensures
        xor_over(blocks, ids, n) == xor_bytes(
            xor_over(blocks, ids.remove(p), n),
            blocks[ids[p] as int],
        ),
    decreases ids.len(),
{
    lemma_xor_over_len(blocks, ids, n);
    lemma_xor_over_len(blocks, ids.remove(p), n);
    if p == ids.len() - 1 {
        assert(ids.remove(p) =~= ids.drop_last());
    } else {
        let shorter = ids.drop_last();
        let b_last = blocks[ids.last() as int];
        let b_p = blocks[ids[p] as int];
        lemma_xor_over_remove(blocks, shorter, n, p);
        let x = xor_over(blocks, shorter.remove(p), n);
        lemma_xor_over_len(blocks, shorter.remove(p), n);
        assert(ids.remove(p).drop_last() =~= shorter.remove(p));
        assert(ids.remove(p).last() == ids.last());
        assert(xor_over(blocks, ids.remove(p), n) == xor_bytes(x, b_last));
        assert(xor_over(blocks, ids, n) == xor_bytes(xor_bytes(x, b_p), b_last));
        lemma_xor_bytes_assoc(x, b_p, b_last);
        lemma_xor_bytes_comm(b_p, b_last);
        lemma_xor_bytes_assoc(x, b_last, b_p);
        assert(xor_bytes(xor_bytes(x, b_p), b_last) == xor_bytes(xor_bytes(x, b_last), b_p));
    }
}

/// XORing a satisfied equation with one of its solved blocks removes that
/// block from the equation.
pub proof fn lemma_reduce_step(
    bl: Seq<Seq<u8>>,
    ids: Seq<usize>,
    payload: Seq<u8>,
    n: nat,
    p: int,
)
    requires
        0 <= p < ids.len(),
        forall|j: int| 0 <= j < ids.len() ==> ids[j] < bl.len(),
        forall|i: int| 0 <= i < bl.len() ==> (#[trigger] bl[i]).len() == n,
        eq_sat(bl, ids, payload, n),
    ensures
        eq_sat(bl, ids.remove(p), xor_bytes(payload, bl[ids[p] as int]), n),
{
    let b = bl[ids[p] as int];
    let rest = xor_over(bl, ids.remove(p), n);
    lemma_xor_over_remove(bl, ids, n, p);
    lemma_xor_over_len(bl, ids.remove(p), n);
    assert(payload == xor_bytes(rest, b));
    lemma_xor_bytes_assoc(rest, b, b);
    lemma_xor_bytes_self(b);
    lemma_xor_bytes_zero(rest);
    assert(xor_bytes(payload, b) == xor_bytes(rest, xor_bytes(b, b)));
    assert(xor_bytes(payload, b) == rest);
}

/// A one-element equation pins the block down.
pub proof fn lemma_singleton_eq(bl: Seq<Seq<u8>>, ids: Seq<usize>, payload: Seq<u8>, n: nat)
    requires
        ids.len() == 1,
        ids[0] < bl.len(),
        forall|i: int| 0 <= i < bl.len() ==> (#[trigger] bl[i]).len() == n,
        eq_sat(bl, ids, payload, n),
    ensures
        payload == bl[ids[0] as int],
{
    assert(ids.drop_last() =~= Seq::<usize>::empty());
    assert(ids.last() == ids[0]);
    assert(xor_over(bl, ids.drop_last(), n) == zero_bytes(n));
    assert(xor_over(bl, ids, n) == xor_bytes(zero_bytes(n), bl[ids[0] as int]));
    assert(bl[ids[0] as int].len() == n);
    lemma_xor_bytes_zero(bl[ids[0] as int]);
}

/// The singleton equation of one block is satisfied by its own value.
pub proof fn lemma_singleton_eq_intro(bl: Seq<Seq<u8>>, idx: usize, n: nat)
    requires
        idx < bl.len(),
        bl[idx as int].len() == n,
    ensures
        xor_over(bl, seq![idx], n) == bl[idx as int],
{
    let ids = seq![idx];
    assert(ids.drop_last() =~= Seq::<usize>::empty());
    assert(ids.last() == idx);
    assert(xor_over(bl, ids.drop_last(), n) == zero_bytes(n));
    assert(xor_over(bl, ids, n) == xor_bytes(zero_bytes(n), bl[idx as int]));
    lemma_xor_bytes_zero(bl[idx as int]);
}

/// Streaming encoder implementing a simple LT-style fountain code.
pub struct FountainEncoder {
    blocks: Vec<Vec<u8>>,
    metadata: FountainMetadata,
    systematic_index: usize,
    seed: u64,
    degree_weights: Vec<u64>,
}

/// The sum of a weight table.
pub open spec fn sum_weights(ws: Seq<u64>) -> int
    decreases ws.len(),
{
    if ws.len() == 0 {
        0
    } else {
        sum_weights(ws.drop_last()) + ws.last()
    }
}

/// One more weight extends the sum.
pub proof fn lemma_sum_weights_take(ws: Seq<u64>, i: int)
    requires
        0 <= i < ws.len(),
    ensures
        sum_weights(ws.take(i + 1)) == sum_weights(ws.take(i)) + ws[i],
{
    assert(ws.take(i + 1).drop_last() =~= ws.take(i));
    assert(ws.take(i + 1).last() == ws[i]);
}

/// Weight sums are monotone in the prefix.
pub proof fn lemma_sum_weights_prefix(ws: Seq<u64>, i: int)
    requires
        0 <= i <= ws.len(),
    ensures
        sum_weights(ws.take(i)) <= sum_weights(ws),
        sum_weights(ws.take(i)) >= 0,
    decreases ws.len() - i,
{
    lemma_sum_weights_nonneg(ws.take(i));
    if i == ws.len() {
        assert(ws.take(i) =~= ws);
    } else {
        lemma_sum_weights_take(ws, i);
        lemma_sum_weights_prefix(ws, i + 1);
    }
}

/// A prefix sum past the 64-bit range puts the whole sum past it too.
pub proof fn lemma_sum_weights_overflow(ws: Seq<u64>, i: int)
    requires
        0 <= i < ws.len(),
        sum_weights(ws.take(i)) + ws[i] > u64::MAX,
    ensures
        sum_weights(ws) > u64::MAX,
{
    lemma_sum_weights_take(ws, i);
    lemma_sum_weights_prefix(ws, i + 1);
}

/// Weight sums are never negative.
pub proof fn lemma_sum_weights_nonneg(ws: Seq<u64>)
    ensures
        sum_weights(ws) >= 0,
    decreases ws.len(),
{
    if ws.len() > 0 {
        lemma_sum_weights_nonneg(ws.drop_last());
    }
}

/// Count of blocks a payload of `len` bytes is cut into: at least one.
pub open spec fn fountain_block_count(len: nat, block_len: nat) -> nat
    recommends
        block_len >= 1,
{
    if len == 0 {
        1
    } else {
        (((len - 1) as int / block_len as int) + 1) as nat
    }
}

impl FountainEncoder {
    /// The source blocks the encoder XORs.
    pub closed spec fn blocks_view(&self) -> Seq<Seq<u8>> {
        self.blocks.deep_view()
    }

    /// The stream metadata.
    pub closed spec fn meta_view(&self) -> FountainMetadata {
        self.metadata
    }

    /// Position of the next systematic packet.
    pub closed spec fn systematic_pos(&self) -> int {
        self.systematic_index as int
    }

    /// Dimensions are consistent: one block row per counted block, each of
    /// the stated length.
    pub open spec fn wf(&self) -> bool {
        &&& self.blocks_view().len() == self.meta_view().block_count
        &&& self.meta_view().block_count >= 1
        &&& self.meta_view().block_len >= 1
        &&& forall|i: int|
            0 <= i < self.blocks_view().len() ==> (#[trigger] self.blocks_view()[i]).len()
                == self.meta_view().block_len
        &&& 0 <= self.systematic_pos() <= self.meta_view().block_count
        &&& 1 <= self.weights_view().len() <= self.meta_view().block_count
        &&& 1 <= sum_weights(self.weights_view())
        &&& sum_weights(self.weights_view()) <= u64::MAX
    }

    /// The degree weight table: entry `d - 1` weights degree `d`.
    pub closed spec fn weights_view(&self) -> Seq<u64> {
        self.degree_weights@
    }

    /// Create an encoder from raw bytes, splitting the payload into
    /// `block_len` sized chunks, the last zero-padded; an empty payload
    /// still gets one zero block.
    pub fn from_bytes(data: &Vec<u8>, block_len: usize) -> (r: Result<Self, S3pError>)
        ensures
            r is Ok <==> block_len >= 1,
            r matches Err(e) ==> e is Fountain,
            r matches Ok(enc) ==> {
                let count = fountain_block_count(data@.len(), block_len as nat);
                &&& enc.wf()
                &&& enc.meta_view() == (FountainMetadata {
                    original_len: data.len(),
                    block_len,
                    block_count: count as usize,
                })
                &&& count <= usize::MAX
                &&& enc.blocks_view() == blocks_of(data@, count, block_len as nat)
                &&& enc.systematic_pos() == 0
            },
    {
        if block_len == 0 {
            return Err(S3pError::Fountain("block length must be greater than zero"));
        }
        let block_count: usize = if data.len() == 0 {
            1
        } else {
            1 + (data.len() - 1) / block_len
        };
        proof {
            assert(block_count == fountain_block_count(data@.len(), block_len as nat));
            if data@.len() > 0 {
                vstd::arithmetic::div_mod::lemma_fundamental_div_mod(
                    (data@.len() - 1) as int,
                    block_len as int,
                );
                assert(block_count * block_len >= data@.len()) by (nonlinear_arith)
                    requires
                        block_len >= 1,
                        block_count == (data@.len() - 1) as int / block_len as int + 1,
                        block_len * ((data@.len() - 1) as int / block_len as int) <= data@.len()
                            - 1,
                        (data@.len() - 1) as int / block_len as int >= 0,
                ;
            }
        }
        let mut blocks: Vec<Vec<u8>> = Vec::new();
        let mut i: usize = 0;
        let mut offset: usize = 0;
        while i < block_count
            invariant
                i <= block_count,
                block_len >= 1,
                block_count >= 1,
                blocks@.len() == i,
                offset == if i * block_len <= data@.len() {
                    i * block_len
                } else {
                    data@.len() as int
                },
                forall|t: int|
                    0 <= t < i ==> (#[trigger] blocks@[t]@) == crate::bytes::block_of(
                        data@,
                        t,
                        block_len as nat,
                    ),
            decreases block_count - i,
        {
            let mut row: Vec<u8> = Vec::new();
            let mut j: usize = 0;
            while j < block_len
                invariant
                    j <= block_len,
                    block_len >= 1,
                    offset == if i * block_len + j <= data@.len() {
                        i * block_len + j
                    } else {
                        data@.len() as int
                    },
                    offset <= data@.len(),
                    row@.len() == j,
                    forall|t: int|
                        0 <= t < j ==> row@[t] == crate::bytes::block_of(
                            data@,
                            i as int,
                            block_len as nat,
                        )[t],
                decreases block_len - j,
            {
                if offset < data.len() {
                    row.push(data[offset]);
                    offset += 1;
                } else {
                    row.push(0u8);
                }
                j += 1;
            }
            assert(row@ =~= crate::bytes::block_of(data@, i as int, block_len as nat));
            blocks.push(row);
            proof {
                assert((i + 1) * block_len == i * block_len + block_len) by (nonlinear_arith);
            }
            i += 1;
        }
        let metadata = FountainMetadata::new(data.len(), block_len, block_count);
        let degree_weights = default_degree_weights(block_count);
        let enc = FountainEncoder { blocks, metadata, systematic_index: 0, seed: 0, degree_weights };
        proof {
            assert forall|t: int| 0 <= t < enc.blocks_view().len() implies (
            #[trigger] enc.blocks_view()[t]) == crate::bytes::block_of(
                data@,
                t,
                block_len as nat,
            ) by {
                assert(enc.blocks_view()[t] =~= enc.blocks@[t]@);
            }
            assert(enc.blocks_view() =~= blocks_of(
                data@,
                fountain_block_count(data@.len(), block_len as nat),
                block_len as nat,
            ));
        }
        Ok(enc)
    }

    /// Create an encoder that cuts the payload into exactly `k` blocks of
    /// `ceil(len / k)` bytes each, zero-padding the tail; an empty payload
    /// is rejected.
    pub fn from_partition(data: &Vec<u8>, k: usize) -> (r: Result<Self, S3pError>)
        ensures
            r is Ok <==> (k >= 1 && data@.len() >= 1),
            r matches Err(e) ==> e is Fountain,
            r matches Ok(enc) ==> {
                let block_len = crate::erasure::rs_shard_len(data@.len(), k as nat);
                &&& enc.wf()
                &&& enc.meta_view() == (FountainMetadata {
                    original_len: data.len(),
                    block_len: block_len as usize,
                    block_count: k,
                })
                &&& enc.blocks_view() == blocks_of(data@, k as nat, block_len)
                &&& enc.systematic_pos() == 0
            },
    {
        if k == 0 {
            return Err(S3pError::Fountain("block count must be greater than zero"));
        }
        if data.len() == 0 {
            return Err(S3pError::Fountain("cannot partition an empty payload"));
        }
        let block_len: usize = 1 + (data.len() - 1) / k;
        proof {
            vstd::arithmetic::div_mod::lemma_fundamental_div_mod(
                (data@.len() - 1) as int,
                k as int,
            );
            assert(block_len == crate::erasure::rs_shard_len(data@.len(), k as nat)) by {
                vstd::arithmetic::div_mod::lemma_div_plus_one((data@.len() - 1) as int, k as int);
            }
            assert(k * block_len >= data@.len()) by (nonlinear_arith)
                requires
                    k >= 1,
                    block_len == (data@.len() - 1) as int / k as int + 1,
                    k * ((data@.len() - 1) as int / k as int) <= data@.len() - 1,
                    (data@.len() - 1) as int / k as int >= 0,
            ;
        }
        let mut blocks: Vec<Vec<u8>> = Vec::new();
        let mut i: usize = 0;
        let mut offset: usize = 0;
        while i < k
            invariant
                i <= k,
                block_len >= 1,
                k >= 1,
                blocks@.len() == i,
                offset == if i * block_len <= data@.len() {
                    i * block_len
                } else {
                    data@.len() as int
                },
                forall|t: int|
                    0 <= t < i ==> (#[trigger] blocks@[t]@) == crate::bytes::block_of(
                        data@,
                        t,
                        block_len as nat,
                    ),
            decreases k - i,
        {
            let mut row: Vec<u8> = Vec::new();
            let mut j: usize = 0;
            while j < block_len
                invariant
                    j <= block_len,
                    block_len >= 1,
                    offset == if i * block_len + j <= data@.len() {
                        i * block_len + j
                    } else {
                        data@.len() as int
                    },
                    offset <= data@.len(),
                    row@.len() == j,
                    forall|t: int|
                        0 <= t < j ==> row@[t] == crate::bytes::block_of(
                            data@,
                            i as int,
                            block_len as nat,
                        )[t],
                decreases block_len - j,
            {
                if offset < data.len() {
                    row.push(data[offset]);
                    offset += 1;
                } else {
                    row.push(0u8);
                }
                j += 1;
            }
            assert(row@ =~= crate::bytes::block_of(data@, i as int, block_len as nat));
            blocks.push(row);
            proof {
                assert((i + 1) * block_len == i * block_len + block_len) by (nonlinear_arith);
            }
            i += 1;
        }
        let metadata = FountainMetadata::new(data.len(), block_len, k);
        let degree_weights = default_degree_weights(k);
        let enc = FountainEncoder { blocks, metadata, systematic_index: 0, seed: 0, degree_weights };
        proof {
            assert forall|t: int| 0 <= t < enc.blocks_view().len() implies (
            #[trigger] enc.blocks_view()[t]) == crate::bytes::block_of(
                data@,
                t,
                block_len as nat,
            ) by {
                assert(enc.blocks_view()[t] =~= enc.blocks@[t]@);
            }
            assert(enc.blocks_view() =~= blocks_of(data@, k as nat, block_len as nat));
        }
        Ok(enc)
    }

    /// Start the coded-phase counter at `seed`, so two encoders given the
    /// same seed emit the same coded stream.
    pub fn set_seed(&mut self, seed: u64)
        requires
            old(self).wf(),
        ensures
            final(self).wf(),
            final(self).blocks_view() == old(self).blocks_view(),
            final(self).meta_view() == old(self).meta_view(),
            final(self).systematic_pos() == old(self).systematic_pos(),
    {
        self.seed = seed;
    }

    /// Replace the degree weight table: entry `d - 1` weights degree `d`.
    /// Rejects an empty table, one longer than the block count, and one
    /// whose weights sum to zero or overflow; the table is then unchanged.
    #[verifier::loop_isolation(false)]
    pub fn set_degree_weights(&mut self, weights: Vec<u64>) -> (r: Result<(), S3pError>)
        requires
            old(self).wf(),
        ensures
            final(self).wf(),
            final(self).blocks_view() == old(self).blocks_view(),
            final(self).meta_view() == old(self).meta_view(),
            final(self).systematic_pos() == old(self).systematic_pos(),
            r is Ok <==> (1 <= weights@.len() <= old(self).meta_view().block_count && 1
                <= sum_weights(weights@) <= u64::MAX),
            r is Ok ==> final(self).weights_view() == weights@,
            r is Err ==> final(self).weights_view() == old(self).weights_view(),
            r matches Err(e) ==> e is Fountain,
    {
        if weights.len() == 0 || weights.len() > self.metadata.block_count {
            return Err(S3pError::Fountain("degree table does not fit the block count"));
        }
        let mut total: u64 = 0;
        let mut i: usize = 0;
        proof {
            assert(weights@.take(0) =~= Seq::<u64>::empty());
        }
        while i < weights.len()
            invariant
                i <= weights@.len(),
                total == sum_weights(weights@.take(i as int)),
            decreases weights@.len() - i,
        {
            proof {
                lemma_sum_weights_take(weights@, i as int);
            }
            let next = match total.checked_add(weights[i]) {
                Some(v) => v,
                None => {
                    proof {
                        lemma_sum_weights_overflow(weights@, i as int);
                    }
                    return Err(S3pError::Fountain("degree table weights overflow"));
                },
            };
            total = next;
            i += 1;
        }
        proof {
            assert(weights@.take(weights@.len() as int) =~= weights@);
        }
        if total == 0 {
            return Err(S3pError::Fountain("degree table weights sum to zero"));
        }
        self.degree_weights = weights;
        Ok(())
    }

    /// Return immutable metadata describing the encoder stream.
    pub fn metadata(&self) -> (r: FountainMetadata)
        ensures
            r == self.meta_view(),
    {
        self.metadata
    }

    /// Total number of source blocks.
    pub fn block_count(&self) -> (r: usize)
        ensures
            r == self.meta_view().block_count,
    {
        self.metadata.block_count
    }

    /// Produce the next fountain packet. The encoder first emits all source
    /// blocks in systematic order before switching to random combinations
    /// that aid recovery in lossy environments.
    pub fn next_packet(&mut self) -> (r: FountainPacket)
        requires
            old(self).wf(),
        ensures
            final(self).wf(),
            final(self).blocks_view() == old(self).blocks_view(),
            final(self).meta_view() == old(self).meta_view(),
            r.metadata == old(self).meta_view(),
            sorted_unique(r.indices@),
            1 <= r.indices@.len() <= old(self).meta_view().block_count,
            forall|t: int|
                0 <= t < r.indices@.len() ==> r.indices@[t] < old(self).meta_view().block_count,
            r.payload@.len() == old(self).meta_view().block_len,
            r.payload@ == xor_over(
                old(self).blocks_view(),
                r.indices@,
                old(self).meta_view().block_len as nat,
            ),
            old(self).systematic_pos() < old(self).meta_view().block_count ==> r.indices@ == seq![
                old(self).systematic_pos() as usize,
            ] && final(self).systematic_pos() == old(self).systematic_pos() + 1,
            old(self).systematic_pos() >= old(self).meta_view().block_count ==> final(self).systematic_pos() == old(self).systematic_pos(),
    {
        let n = self.metadata.block_len;
        let ghost bl = self.blocks_view();
        if self.systematic_index < self.metadata.block_count {
            let idx = self.systematic_index;
            self.systematic_index = idx + 1;
            let payload = clone_bytes(&self.blocks[idx]);
            let mut indices: Vec<usize> = Vec::new();
            indices.push(idx);
            proof {
                assert(indices@ =~= seq![idx]);
                assert(bl[idx as int] =~= self.blocks@[idx as int]@);
                lemma_singleton_eq_intro(bl, idx, n as nat);
            }
            return FountainPacket { seed: self.seed, indices, payload, metadata: self.metadata };
        }
        self.seed = if self.seed == u64::MAX {
            0
        } else {
            self.seed + 1
        };
        let mut rng = rng_from_seed(self.seed);
        let degree = sample_degree(&self.degree_weights, &mut rng);
        let indices = pick_indices(&mut rng, self.metadata.block_count, degree);
        let mut payload: Vec<u8> = vec![0u8; n];
        let mut t: usize = 0;
        proof {
            assert(indices@.take(0) =~= Seq::<usize>::empty());
            assert(payload@ =~= zero_bytes(n as nat));
        }
        while t < indices.len()
            invariant
                t <= indices@.len(),
                self.wf(),
                n == self.meta_view().block_len,
                bl == self.blocks_view(),
                sorted_unique(indices@),
                forall|u: int| 0 <= u < indices@.len() ==> indices@[u] < self.meta_view().block_count,
                payload@ == xor_over(bl, indices@.take(t as int), n as nat),
                payload@.len() == n,
            decreases indices@.len() - t,
        {
            let idx = indices[t];
            proof {
                assert(bl[idx as int] =~= self.blocks@[idx as int]@);
            }
            let ghost before = payload@;
            xor_in_place(&mut payload, &self.blocks[idx]);
            proof {
                assert(payload@ =~= xor_bytes(before, bl[idx as int]));
                assert(indices@.take(t as int + 1).drop_last() =~= indices@.take(t as int));
                assert(indices@.take(t as int + 1).last() == indices@[t as int]);
            }
            t += 1;
        }
        proof {
            assert(indices@.take(indices@.len() as int) =~= indices@);
        }
        FountainPacket { seed: self.seed, indices, payload, metadata: self.metadata }
    }
}

/// The built-in degree weight table: mostly one or two blocks, occasionally
/// up to five, never more than the block count.
fn default_degree_weights(block_count: usize) -> (r: Vec<u64>)
    requires
        block_count >= 1,
    ensures
        1 <= r@.len() <= block_count,
        1 <= sum_weights(r@) <= u64::MAX,
{
    let mut ws: Vec<u64> = Vec::new();
    if block_count == 1 {
        ws.push(1u64);
        proof {
            assert(ws@.drop_last() =~= Seq::<u64>::empty());
            assert(sum_weights(ws@.drop_last()) == 0);
            assert(ws@.last() == 1u64);
            assert(sum_weights(ws@) == sum_weights(ws@.drop_last()) + ws@.last());
        }
        return ws;
    }
    ws.push(600u64);
    if block_count == 2 {
        ws.push(400u64);
    } else {
        ws.push(250u64);
        if block_count == 3 {
            ws.push(150u64);
        } else if block_count == 4 {
            ws.push(75u64);
            ws.push(75u64);
        } else {
            ws.push(50u64);
            ws.push(50u64);
            ws.push(50u64);
        }
    }
    proof {
        lemma_sum_weights_small(ws@);
    }
    ws
}

/// Sums of the short built-in tables are in range.
proof fn lemma_sum_weights_small(ws: Seq<u64>)
    requires
        1 <= ws.len(),
        forall|i: int| 0 <= i < ws.len() ==> (#[trigger] ws[i]) <= 600,
        ws[0] >= 1,
    ensures
        1 <= sum_weights(ws),
        sum_weights(ws) <= 600 * ws.len(),
    decreases ws.len(),
{
    assert(ws[ws.len() - 1] <= 600);
    assert(ws.last() == ws[ws.len() - 1]);
    if ws.len() == 1 {
        assert(ws.drop_last() =~= Seq::<u64>::empty());
        assert(sum_weights(ws.drop_last()) == 0);
        assert(ws.last() == ws[0]);
        assert(sum_weights(ws) == ws[0]);
    } else {
        assert forall|i: int| 0 <= i < ws.drop_last().len() implies (
        #[trigger] ws.drop_last()[i]) <= 600 by {
            assert(ws.drop_last()[i] == ws[i]);
        }
        assert(ws.drop_last()[0] == ws[0]);
        lemma_sum_weights_small(ws.drop_last());
        assert(sum_weights(ws) == sum_weights(ws.drop_last()) + ws.last());
        assert(600 * ws.len() == 600 * (ws.len() - 1) + 600) by (nonlinear_arith);
    }
}

/// Draw a degree for a coded packet from the weight table: degree `d` with
/// weight `weights[d - 1]`.
fn sample_degree(weights: &Vec<u64>, rng: &mut rand::rngs::StdRng) -> (d: usize)
    requires
        weights@.len() >= 1,
        1 <= sum_weights(weights@) <= u64::MAX,
    ensures
        1 <= d <= weights@.len(),
{
    let mut total: u64 = 0;
    let mut i: usize = 0;
    proof {
        assert(weights@.take(0) =~= Seq::<u64>::empty());
    }
    while i < weights.len()
        invariant
            i <= weights@.len(),
            total == sum_weights(weights@.take(i as int)),
            1 <= sum_weights(weights@) <= u64::MAX,
        decreases weights@.len() - i,
    {
        proof {
            lemma_sum_weights_take(weights@, i as int);
            lemma_sum_weights_prefix(weights@, i as int + 1);
        }
        total = total + weights[i];
        i += 1;
    }
    proof {
        assert(weights@.take(weights@.len() as int) =~= weights@);
    }
    let draw = rng_next_u64(rng) % total;
    let mut acc: u64 = 0;
    let mut d: usize = 0;
    proof {
        assert(weights@.take(0) =~= Seq::<u64>::empty());
    }
    while d < weights.len()
        invariant
            d <= weights@.len(),
            acc == sum_weights(weights@.take(d as int)),
            total == sum_weights(weights@),
            1 <= total,
            draw < total,
        decreases weights@.len() - d,
    {
        proof {
            lemma_sum_weights_take(weights@, d as int);
            lemma_sum_weights_prefix(weights@, d as int + 1);
        }
        acc = acc + weights[d];
        if draw < acc {
            return d + 1;
        }
        d += 1;
    }
    proof {
        assert(weights@.take(weights@.len() as int) =~= weights@);
    }
    1
}

/// Choose `degree` distinct block indices uniformly, in increasing order:
/// walk the index range once and include each index with the probability
/// that keeps the remaining quota fillable.
fn pick_indices(rng: &mut rand::rngs::StdRng, count: usize, degree: usize) -> (r: Vec<usize>)
    requires
        1 <= degree <= count,
    ensures
        sorted_unique(r@),
        r@.len() == degree,
        forall|t: int| 0 <= t < r@.len() ==> r@[t] < count,
{
    let mut ids: Vec<usize> = Vec::new();
    let mut idx: usize = 0;
    let mut chosen: usize = 0;
    while idx < count
        invariant
            idx <= count,
            chosen <= degree,
            degree - chosen <= count - idx,
            ids@.len() == chosen,
            sorted_unique(ids@),
            forall|t: int| 0 <= t < ids@.len() ==> ids@[t] < idx,
        decreases count - idx,
    {
        if chosen < degree {
            let remaining = (count - idx) as u64;
            let needed = (degree - chosen) as u64;
            let draw = rng_next_u64(rng) % remaining;
            if draw < needed {
                ids.push(idx);
                chosen += 1;
            }
        }
        idx += 1;
    }
    ids
}

/// One pending XOR equation: indices still unknown, payload the running XOR.
struct Equation {
    indices: Vec<usize>,
    payload: Vec<u8>,
}

/// The bytes of an optional block; empty when missing.
pub open spec fn sol_view(o: Option<Vec<u8>>) -> Seq<u8> {
    crate::erasure::opt_view(o)
}

/// Every set slot agrees with the assignment `bl`.
pub open spec fn sols_agree(bl: Seq<Seq<u8>>, sols: Seq<Option<Vec<u8>>>) -> bool {
    forall|i: int| 0 <= i < sols.len() && sols[i] is Some ==> sol_view(#[trigger] sols[i]) == bl[i]
}

/// Fountain decoder capable of reconstructing the original payload once
/// enough packets have been received.
pub struct FountainDecoder {
    metadata: FountainMetadata,
    solutions: Vec<Option<Vec<u8>>>,
    equations: Vec<Equation>,
    received: Ghost<Seq<(Seq<usize>, Seq<u8>)>>,
}

impl FountainDecoder {
    /// The stream metadata the decoder was built for.
    pub closed spec fn meta_view(&self) -> FountainMetadata {
        self.metadata
    }

    /// The accepted packets, as pairs of index list and payload.
    pub closed spec fn received_view(&self) -> Seq<(Seq<usize>, Seq<u8>)> {
        self.received@
    }

    /// The recovered blocks so far.
    pub closed spec fn solutions_view(&self) -> Seq<Option<Vec<u8>>> {
        self.solutions@
    }

    /// The pending equations.
    closed spec fn equations_view(&self) -> Seq<(Seq<usize>, Seq<u8>)> {
        Seq::new(self.equations@.len(), |e: int| (self.equations@[e].indices@, self.equations@[e].payload@))
    }

    /// An assignment of source blocks consistent with every accepted packet.
    pub open spec fn consistent(&self, bl: Seq<Seq<u8>>) -> bool {
        &&& complete_blocks(
            bl,
            self.meta_view().block_count as nat,
            self.meta_view().block_len as nat,
        )
        &&& sat_all(bl, self.received_view(), self.meta_view().block_len as nat)
    }

    /// Structural well-formedness of the decoder state.
    pub closed spec fn wf_shape(&self) -> bool {
        let k = self.metadata.block_count;
        let n = self.metadata.block_len;
        &&& self.solutions@.len() == k
        &&& (forall|i: int|
            0 <= i < self.solutions@.len() && self.solutions@[i] is Some ==> sol_view(
                #[trigger] self.solutions@[i],
            ).len() == n)
        &&& (forall|e: int|
            0 <= e < self.equations@.len() ==> {
                let eq = #[trigger] self.equations@[e];
                &&& eq.payload@.len() == n
                &&& eq.indices@.len() >= 1
                &&& sorted_unique(eq.indices@)
                &&& (forall|t: int| 0 <= t < eq.indices@.len() ==> eq.indices@[t] < k)
            })
    }

    /// Everything the decoder holds is implied by the accepted packets: any
    /// consistent assignment matches the recovered blocks and satisfies the
    /// pending equations.
    pub closed spec fn sound(&self) -> bool {
        forall|bl: Seq<Seq<u8>>|
            #[trigger] self.consistent(bl) ==> sols_agree(bl, self.solutions@) && sat_all(
                bl,
                self.equations_view(),
                self.meta_view().block_len as nat,
            )
    }

    /// Invariant carried across every operation.
    pub closed spec fn wf(&self) -> bool {
        self.wf_shape() && self.sound()
    }

    /// Well-formedness is public: callers see it abstractly.
    pub open spec fn inv(&self) -> bool {
        self.wf()
    }

    /// Build a decoder with no recovered blocks and no equations.
    pub fn new(metadata: FountainMetadata) -> (r: Self)
        ensures
            r.inv(),
            r.meta_view() == metadata,
            r.received_view() == Seq::<(Seq<usize>, Seq<u8>)>::empty(),
            forall|i: int| 0 <= i < r.solutions_view().len() ==> r.solutions_view()[i] is None,
            r.solutions_view().len() == metadata.block_count,
    {
        let solutions: Vec<Option<Vec<u8>>> = vec![None; metadata.block_count];
        let r = FountainDecoder {
            metadata,
            solutions,
            equations: Vec::new(),
            received: Ghost(Seq::empty()),
        };
        proof {
            assert(r.equations_view() =~= Seq::<(Seq<usize>, Seq<u8>)>::empty());
        }
        r
    }
}

/// True when the list is strictly increasing.
pub fn is_sorted_unique(ids: &Vec<usize>) -> (r: bool)
    ensures
        r == sorted_unique(ids@),
{
    let mut i: usize = 0;
    if ids.len() <= 1 {
        return true;
    }
    while i < ids.len() - 1
        invariant
            i < ids@.len(),
            ids@.len() >= 2,
            forall|t: int| 0 <= t < i ==> (#[trigger] ids@[t]) < ids@[t + 1],
        decreases ids@.len() - i,
    {
        if ids[i] >= ids[i + 1] {
            assert(!sorted_unique(ids@));
            return false;
        }
        i += 1;
    }
    proof {
        lemma_adjacent_implies_sorted(ids@);
    }
    true
}

/// Adjacent strict increase gives pairwise strict increase.
proof fn lemma_adjacent_implies_sorted(s: Seq<usize>)
    requires
        forall|t: int| 0 <= t < s.len() - 1 ==> (#[trigger] s[t]) < s[t + 1],
    ensures
        sorted_unique(s),
{
    assert forall|i: int, j: int| 0 <= i < j < s.len() implies s[i] < s[j] by {
        lemma_adjacent_pair(s, i, j);
    }
}

proof fn lemma_adjacent_pair(s: Seq<usize>, i: int, j: int)
    requires
        forall|t: int| 0 <= t < s.len() - 1 ==> (#[trigger] s[t]) < s[t + 1],
        0 <= i < j < s.len(),
    ensures
        s[i] < s[j],
    decreases j - i,
{
    if j == i + 1 {
    } else {
        lemma_adjacent_pair(s, i, j - 1);
    }
}

/// Sort the indices and drop duplicates; membership is preserved.
fn normalize_indices(ids: &Vec<usize>) -> (r: Vec<usize>)
    ensures
        sorted_unique(r@),
        forall|x: usize| r@.contains(x) <==> ids@.contains(x),
        r@.len() >= 1 <==> ids@.len() >= 1,
{
    let mut out: Vec<usize> = Vec::new();
    let mut i: usize = 0;
    while i < ids.len()
        invariant
            i <= ids@.len(),
            sorted_unique(out@),
            forall|x: usize| out@.contains(x) <==> ids@.take(i as int).contains(x),
            i >= 1 ==> out@.len() >= 1,
        decreases ids@.len() - i,
    {
        let x = ids[i];
        let ghost old_out = out@;
        let mut p: usize = 0;
        let mut skip = false;
        while p < out.len() && out[p] < x
            invariant
                p <= out@.len(),
                out@ == old_out,
                sorted_unique(out@),
                forall|t: int| 0 <= t < p ==> out@[t] < x,
            decreases out@.len() - p,
        {
            p += 1;
        }
        if p < out.len() && out[p] == x {
            skip = true;
        }
        if !skip {
            out.insert(p, x);
            proof {
                assert(out@ == old_out.insert(p as int, x));
                assert forall|a: int, b: int| 0 <= a < b < out@.len() implies out@[a] < out@[b] by {
                    if a < p && b < p {
                    } else if a < p && b == p {
                    } else if a < p && b > p {
                        assert(out@[b] == old_out[b - 1]);
                    } else if a == p {
                        assert(out@[b] == old_out[b - 1]);
                        assert(old_out[b - 1] >= x);
                        assert(old_out[b - 1] != x);
                    } else {
                        assert(out@[a] == old_out[a - 1]);
                        assert(out@[b] == old_out[b - 1]);
                    }
                }
                assert forall|y: usize| out@.contains(y) <==> ids@.take(i as int + 1).contains(
                    y,
                ) by {
                    lemma_insert_contains(old_out, p as int, x, y);
                    assert(ids@.take(i as int + 1).drop_last() =~= ids@.take(i as int));
                    if y == x {
                        assert(ids@.take(i as int + 1).last() == x);
                        assert(ids@.take(i as int + 1).contains(x));
                    } else {
                        lemma_take_one_more_contains(ids@, i as int, y);
                    }
                }
            }
        } else {
            proof {
                assert(out@.contains(x));
                assert forall|y: usize| out@.contains(y) <==> ids@.take(i as int + 1).contains(
                    y,
                ) by {
                    assert(ids@.take(i as int + 1).drop_last() =~= ids@.take(i as int));
                    if y == x {
                        assert(ids@.take(i as int + 1).last() == x);
                        assert(ids@.take(i as int + 1).contains(x));
                    } else {
                        lemma_take_one_more_contains(ids@, i as int, y);
                    }
                }
            }
        }
        i += 1;
    }
    proof {
        assert(ids@.take(ids@.len() as int) =~= ids@);
        if ids@.len() >= 1 {
            assert(ids@.contains(ids@[0]));
        }
        if out@.len() >= 1 {
            assert(out@.contains(out@[0]));
        }
    }
    out
}

/// Membership in a sequence after one insertion.
proof fn lemma_insert_contains(s: Seq<usize>, p: int, x: usize, y: usize)
    requires
        0 <= p <= s.len(),
    ensures
        s.insert(p, x).contains(y) <==> (s.contains(y) || y == x),
{
    let t = s.insert(p, x);
    if y == x {
        assert(t[p] == x);
        assert(t.contains(y));
    }
    if s.contains(y) {
        let w = choose|w: int| 0 <= w < s.len() && s[w] == y;
        if w < p {
            assert(t[w] == y);
        } else {
            assert(t[w + 1] == y);
        }
        assert(t.contains(y));
    }
    if t.contains(y) && y != x {
        let w = choose|w: int| 0 <= w < t.len() && t[w] == y;
        if w < p {
            assert(s[w] == y);
        } else if w == p {
            assert(false);
        } else {
            assert(s[w - 1] == y);
        }
        assert(s.contains(y));
    }
}

/// Membership in one more element of a prefix.
proof fn lemma_take_one_more_contains(s: Seq<usize>, i: int, y: usize)
    requires
        0 <= i < s.len(),
    ensures
        s.take(i + 1).contains(y) <==> (s.take(i).contains(y) || y == s[i]),
{
    if s.take(i).contains(y) {
        let w = choose|w: int| 0 <= w < i && s.take(i)[w] == y;
        assert(s.take(i + 1)[w] == y);
    }
    if y == s[i] {
        assert(s.take(i + 1)[i] == y);
    }
    if s.take(i + 1).contains(y) {
        let w = choose|w: int| 0 <= w <= i && (#[trigger] s.take(i + 1)[w]) == y;
        if w < i {
            assert(s.take(i)[w] == y);
        }
    }
}

impl FountainDecoder {
    /// Remove every already solved index from the equation, XORing the
    /// solved block into the payload; whatever assignment satisfies the
    /// equation and matches the solutions also satisfies the reduced
    /// equation.
    fn reduce_with_known(
        indices: &mut Vec<usize>,
        payload: &mut Vec<u8>,
        solutions: &Vec<Option<Vec<u8>>>,
    )
        requires
            sorted_unique(old(indices)@),
            forall|t: int| 0 <= t < old(indices)@.len() ==> old(indices)@[t] < solutions@.len(),
            forall|i: int|
                0 <= i < solutions@.len() && solutions@[i] is Some ==> sol_view(
                    #[trigger] solutions@[i],
                ).len() == old(payload)@.len(),
        ensures
            final(payload)@.len() == old(payload)@.len(),
            sorted_unique(final(indices)@),
            final(indices)@.len() <= old(indices)@.len(),
            forall|t: int|
                0 <= t < final(indices)@.len() ==> final(indices)@[t] < solutions@.len()
                    && solutions@[final(indices)@[t] as int] is None,
            forall|t: int|
                0 <= t < old(indices)@.len() ==> solutions@[(#[trigger] old(indices)@[t]) as int]
                    is Some || final(indices)@.contains(old(indices)@[t]),
            forall|t: int|
                0 <= t < final(indices)@.len() ==> old(indices)@.contains(
                    #[trigger] final(indices)@[t],
                ),
            forall|bl: Seq<Seq<u8>>|
                (bl.len() == solutions@.len() && (forall|u: int|
                    0 <= u < bl.len() ==> (#[trigger] bl[u]).len() == old(payload)@.len())
                    && sols_agree(bl, solutions@) && #[trigger] eq_sat(
                    bl,
                    old(indices)@,
                    old(payload)@,
                    old(payload)@.len() as nat,
                )) ==> eq_sat(bl, final(indices)@, final(payload)@, old(payload)@.len() as nat),
    {
        let ghost n = old(payload)@.len() as nat;
        let mut i: usize = 0;
        while i < indices.len()
            invariant
                i <= indices@.len(),
                payload@.len() == n,
                sorted_unique(indices@),
                indices@.len() <= old(indices)@.len(),
                forall|t: int| 0 <= t < indices@.len() ==> indices@[t] < solutions@.len(),
                forall|t: int| 0 <= t < i ==> solutions@[indices@[t] as int] is None,
                forall|t: int|
                    0 <= t < old(indices)@.len() ==> solutions@[(#[trigger] old(indices)@[t]) as int]
                        is Some || indices@.contains(old(indices)@[t]),
                forall|t: int|
                    0 <= t < indices@.len() ==> old(indices)@.contains(#[trigger] indices@[t]),
                forall|t: int|
                    0 <= t < solutions@.len() && solutions@[t] is Some ==> sol_view(
                        #[trigger] solutions@[t],
                    ).len() == n,
                forall|bl: Seq<Seq<u8>>|
                    (bl.len() == solutions@.len() && (forall|u: int|
                        0 <= u < bl.len() ==> (#[trigger] bl[u]).len() == n) && sols_agree(
                        bl,
                        solutions@,
                    ) && #[trigger] eq_sat(bl, old(indices)@, old(payload)@, n)) ==> eq_sat(
                        bl,
                        indices@,
                        payload@,
                        n,
                    ),
            decreases indices@.len() - i,
        {
            let idx = indices[i];
            let mut solved_block: Option<Vec<u8>> = None;
            match &solutions[idx] {
                Some(s) => {
                    solved_block = Some(clone_bytes(s));
                },
                None => {},
            }
            match solved_block {
                Some(sol) => {
                    let ghost prev_ids = indices@;
                    let ghost prev_pay = payload@;
                    let ghost sol_bytes = sol@;
                    proof {
                        assert(sol_bytes == sol_view(solutions@[idx as int]));
                        assert(sol_bytes.len() == n);
                    }
                    xor_in_place(payload, &sol);
                    let _ = indices.remove(i);
                    proof {
                        assert(payload@ =~= xor_bytes(prev_pay, sol_bytes));
                        assert(indices@ == prev_ids.remove(i as int));
                        assert forall|t: int|
                            0 <= t < indices@.len() implies old(indices)@.contains(
                            #[trigger] indices@[t],
                        ) by {
                            if t < i {
                                assert(indices@[t] == prev_ids[t]);
                            } else {
                                assert(indices@[t] == prev_ids[t + 1]);
                            }
                        }
                        assert forall|t: int|
                            0 <= t < old(indices)@.len() implies solutions@[(
                        #[trigger] old(indices)@[t]) as int] is Some || indices@.contains(
                            old(indices)@[t],
                        ) by {
                            let x = old(indices)@[t];
                            if !(solutions@[x as int] is Some) {
                                assert(prev_ids.contains(x));
                                let w = choose|w: int| 0 <= w < prev_ids.len() && prev_ids[w] == x;
                                if w == i {
                                    assert(prev_ids[i as int] == idx);
                                    assert(false);
                                } else if w < i {
                                    assert(indices@[w] == x);
                                } else {
                                    assert(indices@[w - 1] == x);
                                }
                            }
                        }
                        assert forall|bl: Seq<Seq<u8>>|
                            (bl.len() == solutions@.len() && (forall|u: int|
                                0 <= u < bl.len() ==> (#[trigger] bl[u]).len() == n) && sols_agree(
                                bl,
                                solutions@,
                            ) && #[trigger] eq_sat(bl, old(indices)@, old(payload)@, n)) implies
                            eq_sat(bl, indices@, payload@, n) by {
                            assert(eq_sat(bl, prev_ids, prev_pay, n));
                            lemma_reduce_step(bl, prev_ids, prev_pay, n, i as int);
                            assert(sol_view(solutions@[idx as int]) == bl[idx as int]);
                            assert(eq_sat(
                                bl,
                                prev_ids.remove(i as int),
                                xor_bytes(prev_pay, sol_bytes),
                                n,
                            ));
                        }
                    }
                },
                None => {
                    i += 1;
                },
            }
        }
    }

    /// Record a recovered block; rejects a conflicting value for an already
    /// recovered block. The caller supplies the proof that every consistent
    /// assignment holds this value at this index.
    fn set_solution(&mut self, idx: usize, payload: Vec<u8>) -> (r: Result<(), S3pError>)
        requires
            old(self).wf(),
            idx < old(self).meta_view().block_count,
            payload@.len() == old(self).meta_view().block_len,
            forall|bl: Seq<Seq<u8>>|
                #[trigger] old(self).consistent(bl) ==> bl[idx as int] == payload@,
        ensures
            final(self).wf(),
            final(self).meta_view() == old(self).meta_view(),
            final(self).received_view() == old(self).received_view(),
            final(self).equations@ == old(self).equations@,
            r matches Err(e) ==> e is Fountain,
            r is Err <==> (old(self).solutions_view()[idx as int] matches Some(v) && v@
                != payload@),
            old(self).solutions_view()[idx as int] is None ==> final(self).solutions_view() == old(self).solutions_view().update(idx as int, Some(payload)),
            old(self).solutions_view()[idx as int] is Some ==> final(self).solutions_view() == old(self).solutions_view(),
    {
        match &self.solutions[idx] {
            Some(existing) => {
                if crate::bytes::bytes_eq(existing, &payload) {
                    return Ok(());
                }
                return Err(S3pError::Fountain("conflicting solution"));
            },
            None => {},
        }
        self.solutions.set(idx, Some(payload));
        proof {
            let n = self.metadata.block_len;
            assert forall|bl: Seq<Seq<u8>>| #[trigger] self.consistent(bl) implies sols_agree(
                bl,
                self.solutions@,
            ) && sat_all(bl, self.equations_view(), n as nat) by {
                assert(old(self).consistent(bl));
                assert(sols_agree(bl, old(self).solutions@));
                assert(self.equations_view() =~= old(self).equations_view());
                assert forall|i: int|
                    0 <= i < self.solutions@.len() && self.solutions@[i] is Some implies sol_view(
                    #[trigger] self.solutions@[i],
                ) == bl[i] by {
                    if i != idx {
                        assert(self.solutions@[i] == old(self).solutions@[i]);
                    }
                }
            }
            assert(self.equations_view() =~= old(self).equations_view());
        }
        Ok(())
    }

    /// Re-run elimination until no pending equation can be reduced further.
    fn propagate(&mut self) -> (r: Result<(), S3pError>)
        requires
            old(self).wf(),
        ensures
            final(self).wf(),
            final(self).meta_view() == old(self).meta_view(),
            final(self).received_view() == old(self).received_view(),
            r matches Err(e) ==> e is Fountain,
            final(self).solutions_view().len() == old(self).solutions_view().len(),
            forall|i: int|
                0 <= i < old(self).solutions_view().len() && old(self).solutions_view()[i]
                    is Some ==> final(self).solutions_view()[i] == old(self).solutions_view()[i],
            r is Err ==> forall|bl: Seq<Seq<u8>>| !final(self).consistent(bl),
    {
        let ghost k = self.metadata.block_count as int;
        let ghost n = self.metadata.block_len;
        let mut progress = true;
        proof {
            crate::erasure::lemma_num_present_bounds(self.solutions@);
        }
        while progress
            invariant
                self.wf(),
                self.meta_view() == old(self).meta_view(),
                self.received_view() == old(self).received_view(),
                k == self.metadata.block_count as int,
                n == self.metadata.block_len,
                crate::erasure::num_present(self.solutions@) <= k,
                0 <= crate::erasure::num_present(self.solutions@),
                self.solutions@.len() == old(self).solutions@.len(),
                forall|i: int|
                    0 <= i < old(self).solutions@.len() && old(self).solutions@[i] is Some
                        ==> self.solutions@[i] == old(self).solutions@[i],
            decreases k - crate::erasure::num_present(self.solutions@) + self.equations@.len() + (
            if progress {
                1int
            } else {
                0int
            }),
        {
            progress = false;
            let ghost nn0 = crate::erasure::num_present(self.solutions@);
            let ghost m0 = self.equations@.len() as int;
            let mut keep: Vec<Equation> = Vec::new();
            while self.equations.len() > 0
                invariant
                    self.wf(),
                    self.meta_view() == old(self).meta_view(),
                    self.received_view() == old(self).received_view(),
                    k == self.metadata.block_count as int,
                    n == self.metadata.block_len,
                    crate::erasure::num_present(self.solutions@) <= k,
                    0 <= crate::erasure::num_present(self.solutions@),
                    self.solutions@.len() == old(self).solutions@.len(),
                    forall|i: int|
                        0 <= i < old(self).solutions@.len() && old(self).solutions@[i] is Some
                            ==> self.solutions@[i] == old(self).solutions@[i],
                    forall|e: int|
                        0 <= e < keep@.len() ==> {
                            let eq = #[trigger] keep@[e];
                            &&& eq.payload@.len() == n
                            &&& eq.indices@.len() >= 1
                            &&& sorted_unique(eq.indices@)
                            &&& (forall|t: int| 0 <= t < eq.indices@.len() ==> eq.indices@[t] < k)
                        },
                    forall|bl: Seq<Seq<u8>>|
                        #[trigger] self.consistent(bl) ==> (forall|e: int|
                            0 <= e < keep@.len() ==> eq_sat(
                                bl,
                                (#[trigger] keep@[e]).indices@,
                                keep@[e].payload@,
                                n as nat,
                            )),
                    k - crate::erasure::num_present(self.solutions@) + keep@.len()
                        + self.equations@.len() + (if progress {
                        1int
                    } else {
                        0int
                    }) <= k - nn0 + m0,
                decreases self.equations@.len(),
            {
                let ghost pre_self = *self;
                let eq = match self.equations.pop() {
                    Some(q) => q,
                    None => {
                        proof {
                            assert(false);
                        }
                        return Err(S3pError::Fountain("inconsistent equations"));
                    },
                };
                proof {
                    assert(self.equations@ == pre_self.equations@.drop_last());
                    let e = pre_self.equations@.len() - 1;
                    assert(pre_self.equations@[e] == eq);
                    assert(eq.payload@.len() == n);
                    assert(sorted_unique(eq.indices@));
                    assert(forall|t: int| 0 <= t < eq.indices@.len() ==> eq.indices@[t] < k);
                    assert forall|bl: Seq<Seq<u8>>| #[trigger] self.consistent(bl) implies eq_sat(
                        bl,
                        eq.indices@,
                        eq.payload@,
                        n as nat,
                    ) && sols_agree(bl, self.solutions@) && sat_all(
                        bl,
                        self.equations_view(),
                        n as nat,
                    ) by {
                        assert(pre_self.consistent(bl));
                        assert(pre_self.equations_view()[e] == (eq.indices@, eq.payload@));
                        assert(eq_sat(
                            bl,
                            pre_self.equations_view()[e].0,
                            pre_self.equations_view()[e].1,
                            n as nat,
                        ));
                        assert forall|f: int| 0 <= f < self.equations_view().len() implies eq_sat(
                            bl,
                            (#[trigger] self.equations_view()[f]).0,
                            self.equations_view()[f].1,
                            n as nat,
                        ) by {
                            assert(self.equations_view()[f] == pre_self.equations_view()[f]);
                        }
                    }
                }
                let Equation { mut indices, mut payload } = eq;
                let ghost ids0 = indices@;
                let ghost pay0 = payload@;
                Self::reduce_with_known(&mut indices, &mut payload, &self.solutions);
                proof {
                    assert forall|bl: Seq<Seq<u8>>| #[trigger] self.consistent(bl) implies eq_sat(
                        bl,
                        indices@,
                        payload@,
                        n as nat,
                    ) by {
                        assert(bl.len() == self.solutions@.len());
                        assert(sols_agree(bl, self.solutions@));
                        assert(eq_sat(bl, ids0, pay0, n as nat));
                    }
                }
                if indices.len() == 0 {
                    if !crate::bytes::is_all_zero(&payload) {
                        let ghost pre_err = *self;
                        self.equations.append(&mut keep);
                        proof {
                            assert forall|bl: Seq<Seq<u8>>| !self.consistent(bl) by {
                                if self.consistent(bl) {
                                    assert(pre_err.consistent(bl));
                                    assert(eq_sat(bl, indices@, payload@, n as nat));
                                    assert(indices@.len() == 0);
                                    assert(xor_over(bl, indices@, n as nat) == zero_bytes(n as nat));
                                    assert(payload@ == zero_bytes(n as nat));
                                    let w = choose|w: int|
                                        0 <= w < payload@.len() && payload@[w] != 0u8;
                                    assert(payload@[w] == zero_bytes(n as nat)[w]);
                                    assert(false);
                                }
                            }
                            assert forall|bl: Seq<Seq<u8>>| #[trigger] self.consistent(bl) implies
                                sols_agree(bl, self.solutions@) && sat_all(
                                bl,
                                self.equations_view(),
                                n as nat,
                            ) by {
                                assert(pre_err.consistent(bl));
                                assert forall|f: int|
                                    0 <= f < self.equations_view().len() implies eq_sat(
                                    bl,
                                    (#[trigger] self.equations_view()[f]).0,
                                    self.equations_view()[f].1,
                                    n as nat,
                                ) by {
                                    if f < pre_err.equations@.len() {
                                        assert(self.equations_view()[f]
                                            == pre_err.equations_view()[f]);
                                    } else {
                                        let g = f - pre_err.equations@.len();
                                        assert(self.equations@[f] == keep@[g]);
                                    }
                                }
                            }
                        }
                        return Err(S3pError::Fountain("inconsistent equations"));
                    }
                    proof {
                        assert forall|bl: Seq<Seq<u8>>| #[trigger] self.consistent(bl) implies (
                        forall|e: int|
                            0 <= e < keep@.len() ==> eq_sat(
                                bl,
                                (#[trigger] keep@[e]).indices@,
                                keep@[e].payload@,
                                n as nat,
                            )) by {
                            assert(self.received@ == pre_self.received@);
                            assert(self.metadata == pre_self.metadata);
                            assert(pre_self.consistent(bl));
                        }
                    }
                    progress = true;
                } else if indices.len() == 1 {
                    let idx = indices[0];
                    proof {
                        assert(self.solutions@[idx as int] is None);
                        assert forall|bl: Seq<Seq<u8>>| #[trigger] self.consistent(bl) implies
                            bl[idx as int] == payload@ by {
                            assert(eq_sat(bl, indices@, payload@, n as nat));
                            lemma_singleton_eq(bl, indices@, payload@, n as nat);
                        }
                    }
                    let ghost sols_before = self.solutions@;
                    let ghost pay_ghost = payload@;
                    match self.set_solution(idx, payload) {
                        Ok(()) => {},
                        Err(e) => {
                            proof {
                                assert(false);
                            }
                            return Err(e);
                        },
                    }
                    proof {
                        let v = choose|v: Vec<u8>|
                            self.solutions@[idx as int] == Some(v) && v@ == pay_ghost;
                        assert(self.solutions@ == sols_before.update(idx as int, Some(v)));
                        crate::erasure::lemma_num_present_update(sols_before, idx as int, v);
                        crate::erasure::lemma_num_present_bounds(self.solutions@);
                        assert forall|bl: Seq<Seq<u8>>| #[trigger] self.consistent(bl) implies (
                        forall|e: int|
                            0 <= e < keep@.len() ==> eq_sat(
                                bl,
                                (#[trigger] keep@[e]).indices@,
                                keep@[e].payload@,
                                n as nat,
                            )) by {
                            assert(self.received@ == pre_self.received@);
                            assert(self.metadata == pre_self.metadata);
                            assert(pre_self.consistent(bl));
                        }
                    }
                    progress = true;
                } else {
                    let ghost keep0 = keep@;
                    let ghost new_ids = indices@;
                    let ghost new_pay = payload@;
                    keep.push(Equation { indices, payload });
                    proof {
                        assert(keep@.len() == keep0.len() + 1);
                        assert(keep@[keep0.len() as int].indices@ == new_ids);
                        assert(keep@[keep0.len() as int].payload@ == new_pay);
                        assert forall|bl: Seq<Seq<u8>>| #[trigger] self.consistent(bl) implies (
                        forall|e: int|
                            0 <= e < keep@.len() ==> eq_sat(
                                bl,
                                (#[trigger] keep@[e]).indices@,
                                keep@[e].payload@,
                                n as nat,
                            )) by {
                            assert(self.received@ == pre_self.received@);
                            assert(self.metadata == pre_self.metadata);
                            assert(pre_self.consistent(bl));
                            assert(eq_sat(bl, new_ids, new_pay, n as nat));
                            assert forall|e: int| 0 <= e < keep@.len() implies eq_sat(
                                bl,
                                (#[trigger] keep@[e]).indices@,
                                keep@[e].payload@,
                                n as nat,
                            ) by {
                                if e < keep0.len() {
                                    assert(keep@[e] == keep0[e]);
                                } else {
                                    assert(keep@[e].indices@ == new_ids);
                                }
                            }
                        }
                    }
                }
            }
            let ghost pre_assign = *self;
            self.equations = keep;
            proof {
                assert(self.received@ == pre_assign.received@);
                assert(self.solutions@ == pre_assign.solutions@);
                assert forall|bl: Seq<Seq<u8>>| #[trigger] self.consistent(bl) implies sols_agree(
                    bl,
                    self.solutions@,
                ) && sat_all(bl, self.equations_view(), n as nat) by {
                    assert(pre_assign.consistent(bl));
                    assert(sols_agree(bl, pre_assign.solutions@));
                    assert forall|e: int| 0 <= e < self.equations_view().len() implies eq_sat(
                        bl,
                        (#[trigger] self.equations_view()[e]).0,
                        self.equations_view()[e].1,
                        n as nat,
                    ) by {
                        assert(self.equations_view()[e] == (
                            self.equations@[e].indices@,
                            self.equations@[e].payload@,
                        ));
                    }
                }
            }
        }
        Ok(())
    }
}

/// The byte count of the decoded payload: the original length, capped by
/// the total block capacity.
pub open spec fn decoded_len(meta: FountainMetadata) -> int {
    if meta.original_len <= meta.block_count * meta.block_len {
        meta.original_len as int
    } else {
        (meta.block_count * meta.block_len) as int
    }
}

impl FountainDecoder {
    /// Once every block is recovered, concatenate them in index order and
    /// cut at the original length. Any assignment consistent with the
    /// accepted packets concatenates to the same bytes.
    pub fn try_finalize(&self) -> (r: Option<Vec<u8>>)
        requires
            self.inv(),
        ensures
            r is Some <==> (forall|i: int|
                0 <= i < self.solutions_view().len() ==> self.solutions_view()[i] is Some),
            r matches Some(d) ==> d@.len() == decoded_len(self.meta_view()) && (forall|
                bl: Seq<Seq<u8>>,
            |
                #[trigger] self.consistent(bl) ==> d@ == concat_all(bl).take(
                    decoded_len(self.meta_view()),
                )),
    {
        let k = self.metadata.block_count;
        let n = self.metadata.block_len;
        let ghost svs = Seq::new(
            self.solutions@.len(),
            |i: int| sol_view(self.solutions@[i]),
        );
        let mut i: usize = 0;
        while i < self.solutions.len()
            invariant
                i <= self.solutions@.len(),
                forall|t: int| 0 <= t < i ==> self.solutions@[t] is Some,
            decreases self.solutions@.len() - i,
        {
            match &self.solutions[i] {
                Some(_) => {},
                None => {
                    return None;
                },
            }
            i += 1;
        }
        let mut out: Vec<u8> = Vec::new();
        let mut i: usize = 0;
        proof {
            assert(svs.take(0) =~= Seq::<Seq<u8>>::empty());
        }
        while i < self.solutions.len()
            invariant
                i <= self.solutions@.len(),
                self.inv(),
                k == self.metadata.block_count,
                n == self.metadata.block_len,
                svs == Seq::new(self.solutions@.len(), |t: int| sol_view(self.solutions@[t])),
                forall|t: int| 0 <= t < self.solutions@.len() ==> self.solutions@[t] is Some,
                out@ == concat_all(svs.take(i as int)),
                out@.len() == i * n,
            decreases self.solutions@.len() - i,
        {
            let ghost prefix = svs.take(i as int);
            match &self.solutions[i] {
                Some(v) => {
                    let ghost vlen = v@.len();
                    let mut j: usize = 0;
                    while j < v.len()
                        invariant
                            j <= v@.len(),
                            out@ == concat_all(prefix) + v@.take(j as int),
                            out@.len() == concat_all(prefix).len() + j,
                        decreases v@.len() - j,
                    {
                        out.push(v[j]);
                        assert(out@ =~= concat_all(prefix) + v@.take(j as int + 1));
                        j += 1;
                    }
                    proof {
                        assert(v@.take(v@.len() as int) =~= v@);
                        assert(v@.len() == n);
                        crate::erasure::lemma_concat_snoc(prefix, v@);
                        assert(svs[i as int] == v@);
                        assert(prefix.push(v@) =~= svs.take(i as int + 1));
                        assert((i + 1) * n == i * n + n) by (nonlinear_arith);
                    }
                },
                None => {
                    proof {
                        assert(false);
                    }
                },
            }
            i += 1;
        }
        proof {
            assert(svs.take(self.solutions@.len() as int) =~= svs);
        }
        out.truncate(self.metadata.original_len);
        let result = out;
        proof {
            assert(svs.len() == k);
            assert(result@.len() == decoded_len(self.metadata)) by {
                assert(k * n == svs.len() * n);
            }
            assert forall|bl: Seq<Seq<u8>>| #[trigger] self.consistent(bl) implies result@
                == concat_all(bl).take(decoded_len(self.meta_view())) by {
                assert(sols_agree(bl, self.solutions@));
                assert forall|t: int| 0 <= t < svs.len() implies svs[t] == bl[t] by {
                    assert(sol_view(self.solutions@[t]) == bl[t]);
                }
                assert(bl =~= svs);
            }
        }
        Some(result)
    }

    /// Ingest a packet and try to recover additional source blocks. Returns
    /// `Ok(Some(bytes))` once the entire payload has been reconstructed;
    /// whatever was returned is the unique payload consistent with every
    /// packet accepted so far.
    #[verifier::loop_isolation(false)]
    pub fn receive(&mut self, packet: FountainPacket) -> (r: Result<Option<Vec<u8>>, S3pError>)
        requires
            old(self).inv(),
        ensures
            final(self).inv(),
            final(self).meta_view() == old(self).meta_view(),
            r matches Err(e) ==> e is Fountain,
            packet.metadata != old(self).meta_view() ==> r is Err && final(self).received_view()
                == old(self).received_view(),
            packet.metadata == old(self).meta_view() && packet.payload@.len() != old(self).meta_view().block_len ==> r is Err && final(self).received_view() == old(self).received_view(),
            packet.metadata == old(self).meta_view() && packet.payload@.len() == old(self).meta_view().block_len && packet.indices@.len() == 0 ==> r is Err && final(self).received_view() == old(self).received_view(),
            packet.metadata == old(self).meta_view() && packet.payload@.len() == old(self).meta_view().block_len && packet.indices@.len() >= 1 && (exists|t: int|
                0 <= t < packet.indices@.len() && packet.indices@[t] >= old(self).meta_view().block_count) ==> r is Err && final(self).received_view() == old(self).received_view(),
            (packet.metadata == old(self).meta_view() && packet.payload@.len() == old(self).meta_view().block_len && packet.indices@.len() >= 1 && (forall|t: int|
                0 <= t < packet.indices@.len() ==> packet.indices@[t] < old(self).meta_view().block_count)) ==> {
                let rec = final(self).received_view();
                let prev = old(self).received_view();
                &&& rec.len() == prev.len() + 1
                &&& rec.take(prev.len() as int) == prev
                &&& rec.last().1 == packet.payload@
                &&& sorted_unique(rec.last().0)
                &&& (forall|x: usize| rec.last().0.contains(x) <==> packet.indices@.contains(x))
                &&& (sorted_unique(packet.indices@) ==> rec.last().0 == packet.indices@)
            },
            r matches Ok(Some(d)) ==> d@.len() == decoded_len(old(self).meta_view()) && (forall|
                bl: Seq<Seq<u8>>,
            |
                #[trigger] final(self).consistent(bl) ==> d@ == concat_all(bl).take(
                    decoded_len(old(self).meta_view()),
                )),
            final(self).solutions_view().len() == old(self).solutions_view().len(),
            forall|i: int|
                0 <= i < old(self).solutions_view().len() && old(self).solutions_view()[i]
                    is Some ==> final(self).solutions_view()[i] == old(self).solutions_view()[i],
            r matches Ok(res) ==> ((res is Some) <==> (forall|i: int|
                0 <= i < final(self).solutions_view().len() ==> final(self).solutions_view()[i]
                    is Some)),
            (packet.metadata == old(self).meta_view() && packet.payload@.len() == old(self).meta_view().block_len && packet.indices@.len() == 1 && packet.indices@[0] < old(self).meta_view().block_count && r is Ok) ==> final(self).solutions_view()[packet.indices@[0] as int] is Some,
            (packet.metadata == old(self).meta_view() && packet.payload@.len() == old(self).meta_view().block_len && packet.indices@.len() >= 1 && (forall|t: int|
                0 <= t < packet.indices@.len() ==> packet.indices@[t] < old(self).meta_view().block_count) && r is Err) ==> forall|bl: Seq<Seq<u8>>| !final(self).consistent(bl),
    {
        let n = self.metadata.block_len;
        if packet.metadata.original_len != self.metadata.original_len
            || packet.metadata.block_len != self.metadata.block_len
            || packet.metadata.block_count != self.metadata.block_count {
            return Err(S3pError::Fountain("metadata mismatch"));
        }
        if packet.payload.len() != n {
            return Err(S3pError::Fountain("invalid payload length"));
        }
        if packet.indices.len() == 0 {
            return Err(S3pError::Fountain("packet without indices"));
        }
        let sorted_in = is_sorted_unique(&packet.indices);
        let ids: Vec<usize> = if sorted_in {
            packet.indices
        } else {
            normalize_indices(&packet.indices)
        };
        proof {
            assert(forall|x: usize| ids@.contains(x) <==> packet.indices@.contains(x));
            assert(ids@.len() >= 1) by {
                assert(packet.indices@.contains(packet.indices@[0]));
                assert(ids@.contains(packet.indices@[0]));
            }
        }
        let mut t: usize = 0;
        while t < ids.len()
            invariant
                t <= ids@.len(),
                forall|u: int| 0 <= u < t ==> ids@[u] < self.metadata.block_count,
            decreases ids@.len() - t,
        {
            if ids[t] >= self.metadata.block_count {
                proof {
                    let x = ids@[t as int];
                    assert(ids@.contains(x));
                    assert(packet.indices@.contains(x));
                    let w = choose|w: int|
                        0 <= w < packet.indices@.len() && packet.indices@[w] == x;
                    assert(packet.indices@[w] >= old(self).meta_view().block_count);
                }
                return Err(S3pError::Fountain("block index out of range"));
            }
            t += 1;
        }
        proof {
            assert forall|u: int|
                0 <= u < packet.indices@.len() implies packet.indices@[u] < old(
                self,
            ).meta_view().block_count by {
                let x = packet.indices@[u];
                assert(packet.indices@.contains(x));
                assert(ids@.contains(x));
                let w = choose|w: int| 0 <= w < ids@.len() && ids@[w] == x;
            }
        }
        let ghost prev_self = *self;
        proof {
            self.received@ = self.received@.push((ids@, packet.payload@));
        }
        proof {
            assert(self.received@.take(prev_self.received@.len() as int) =~= prev_self.received@);
            assert forall|bl: Seq<Seq<u8>>| #[trigger] self.consistent(bl) implies sols_agree(
                bl,
                self.solutions@,
            ) && sat_all(bl, self.equations_view(), n as nat) && eq_sat(
                bl,
                ids@,
                packet.payload@,
                n as nat,
            ) by {
                assert forall|e: int| 0 <= e < prev_self.received@.len() implies eq_sat(
                    bl,
                    (#[trigger] prev_self.received@[e]).0,
                    prev_self.received@[e].1,
                    n as nat,
                ) by {
                    assert(self.received@[e] == prev_self.received@[e]);
                    assert(eq_sat(bl, self.received@[e].0, self.received@[e].1, n as nat));
                }
                assert(prev_self.consistent(bl));
                assert(self.equations_view() =~= prev_self.equations_view());
                let last = self.received@.len() - 1;
                assert(self.received@[last] == (ids@, packet.payload@));
                assert(eq_sat(bl, self.received@[last].0, self.received@[last].1, n as nat));
            }
        }
        let mut indices = ids;
        let mut payload = packet.payload;
        let ghost ids1 = indices@;
        let ghost pay1 = payload@;
        Self::reduce_with_known(&mut indices, &mut payload, &self.solutions);
        proof {
            assert forall|bl: Seq<Seq<u8>>| #[trigger] self.consistent(bl) implies eq_sat(
                bl,
                indices@,
                payload@,
                n as nat,
            ) by {
                assert(bl.len() == self.solutions@.len());
                assert(sols_agree(bl, self.solutions@));
                assert(eq_sat(bl, ids1, pay1, n as nat));
            }
        }
        let ghost singleton = packet.indices@.len() == 1 && packet.indices@[0] < old(
            self,
        ).meta_view().block_count;
        if indices.len() == 0 {
            if !crate::bytes::is_all_zero(&payload) {
                proof {
                    assert forall|bl: Seq<Seq<u8>>| !self.consistent(bl) by {
                        if self.consistent(bl) {
                            assert(eq_sat(bl, indices@, payload@, n as nat));
                            assert(xor_over(bl, indices@, n as nat) == zero_bytes(n as nat));
                            assert(payload@ == zero_bytes(n as nat));
                            let w = choose|w: int| 0 <= w < payload@.len() && payload@[w] != 0u8;
                            assert(payload@[w] == zero_bytes(n as nat)[w]);
                            assert(false);
                        }
                    }
                }
                return Err(S3pError::Fountain("inconsistent packet"));
            }
            proof {
                if singleton {
                    assert(ids1[0] == packet.indices@[0]);
                    assert(self.solutions@[packet.indices@[0] as int] is Some);
                }
            }
            return Ok(self.try_finalize());
        }
        if indices.len() == 1 {
            let idx = indices[0];
            proof {
                assert(self.solutions@[idx as int] is None);
                assert forall|bl: Seq<Seq<u8>>| #[trigger] self.consistent(bl) implies bl[idx as int]
                    == payload@ by {
                    assert(eq_sat(bl, indices@, payload@, n as nat));
                    lemma_singleton_eq(bl, indices@, payload@, n as nat);
                }
                if singleton {
                    assert(ids1.contains(indices@[0]));
                    assert(idx == packet.indices@[0]);
                }
            }
            match self.set_solution(idx, payload) {
                Ok(()) => {},
                Err(e) => {
                    proof {
                        assert(false);
                    }
                    return Err(e);
                },
            }
            let ghost mid_self = *self;
            match self.propagate() {
                Ok(()) => {},
                Err(e) => {
                    return Err(e);
                },
            }
            proof {
                if singleton {
                    assert(mid_self.solutions@[packet.indices@[0] as int] is Some);
                    assert(self.solutions@[packet.indices@[0] as int] is Some);
                }
            }
            return Ok(self.try_finalize());
        }
        let ghost pre_push = *self;
        let ghost new_ids = indices@;
        let ghost new_pay = payload@;
        proof {
            if singleton {
                assert(new_ids.len() <= ids1.len());
                assert(false);
            }
        }
        self.equations.push(Equation { indices, payload });
        proof {
            assert forall|bl: Seq<Seq<u8>>| #[trigger] self.consistent(bl) implies sols_agree(
                bl,
                self.solutions@,
            ) && sat_all(bl, self.equations_view(), n as nat) by {
                assert(self.received@ == pre_push.received@);
                assert(self.metadata == pre_push.metadata);
                assert(pre_push.consistent(bl));
                assert(eq_sat(bl, new_ids, new_pay, n as nat));
                assert forall|e: int| 0 <= e < self.equations_view().len() implies eq_sat(
                    bl,
                    (#[trigger] self.equations_view()[e]).0,
                    self.equations_view()[e].1,
                    n as nat,
                ) by {
                    if e < pre_push.equations@.len() {
                        assert(self.equations_view()[e] == pre_push.equations_view()[e]);
                    } else {
                        assert(self.equations@[e].indices@ == new_ids);
                        assert(self.equations@[e].payload@ == new_pay);
                    }
                }
            }
        }
        match self.propagate() {
            Ok(()) => {},
            Err(e) => {
                return Err(e);
            },
        }
        Ok(self.try_finalize())
    }
}

} // verus!
