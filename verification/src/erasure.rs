//! Systematic Reed–Solomon erasure coding over GF(2^8): split a byte buffer
//! into `k` data shards plus `m` parity shards, and rebuild the buffer from
//! any `k` surviving shards.

use vstd::prelude::*;

use crate::bytes::{block_of, blocks_of, concat_all, lemma_blocks_round_trip};
use crate::errors::{RsError, S3pError};

verus! {

/// The full systematic codeword the Reed–Solomon code assigns to `data`
/// rows with `parity` parity rows appended: a function of its arguments
/// alone.
pub uninterp spec fn rs_codeword(data: Seq<Seq<u8>>, parity: nat) -> Seq<Seq<u8>>;

/// The bytes of an optional shard; empty when the shard is missing.
pub open spec fn opt_view(o: Option<Vec<u8>>) -> Seq<u8> {
    match o {
        Some(v) => v@,
        None => Seq::empty(),
    }
}

/// The byte rows of a fully present shard list.
pub open spec fn opt_views(s: Seq<Option<Vec<u8>>>) -> Seq<Seq<u8>> {
    Seq::new(s.len(), |i: int| opt_view(s[i]))
}

/// How many shards of the list are present.
pub open spec fn num_present(s: Seq<Option<Vec<u8>>>) -> int
    decreases s.len(),
{
    if s.len() == 0 {
        0
    } else {
        num_present(s.drop_last()) + if s.last() is Some {
            1int
        } else {
            0int
        }
    }
}

/// The present count lies between zero and the length.
pub proof fn lemma_num_present_bounds(s: Seq<Option<Vec<u8>>>)
    ensures
        0 <= num_present(s) <= s.len(),
    decreases s.len(),
{
    if s.len() > 0 {
        lemma_num_present_bounds(s.drop_last());
    }
}

/// Filling a missing slot raises the present count by one.
pub proof fn lemma_num_present_update(s: Seq<Option<Vec<u8>>>, i: int, v: Vec<u8>)
    requires
        0 <= i < s.len(),
        s[i] is None,
    ensures
        num_present(s.update(i, Some(v))) == num_present(s) + 1,
    decreases s.len(),
{
    let u = s.update(i, Some(v));
    if i == s.len() - 1 {
        assert(u.drop_last() =~= s.drop_last());
        assert(u.last() == Some(v));
        assert(s.last() is None);
    } else {
        assert(u.drop_last() =~= s.drop_last().update(i, Some(v)));
        assert(u.last() == s.last());
        lemma_num_present_update(s.drop_last(), i, v);
    }
}

/// Relies on `reed_solomon_erasure::galois_8::ReedSolomon::encode`: with
/// valid shard counts and equally long, non-empty rows it fills the last
/// `parity_shards` rows with the parity of the first `data_shards` rows,
/// leaving those data rows unchanged; the resulting codeword is determined
/// by the data rows alone.
#[verifier::external_body]
fn rs_encode_raw(shards: &mut Vec<Vec<u8>>, data_shards: usize, parity_shards: usize) -> (r:
    Result<(), RsError>)
    requires
        1 <= data_shards,
        1 <= parity_shards,
        data_shards + parity_shards <= 256,
        old(shards)@.len() == data_shards + parity_shards,
        forall|i: int|
            0 <= i < old(shards)@.len() ==> (#[trigger] old(shards)@[i]@.len())
                == old(shards)@[0]@.len(),
        old(shards)@[0]@.len() >= 1,
    ensures
        r is Ok,
        final(shards)@.len() == old(shards)@.len(),
        forall|i: int|
            0 <= i < data_shards ==> final(shards)@[i]@ == old(shards)@[i]@,
        forall|i: int|
            0 <= i < final(shards)@.len() ==> final(shards)@[i]@.len() == old(shards)@[0]@.len(),
        final(shards).deep_view() == rs_codeword(
            old(shards).deep_view().take(data_shards as int),
            parity_shards as nat,
        ),
{
    let rs = reed_solomon_erasure::galois_8::ReedSolomon::new(data_shards, parity_shards).map_err(
        |_| RsError::TooManyShards,
    )?;
    rs.encode(shards.as_mut_slice()).map_err(|_| RsError::IncorrectShardSize)?;
    Ok(())
}

/// Relies on `reed_solomon_erasure::galois_8::ReedSolomon::reconstruct`:
/// with at least `data_shards` present rows of equal non-zero length it
/// fills every missing row, leaving present rows unchanged; whenever the
/// present rows agree with the codeword of some data rows, the completed
/// list is that codeword and its first `data_shards` rows are those data
/// rows.
#[verifier::external_body]
fn rs_reconstruct_raw(
    shards: &mut Vec<Option<Vec<u8>>>,
    data_shards: usize,
    parity_shards: usize,
    shard_len: usize,
) -> (r: Result<(), RsError>)
    requires
        1 <= data_shards,
        1 <= parity_shards,
        data_shards + parity_shards <= 256,
        old(shards)@.len() == data_shards + parity_shards,
        shard_len >= 1,
        forall|i: int|
            0 <= i < old(shards)@.len() && old(shards)@[i] is Some ==> opt_view(old(shards)@[i]).len()
                == shard_len,
        num_present(old(shards)@) >= data_shards,
    ensures
        r is Ok,
        final(shards)@.len() == old(shards)@.len(),
        forall|i: int| 0 <= i < final(shards)@.len() ==> final(shards)@[i] is Some,
        forall|i: int|
            0 <= i < final(shards)@.len() && old(shards)@[i] is Some ==> opt_view(final(shards)@[i])
                == opt_view(old(shards)@[i]),
        forall|i: int|
            0 <= i < final(shards)@.len() ==> opt_view(final(shards)@[i]).len() == shard_len,
        forall|data: Seq<Seq<u8>>|
            (data.len() == data_shards && (forall|i: int|
                0 <= i < old(shards)@.len() && old(shards)@[i] is Some ==> opt_view(old(shards)@[i])
                    == rs_codeword(data, parity_shards as nat)[i])) ==> opt_views(final(shards)@)
                == rs_codeword(data, parity_shards as nat) && opt_views(final(shards)@).take(
                data_shards as int,
            ) == data,
{
    let rs = reed_solomon_erasure::galois_8::ReedSolomon::new(data_shards, parity_shards).map_err(
        |_| RsError::TooManyShards,
    )?;
    let _ = shard_len;
    rs.reconstruct(shards.as_mut_slice()).map_err(|_| RsError::TooFewShardsPresent)?;
    Ok(())
}

/// Metadata describing a Reed–Solomon shard set.
#[derive(Clone, Debug)]
pub struct ShardMetadata {
    pub data_shards: usize,
    pub parity_shards: usize,
    pub shard_len: usize,
    pub original_len: usize,
}

impl ShardMetadata {
    /// Count of data and parity shards together.
    pub fn total_shards(&self) -> (r: usize)
        requires
            self.data_shards + self.parity_shards <= usize::MAX,
        ensures
            r == self.data_shards + self.parity_shards,
    {
        self.data_shards + self.parity_shards
    }
}

/// A complete erasure coded payload (metadata + shards).
#[derive(Clone, Debug)]
pub struct ShardedBlob {
    pub meta: ShardMetadata,
    pub shards: Vec<Vec<u8>>,
}

impl ShardedBlob {
    /// Bundle metadata with its shards.
    pub fn new(meta: ShardMetadata, shards: Vec<Vec<u8>>) -> (r: Self)
        ensures
            r.meta == meta,
            r.shards == shards,
    {
        ShardedBlob { meta, shards }
    }
}

/// The per-shard length a buffer of `len` bytes gets under `k` data shards.
pub open spec fn rs_shard_len(len: nat, k: nat) -> nat
    recommends
        k >= 1,
{
    ((len + k - 1) as int / k as int) as nat
}

/// Split a buffer into Reed–Solomon shards (systematic encoding): the first
/// `data_shards` rows hold the buffer left to right with the last row
/// zero-padded, the remaining rows hold the parity.
pub fn encode(data: &Vec<u8>, data_shards: usize, parity_shards: usize) -> (r: Result<
    ShardedBlob,
    S3pError,
>)
    requires
        data@.len() >= 1,
        data@.len() <= usize::MAX - 256,
    ensures
        r is Ok <==> (1 <= data_shards && 1 <= parity_shards && data_shards + parity_shards
            <= 256),
        r matches Err(e) ==> e matches S3pError::ReedSolomon(rse) && rse == (if data_shards == 0 {
            RsError::TooFewDataShards
        } else if parity_shards == 0 {
            RsError::TooFewParityShards
        } else {
            RsError::TooManyShards
        }),
        r matches Ok(b) ==> {
            let shard_len = rs_shard_len(data@.len(), data_shards as nat);
            &&& b.meta.data_shards == data_shards
            &&& b.meta.parity_shards == parity_shards
            &&& b.meta.shard_len == shard_len
            &&& b.meta.original_len == data@.len()
            &&& b.shards@.len() == data_shards + parity_shards
            &&& (forall|i: int|
                0 <= i < b.shards@.len() ==> b.shards@[i]@.len() == shard_len)
            &&& (forall|i: int|
                0 <= i < data_shards ==> b.shards@[i]@ == block_of(data@, i, shard_len))
            &&& b.shards.deep_view() == rs_codeword(
                blocks_of(data@, data_shards as nat, shard_len),
                parity_shards as nat,
            )
        },
{
    if data_shards == 0 {
        return Err(S3pError::ReedSolomon(RsError::TooFewDataShards));
    }
    if parity_shards == 0 {
        return Err(S3pError::ReedSolomon(RsError::TooFewParityShards));
    }
    if data_shards > 256 || parity_shards > 256 - data_shards {
        return Err(S3pError::ReedSolomon(RsError::TooManyShards));
    }
    let shard_len: usize = (data.len() + data_shards - 1) / data_shards;
    proof {
        assert(shard_len == rs_shard_len(data@.len(), data_shards as nat));
        vstd::arithmetic::div_mod::lemma_fundamental_div_mod(
            (data@.len() + data_shards - 1) as int,
            data_shards as int,
        );
        assert(data_shards * shard_len <= data@.len() + data_shards - 1);
        vstd::arithmetic::div_mod::lemma_div_non_zero(
            (data@.len() + data_shards - 1) as int,
            data_shards as int,
        );
        assert(shard_len >= 1);
    }
    let total = data_shards + parity_shards;
    let mut shards: Vec<Vec<u8>> = Vec::new();
    let mut i: usize = 0;
    while i < data_shards
        invariant
            i <= data_shards,
            1 <= data_shards,
            data_shards + parity_shards <= 256,
            shard_len == rs_shard_len(data@.len(), data_shards as nat),
            shard_len >= 1,
            data_shards * shard_len <= data@.len() + data_shards - 1,
            data@.len() <= usize::MAX - 256,
            shards@.len() == i,
            forall|t: int| 0 <= t < i ==> shards@[t]@ == block_of(data@, t, shard_len as nat),
        decreases data_shards - i,
    {
        let mut row: Vec<u8> = Vec::new();
        let mut j: usize = 0;
        proof {
            assert(i * shard_len + shard_len <= data_shards * shard_len) by (nonlinear_arith)
                requires
                    i + 1 <= data_shards,
                    shard_len >= 0,
            ;
        }
        while j < shard_len
            invariant
                j <= shard_len,
                i * shard_len + shard_len <= data@.len() + 256,
                data@.len() <= usize::MAX - 256,
                row@.len() == j,
                forall|t: int|
                    0 <= t < j ==> row@[t] == block_of(data@, i as int, shard_len as nat)[t],
            decreases shard_len - j,
        {
            let pos = i * shard_len + j;
            if pos < data.len() {
                row.push(data[pos]);
            } else {
                row.push(0u8);
            }
            j += 1;
        }
        assert(row@ =~= block_of(data@, i as int, shard_len as nat));
        shards.push(row);
        i += 1;
    }
    assert forall|t: int| 0 <= t < data_shards implies shards@[t]@.len() == shard_len by {
        assert(shards@[t]@ == block_of(data@, t, shard_len as nat));
    }
    while i < total
        invariant
            data_shards <= i <= total,
            total == data_shards + parity_shards,
            shard_len >= 1,
            shards@.len() == i,
            forall|t: int|
                0 <= t < data_shards ==> shards@[t]@ == block_of(data@, t, shard_len as nat),
            forall|t: int| 0 <= t < i ==> shards@[t]@.len() == shard_len,
        decreases total - i,
    {
        let row: Vec<u8> = vec![0u8; shard_len];
        shards.push(row);
        i += 1;
    }
    let ghost before = shards.deep_view();
    match rs_encode_raw(&mut shards, data_shards, parity_shards) {
        Ok(()) => {},
        Err(_) => {
            return Err(S3pError::ReedSolomon(RsError::TooManyShards));
        },
    }
    proof {
        assert forall|t: int| 0 <= t < data_shards implies before[t] == block_of(
            data@,
            t,
            shard_len as nat,
        ) by {
            assert(before[t] =~= shards@[t]@);
        }
        assert(before.take(data_shards as int) =~= blocks_of(
            data@,
            data_shards as nat,
            shard_len as nat,
        ));
    }
    let meta = ShardMetadata {
        data_shards,
        parity_shards,
        shard_len,
        original_len: data.len(),
    };
    Ok(ShardedBlob::new(meta, shards))
}

/// Count the present shards.
fn count_present(shards: &Vec<Option<Vec<u8>>>) -> (r: usize)
    ensures
        r == num_present(shards@),
{
    proof {
        lemma_num_present_bounds(shards@);
    }
    let mut count: usize = 0;
    let mut i: usize = 0;
    while i < shards.len()
        invariant
            i <= shards@.len(),
            count == num_present(shards@.take(i as int)),
            count <= i,
        decreases shards@.len() - i,
    {
        proof {
            assert(shards@.take(i as int + 1).drop_last() =~= shards@.take(i as int));
            assert(shards@.take(i as int + 1).last() == shards@[i as int]);
        }
        if shards[i].is_some() {
            count += 1;
        }
        i += 1;
    }
    proof {
        assert(shards@.take(shards@.len() as int) =~= shards@);
    }
    count
}

/// Attempt to reconstruct the original data from the provided shard set.
///
/// Missing shards are `None`; the list must hold one slot per shard of the
/// code. Succeeds whenever at least `data_shards` shards of the committed
/// length survive, and then returns the first `original_len` bytes of the
/// data area. If the surviving shards agree with the codeword of some
/// buffer's blocks, the result is that buffer.
pub fn reconstruct(meta: &ShardMetadata, shards: Vec<Option<Vec<u8>>>) -> (r: Result<
    Vec<u8>,
    S3pError,
>)
    requires
        meta.original_len <= meta.data_shards * meta.shard_len,
    ensures
        r is Ok <==> {
            &&& shards@.len() == meta.data_shards + meta.parity_shards
            &&& 1 <= meta.data_shards
            &&& 1 <= meta.parity_shards
            &&& meta.data_shards + meta.parity_shards <= 256
            &&& meta.shard_len >= 1
            &&& (forall|i: int|
                0 <= i < shards@.len() && shards@[i] is Some ==> opt_view(shards@[i]).len()
                    == meta.shard_len)
            &&& num_present(shards@) >= meta.data_shards
        },
        r matches Ok(out) ==> out@.len() == meta.original_len,
        r matches Ok(out) ==> forall|orig: Seq<u8>|
            (orig.len() == meta.original_len && (forall|i: int|
                0 <= i < shards@.len() && shards@[i] is Some ==> opt_view(shards@[i]) == rs_codeword(
                    blocks_of(orig, meta.data_shards as nat, meta.shard_len as nat),
                    meta.parity_shards as nat,
                )[i])) ==> out@ == orig,
{
    let k = meta.data_shards;
    let m = meta.parity_shards;
    let n = shards.len();
    let total_opt = k.checked_add(m);
    let total: usize = match total_opt {
        Some(t) => t,
        None => {
            assert(n <= usize::MAX < meta.data_shards + meta.parity_shards);
            return Err(S3pError::ReedSolomon(RsError::TooFewShards));
        },
    };
    if n != total {
        return Err(S3pError::ReedSolomon(RsError::TooFewShards));
    }
    if k == 0 {
        return Err(S3pError::ReedSolomon(RsError::TooFewDataShards));
    }
    if m == 0 {
        return Err(S3pError::ReedSolomon(RsError::TooFewParityShards));
    }
    if total > 256 {
        return Err(S3pError::ReedSolomon(RsError::TooManyShards));
    }
    if meta.shard_len == 0 {
        return Err(S3pError::ReedSolomon(RsError::EmptyShard));
    }
    // Every present shard must hold exactly the committed length.
    let mut i: usize = 0;
    while i < shards.len()
        invariant
            i <= shards@.len(),
            forall|t: int|
                0 <= t < i && shards@[t] is Some ==> opt_view(shards@[t]).len() == meta.shard_len,
        decreases shards@.len() - i,
    {
        match &shards[i] {
            Some(v) => {
                if v.len() != meta.shard_len {
                    return Err(S3pError::ReedSolomon(RsError::IncorrectShardSize));
                }
            },
            None => {},
        }
        i += 1;
    }
    if count_present(&shards) < k {
        return Err(S3pError::ReedSolomon(RsError::TooFewShardsPresent));
    }
    let mut work = shards;
    let ghost original = work@;
    match rs_reconstruct_raw(&mut work, k, m, meta.shard_len) {
        Ok(()) => {},
        Err(_) => {
            return Err(S3pError::ReedSolomon(RsError::TooFewShardsPresent));
        },
    }
    // Concatenate the data area and cut the padding off.
    let mut out: Vec<u8> = Vec::new();
    let mut i: usize = 0;
    while i < k
        invariant
            i <= k,
            k <= work@.len(),
            forall|t: int| 0 <= t < work@.len() ==> work@[t] is Some,
            forall|t: int| 0 <= t < work@.len() ==> opt_view(work@[t]).len() == meta.shard_len,
            out@ == concat_all(opt_views(work@).take(k as int).take(i as int)),
            out@.len() == i * meta.shard_len,
        decreases k - i,
    {
        let ghost prefix = opt_views(work@).take(k as int).take(i as int);
        match &work[i] {
            Some(v) => {
                let mut j: usize = 0;
                while j < v.len()
                    invariant
                        j <= v@.len(),
                        out@ == concat_all(prefix) + v@.take(j as int),
                        out@.len() == concat_all(prefix).len() + j,
                    decreases v@.len() - j,
                {
                    out.push(v[j]);
                    assert(out@ =~= concat_all(prefix) + v@.take(j as int + 1));
                    j += 1;
                }
                proof {
                    assert(v@.take(v@.len() as int) =~= v@);
                    let next = opt_views(work@).take(k as int).take(i as int + 1);
                    lemma_concat_snoc(prefix, v@);
                    assert(prefix.push(v@) =~= next);
                }
            },
            None => {
                proof {
                    assert(work@[i as int] is Some);
                    assert(false);
                }
            },
        }
        proof {
            assert((i + 1) * meta.shard_len == i * meta.shard_len + meta.shard_len)
                by (nonlinear_arith);
        }
        i += 1;
    }
    proof {
        assert(opt_views(work@).take(k as int).take(k as int) =~= opt_views(work@).take(k as int));
    }
    out.truncate(meta.original_len);
    proof {
        assert(out@.len() == meta.original_len);
    }
    let result = out;
    proof {
        assert forall|orig: Seq<u8>|
            (orig.len() == meta.original_len && (forall|t: int|
                0 <= t < original.len() && original[t] is Some ==> opt_view(original[t])
                    == rs_codeword(
                    blocks_of(orig, k as nat, meta.shard_len as nat),
                    m as nat,
                )[t])) implies result@ == orig by {
            let blocks = blocks_of(orig, k as nat, meta.shard_len as nat);
            assert(blocks.len() == k);
            assert(opt_views(work@) == rs_codeword(blocks, m as nat) && opt_views(work@).take(
                k as int,
            ) == blocks);
            lemma_blocks_round_trip(orig, k as nat, meta.shard_len as nat);
        }
    }
    Ok(result)
}

/// Appending one block to a list extends the concatenation by that block.
pub proof fn lemma_concat_snoc(blocks: Seq<Seq<u8>>, tail: Seq<u8>)
    ensures
        concat_all(blocks.push(tail)) == concat_all(blocks) + tail,
    decreases blocks.len(),
{
    if blocks.len() == 0 {
        let p = blocks.push(tail);
        assert(p.len() == 1);
        assert(p[0] == tail);
        assert(p.drop_first() =~= Seq::<Seq<u8>>::empty());
        assert(concat_all(p.drop_first()) =~= Seq::<u8>::empty());
        assert(concat_all(p) == p[0] + concat_all(p.drop_first()));
        assert(p[0] + concat_all(p.drop_first()) =~= tail);
        assert(concat_all(blocks) =~= Seq::<u8>::empty());
        assert(concat_all(blocks) + tail =~= tail);
    } else {
        assert(blocks.push(tail)[0] == blocks[0]);
        assert(blocks.push(tail).drop_first() =~= blocks.drop_first().push(tail));
        lemma_concat_snoc(blocks.drop_first(), tail);
        assert(concat_all(blocks.push(tail)) == blocks[0] + (concat_all(blocks.drop_first())
            + tail));
        assert(blocks[0] + (concat_all(blocks.drop_first()) + tail) =~= (blocks[0] + concat_all(
            blocks.drop_first(),
        )) + tail);
    }
}

} // verus!
