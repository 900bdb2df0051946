//! Byte-sequence helpers shared by the codec layers: XOR arithmetic,
//! zero padding, little-endian counters and block partitioning.

use vstd::prelude::*;

verus! {

/// The all-zero byte sequence of length `n`.
pub open spec fn zero_bytes(n: nat) -> Seq<u8> {
    Seq::new(n, |i: int| 0u8)
}

/// Elementwise XOR of two equally long byte sequences.
pub open spec fn xor_bytes(a: Seq<u8>, b: Seq<u8>) -> Seq<u8> {
    Seq::new(a.len(), |i: int| (a[i] ^ b[i]) as u8)
}

/// True when every byte of `s` is zero.
pub open spec fn all_zero(s: Seq<u8>) -> bool {
    forall|i: int| 0 <= i < s.len() ==> s[i] == 0u8
}

/// Byte `j` of the little-endian encoding of `x`.
pub open spec fn u64_le_byte(x: u64, j: int) -> u8 {
    (x >> (8 * j as u64)) as u8
}

/// The eight-byte little-endian encoding of `x`.
pub open spec fn u64_le_bytes(x: u64) -> Seq<u8> {
    Seq::new(8, |j: int| u64_le_byte(x, j))
}

/// Byte `j` of the little-endian encoding of a 32-bit `x`.
pub open spec fn u32_le_byte(x: u32, j: int) -> u8 {
    (x >> (8 * j as u32)) as u8
}

/// The four-byte little-endian encoding of a 32-bit `x`.
pub open spec fn u32_le_bytes(x: u32) -> Seq<u8> {
    Seq::new(4, |j: int| u32_le_byte(x, j))
}

/// Block `i` of `data` when cut into blocks of `len` bytes,
/// zero-padded past the end of `data`.
pub open spec fn block_of(data: Seq<u8>, i: int, len: nat) -> Seq<u8> {
    Seq::new(len, |j: int| if i * len + j < data.len() { data[i * len + j] } else { 0u8 })
}

/// `data` cut into `count` blocks of `len` bytes each, the tail zero-padded.
pub open spec fn blocks_of(data: Seq<u8>, count: nat, len: nat) -> Seq<Seq<u8>> {
    Seq::new(count, |i: int| block_of(data, i, len))
}

/// Concatenation of a sequence of byte blocks.
pub open spec fn concat_all(blocks: Seq<Seq<u8>>) -> Seq<u8>
    decreases blocks.len(),
{
    if blocks.len() == 0 {
        Seq::empty()
    } else {
        blocks[0] + concat_all(blocks.drop_first())
    }
}

/// XOR is commutative bytewise.
pub proof fn lemma_xor_bytes_comm(a: Seq<u8>, b: Seq<u8>)
    requires
        a.len() == b.len(),
    ensures
        xor_bytes(a, b) == xor_bytes(b, a),
{
    assert forall|i: int| 0 <= i < a.len() implies xor_bytes(a, b)[i] == xor_bytes(b, a)[i] by {
        let x = a[i];
        let y = b[i];
        assert((x ^ y) == (y ^ x)) by (bit_vector);
    }
    assert(xor_bytes(a, b) =~= xor_bytes(b, a));
}

/// XOR is associative bytewise.
pub proof fn lemma_xor_bytes_assoc(a: Seq<u8>, b: Seq<u8>, c: Seq<u8>)
    requires
        a.len() == b.len(),
        b.len() == c.len(),
    ensures
        xor_bytes(xor_bytes(a, b), c) == xor_bytes(a, xor_bytes(b, c)),
{
    assert forall|i: int| 0 <= i < a.len() implies xor_bytes(xor_bytes(a, b), c)[i] == xor_bytes(
        a,
        xor_bytes(b, c),
    )[i] by {
        let x = a[i];
        let y = b[i];
        let z = c[i];
        assert(((x ^ y) ^ z) == (x ^ (y ^ z))) by (bit_vector);
    }
    assert(xor_bytes(xor_bytes(a, b), c) =~= xor_bytes(a, xor_bytes(b, c)));
}

/// The zero sequence is the XOR identity.
pub proof fn lemma_xor_bytes_zero(a: Seq<u8>)
    ensures
        xor_bytes(a, zero_bytes(a.len())) == a,
        xor_bytes(zero_bytes(a.len()), a) == a,
{
    assert forall|i: int| 0 <= i < a.len() implies xor_bytes(a, zero_bytes(a.len()))[i] == a[i] by {
        let x = a[i];
        assert((x ^ 0) == x) by (bit_vector);
    }
    assert(xor_bytes(a, zero_bytes(a.len())) =~= a);
    assert forall|i: int| 0 <= i < a.len() implies xor_bytes(zero_bytes(a.len()), a)[i] == a[i] by {
        let x = a[i];
        assert((0 ^ x) == x) by (bit_vector);
    }
    assert(xor_bytes(zero_bytes(a.len()), a) =~= a);
}

/// XOR is self-inverse.
pub proof fn lemma_xor_bytes_self(a: Seq<u8>)
    ensures
        xor_bytes(a, a) == zero_bytes(a.len()),
{
    assert forall|i: int| 0 <= i < a.len() implies xor_bytes(a, a)[i] == 0u8 by {
        let x = a[i];
        assert((x ^ x) == 0) by (bit_vector);
    }
    assert(xor_bytes(a, a) =~= zero_bytes(a.len()));
}

/// XOR `other` into `target`, stopping at the shorter of the two.
pub fn xor_in_place(target: &mut Vec<u8>, other: &Vec<u8>)
    ensures
        final(target)@.len() == old(target)@.len(),
        forall|i: int|
            0 <= i < final(target)@.len() ==> final(target)@[i] == if i < other@.len() {
                (old(target)@[i] ^ other@[i]) as u8
            } else {
                old(target)@[i]
            },
{
    let n = if target.len() < other.len() {
        target.len()
    } else {
        other.len()
    };
    let mut i: usize = 0;
    while i < n
        invariant
            n <= target@.len(),
            n <= other@.len(),
            i <= n,
            target@.len() == old(target)@.len(),
            forall|j: int| i <= j < target@.len() ==> target@[j] == old(target)@[j],
            forall|j: int| 0 <= j < i ==> target@[j] == (old(target)@[j] ^ other@[j]) as u8,
        decreases n - i,
    {
        let v = target[i] ^ other[i];
        target.set(i, v);
        i += 1;
    }
}

/// Equality of two byte vectors.
pub fn bytes_eq(a: &Vec<u8>, b: &Vec<u8>) -> (r: bool)
    ensures
        r == (a@ == b@),
{
    if a.len() != b.len() {
        assert(a@ != b@);
        return false;
    }
    let mut i: usize = 0;
    while i < a.len()
        invariant
            i <= a@.len(),
            a@.len() == b@.len(),
            forall|j: int| 0 <= j < i ==> a@[j] == b@[j],
        decreases a@.len() - i,
    {
        if a[i] != b[i] {
            return false;
        }
        i += 1;
    }
    assert(a@ =~= b@);
    true
}

/// True when every byte of `v` is zero.
pub fn is_all_zero(v: &Vec<u8>) -> (r: bool)
    ensures
        r == all_zero(v@),
{
    let mut i: usize = 0;
    while i < v.len()
        invariant
            i <= v@.len(),
            forall|j: int| 0 <= j < i ==> v@[j] == 0u8,
        decreases v@.len() - i,
    {
        if v[i] != 0u8 {
            return false;
        }
        i += 1;
    }
    true
}

/// The little-endian bytes of `x` as a vector.
pub fn u64_to_le_vec(x: u64) -> (r: Vec<u8>)
    ensures
        r@ == u64_le_bytes(x),
{
    let mut out: Vec<u8> = Vec::new();
    let mut j: usize = 0;
    while j < 8
        invariant
            j <= 8,
            out@.len() == j,
            forall|t: int| 0 <= t < j ==> out@[t] == u64_le_byte(x, t),
        decreases 8 - j,
    {
        let b: u8 = (x >> ((8 * j) as u64)) as u8;
        assert(b == u64_le_byte(x, j as int));
        out.push(b);
        j += 1;
    }
    assert(out@ =~= u64_le_bytes(x));
    out
}

/// The little-endian bytes of a 32-bit `x` as a vector.
pub fn u32_to_le_vec(x: u32) -> (r: Vec<u8>)
    ensures
        r@ == u32_le_bytes(x),
{
    let mut out: Vec<u8> = Vec::new();
    let mut j: usize = 0;
    while j < 4
        invariant
            j <= 4,
            out@.len() == j,
            forall|t: int| 0 <= t < j ==> out@[t] == u32_le_byte(x, t),
        decreases 4 - j,
    {
        let b: u8 = (x >> ((8 * j) as u32)) as u8;
        assert(b == u32_le_byte(x, j as int));
        out.push(b);
        j += 1;
    }
    assert(out@ =~= u32_le_bytes(x));
    out
}

/// Two distinct counters differ in at least one little-endian byte.
pub proof fn lemma_u64_le_bytes_injective(x: u64, y: u64)
    requires
        u64_le_bytes(x) == u64_le_bytes(y),
    ensures
        x == y,
{
    assert forall|j: int| 0 <= j < 8 implies u64_le_byte(x, j) == u64_le_byte(y, j) by {
        assert(u64_le_bytes(x)[j] == u64_le_byte(x, j));
        assert(u64_le_bytes(y)[j] == u64_le_byte(y, j));
        assert(u64_le_bytes(x)[j] == u64_le_bytes(y)[j]);
    }
    assert(u64_le_byte(x, 0) == u64_le_byte(y, 0));
    assert(u64_le_byte(x, 1) == u64_le_byte(y, 1));
    assert(u64_le_byte(x, 2) == u64_le_byte(y, 2));
    assert(u64_le_byte(x, 3) == u64_le_byte(y, 3));
    assert(u64_le_byte(x, 4) == u64_le_byte(y, 4));
    assert(u64_le_byte(x, 5) == u64_le_byte(y, 5));
    assert(u64_le_byte(x, 6) == u64_le_byte(y, 6));
    assert(u64_le_byte(x, 7) == u64_le_byte(y, 7));
    assert({
        &&& (x >> 0) as u8 == (y >> 0) as u8
        &&& (x >> 8) as u8 == (y >> 8) as u8
        &&& (x >> 16) as u8 == (y >> 16) as u8
        &&& (x >> 24) as u8 == (y >> 24) as u8
        &&& (x >> 32) as u8 == (y >> 32) as u8
        &&& (x >> 40) as u8 == (y >> 40) as u8
        &&& (x >> 48) as u8 == (y >> 48) as u8
        &&& (x >> 56) as u8 == (y >> 56) as u8
    } ==> x == y) by (bit_vector);
}

/// Concatenating the zero-padded blocks of `data` and cutting the padding
/// off again returns `data`.
pub proof fn lemma_blocks_round_trip(data: Seq<u8>, count: nat, len: nat)
    requires
        count * len >= data.len(),
    ensures
        concat_all(blocks_of(data, count, len)).len() == count * len,
        concat_all(blocks_of(data, count, len)).take(data.len() as int) == data,
{
    let blocks = blocks_of(data, count, len);
    lemma_concat_blocks(data, count, len, 0);
    assert(blocks.skip(0) =~= blocks);
    assert(concat_all(blocks).len() == (count - 0) * len);
    assert forall|t: int| 0 <= t < data.len() implies concat_all(blocks)[t] == data[t] by {
        assert(0 * len + t < data.len());
        assert(concat_all(blocks_of(data, count, len).skip(0))[t] == data[0 * len + t]);
    }
    assert(concat_all(blocks).take(data.len() as int) =~= data);
}

/// Generalized helper: concatenating the blocks from `start` on yields the
/// corresponding slice of padded data.
proof fn lemma_concat_blocks(data: Seq<u8>, count: nat, len: nat, start: nat)
    requires
        start <= count,
    ensures
        concat_all(blocks_of(data, count, len).skip(start as int)).len() == (count - start) * len,
        forall|t: int|
            0 <= t < (count - start) * len ==> concat_all(blocks_of(data, count, len).skip(
                start as int,
            ))[t] == if start * len + t < data.len() {
                data[start as int * len + t]
            } else {
                0u8
            },
    decreases count - start,
{
    let blocks = blocks_of(data, count, len);
    if start == count {
        assert(blocks.skip(start as int).len() == 0);
    } else {
        lemma_concat_blocks(data, count, len, start + 1);
        let rest = blocks.skip(start as int);
        assert(rest.len() == count - start);
        assert(rest[0] == block_of(data, start as int, len));
        assert(rest.drop_first() =~= blocks.skip(start as int + 1));
        assert(concat_all(rest) == rest[0] + concat_all(blocks.skip(start as int + 1)));
        assert((count - start) * len == len + (count - start - 1) * len) by (nonlinear_arith);
        assert forall|t: int| 0 <= t < (count - start) * len implies concat_all(rest)[t] == (
        if start * len + t < data.len() {
            data[start as int * len + t]
        } else {
            0u8
        }) by {
            if t < len {
                assert(concat_all(rest)[t] == block_of(data, start as int, len)[t]);
            } else {
                assert(concat_all(rest)[t] == concat_all(blocks.skip(start as int + 1))[t - len]);
                assert((start + 1) * len + (t - len) == start * len + t) by (nonlinear_arith);
            }
        }
    }
}

} // verus!
