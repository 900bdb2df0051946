//! Merkle commitments over shards and ledger entries.
//!
//! A level is reduced pairwise: a parent is the hash of `"node"` followed by
//! the left and right child, and an odd right child is duplicated from the
//! left. The series profiles hash with SHA-256; the convenience tree hashes
//! with Blake3. An empty ledger set yields a fixed sentinel.

use vstd::prelude::*;

use crate::errors::S3pError;
use crate::hashes::{blake3_hash, blake3_of, sha256, sha256_of};
use crate::hexcode::{hex_encode, hex_of};

verus! {

/// The ASCII bytes of the `"node"` domain prefix.
pub open spec fn node_tag() -> Seq<u8> {
    seq![110u8, 111u8, 100u8, 101u8]
}

/// The ASCII bytes of `"nos-ledger-empty"`, the empty-set sentinel preimage.
pub open spec fn ledger_empty_tag() -> Seq<u8> {
    seq![
        110u8,
        111u8,
        115u8,
        45u8,
        108u8,
        101u8,
        100u8,
        103u8,
        101u8,
        114u8,
        45u8,
        101u8,
        109u8,
        112u8,
        116u8,
        121u8,
    ]
}

/// The 256-bit hash a tree level is reduced with: Blake3 or SHA-256.
pub open spec fn level_hash(use_blake: bool, data: Seq<u8>) -> Seq<u8> {
    if use_blake {
        blake3_of(data)
    } else {
        sha256_of(data)
    }
}

/// The parent of two children: hash of `"node"`, left, right.
pub open spec fn merkle_node(use_blake: bool, l: Seq<u8>, r: Seq<u8>) -> Seq<u8> {
    level_hash(use_blake, node_tag() + l + r)
}

/// One pairwise reduction of a level; an odd right child is duplicated from
/// the left.
pub open spec fn merkle_pair_up(use_blake: bool, level: Seq<Seq<u8>>) -> Seq<Seq<u8>> {
    Seq::new(
        ((level.len() + 1) / 2) as nat,
        |i: int|
            merkle_node(
                use_blake,
                level[2 * i],
                if 2 * i + 1 < level.len() {
                    level[2 * i + 1]
                } else {
                    level[2 * i]
                },
            ),
    )
}

/// The Merkle root of a non-empty level.
pub open spec fn merkle_root_spec(use_blake: bool, level: Seq<Seq<u8>>) -> Seq<u8>
    recommends
        level.len() >= 1,
    decreases level.len(),
{
    if level.len() <= 1 {
        if level.len() == 1 {
            level[0]
        } else {
            Seq::empty()
        }
    } else {
        merkle_root_spec(use_blake, merkle_pair_up(use_blake, level))
    }
}

/// The ledger Merkle root: the sentinel hash for an empty set, the pairwise
/// SHA-256 reduction otherwise.
pub open spec fn ledger_merkle_root(leaves: Seq<Seq<u8>>) -> Seq<u8> {
    if leaves.len() == 0 {
        sha256_of(ledger_empty_tag())
    } else {
        merkle_root_spec(false, leaves)
    }
}

/// Hash one parent node from its children.
fn hash_node(use_blake: bool, l: &Vec<u8>, r: &Vec<u8>) -> (out: Vec<u8>)
    ensures
        out@ == merkle_node(use_blake, l@, r@),
        out@.len() == 32,
{
    let mut buf: Vec<u8> = Vec::new();
    buf.push(110u8);
    buf.push(111u8);
    buf.push(100u8);
    buf.push(101u8);
    assert(buf@ =~= node_tag());
    buf.extend_from_slice(l.as_slice());
    buf.extend_from_slice(r.as_slice());
    assert(buf@ =~= node_tag() + l@ + r@);
    if use_blake {
        blake3_hash(&buf)
    } else {
        sha256(&buf)
    }
}

/// Reduce one level pairwise.
fn level_up(use_blake: bool, level: &Vec<Vec<u8>>) -> (next: Vec<Vec<u8>>)
    requires
        level@.len() >= 2,
    ensures
        next.deep_view() == merkle_pair_up(use_blake, level.deep_view()),
        next@.len() == (level@.len() + 1) / 2,
{
    let ghost lview = level.deep_view();
    let mut next: Vec<Vec<u8>> = Vec::new();
    let mut i: usize = 0;
    proof {
        assert(lview.len() == level@.len());
    }
    while i + 1 < level.len()
        invariant
            i <= level@.len(),
            i % 2 == 0,
            lview == level.deep_view(),
            lview.len() == level@.len(),
            next@.len() == i / 2,
            forall|t: int|
                0 <= t < i / 2 ==> (#[trigger] next@[t]@) == merkle_pair_up(use_blake, lview)[t],
        decreases level@.len() - i,
    {
        let parent = hash_node(use_blake, &level[i], &level[i + 1]);
        proof {
            assert(lview[i as int] =~= level@[i as int]@);
            assert(lview[i as int + 1] =~= level@[i as int + 1]@);
        }
        next.push(parent);
        proof {
            let t = i as int / 2;
            assert(2 * t == i as int);
            assert(next@[t]@ == merkle_pair_up(use_blake, lview)[t]);
        }
        i += 2;
    }
    if i < level.len() {
        let parent = hash_node(use_blake, &level[i], &level[i]);
        proof {
            assert(lview[i as int] =~= level@[i as int]@);
        }
        next.push(parent);
        proof {
            let t = i as int / 2;
            assert(2 * t == i as int);
            assert(2 * t + 1 >= lview.len());
            assert(next@[t]@ == merkle_pair_up(use_blake, lview)[t]);
        }
    }
    proof {
        assert(next@.len() == (lview.len() + 1) / 2);
        assert forall|t: int| 0 <= t < next@.len() implies (#[trigger] next.deep_view()[t])
            == merkle_pair_up(use_blake, lview)[t] by {
            assert(next.deep_view()[t] =~= next@[t]@);
        }
        assert(next.deep_view() =~= merkle_pair_up(use_blake, lview));
    }
    next
}

/// The Merkle root of a non-empty leaf level under the chosen hash.
fn merkle_root_exec(use_blake: bool, leaves: Vec<Vec<u8>>) -> (out: Vec<u8>)
    requires
        leaves@.len() >= 1,
    ensures
        out@ == merkle_root_spec(use_blake, leaves.deep_view()),
{
    let ghost orig = leaves.deep_view();
    let mut level = leaves;
    while level.len() > 1
        invariant
            level@.len() >= 1,
            level.deep_view().len() == level@.len(),
            merkle_root_spec(use_blake, level.deep_view()) == merkle_root_spec(use_blake, orig),
        decreases level@.len(),
    {
        let next = level_up(use_blake, &level);
        proof {
            assert(level.deep_view().len() > 1);
            assert(merkle_root_spec(use_blake, level.deep_view()) == merkle_root_spec(
                use_blake,
                merkle_pair_up(use_blake, level.deep_view()),
            ));
        }
        level = next;
    }
    proof {
        assert(level.deep_view().len() == 1);
        assert(merkle_root_spec(use_blake, level.deep_view()) == level.deep_view()[0]);
        assert(level.deep_view()[0] =~= level@[0]@);
    }
    let mut level = level;
    match level.pop() {
        Some(row) => row,
        None => {
            proof {
                assert(false);
            }
            Vec::new()
        },
    }
}

/// The leaf hash of the series profiles: SHA-256 of the shard bytes.
pub fn leaf_hash(shard: &Vec<u8>) -> (r: Vec<u8>)
    ensures
        r@ == sha256_of(shard@),
        r@.len() == 32,
{
    sha256(shard)
}

/// The SHA-256 Merkle root over a non-empty list of leaf hashes; an empty
/// list is rejected.
pub fn merkle_root(leaves: Vec<Vec<u8>>) -> (r: Result<Vec<u8>, S3pError>)
    ensures
        r is Ok <==> leaves@.len() >= 1,
        r matches Ok(v) ==> v@ == merkle_root_spec(false, leaves.deep_view()),
        r matches Err(e) ==> e is Merkle,
{
    if leaves.len() == 0 {
        return Err(S3pError::Merkle("empty leaf set"));
    }
    Ok(merkle_root_exec(false, leaves))
}

/// The ledger Merkle root, with the fixed sentinel for an empty set.
pub fn build_merkle(leaves: Vec<Vec<u8>>) -> (r: Vec<u8>)
    ensures
        r@ == ledger_merkle_root(leaves.deep_view()),
{
    if leaves.len() == 0 {
        let mut tag: Vec<u8> = Vec::new();
        tag.push(110u8);
        tag.push(111u8);
        tag.push(115u8);
        tag.push(45u8);
        tag.push(108u8);
        tag.push(101u8);
        tag.push(100u8);
        tag.push(103u8);
        tag.push(101u8);
        tag.push(114u8);
        tag.push(45u8);
        tag.push(101u8);
        tag.push(109u8);
        tag.push(112u8);
        tag.push(116u8);
        tag.push(121u8);
        assert(tag@ =~= ledger_empty_tag());
        assert(leaves.deep_view().len() == 0);
        return sha256(&tag);
    }
    proof {
        assert(leaves.deep_view().len() == leaves@.len());
    }
    merkle_root_exec(false, leaves)
}

/// Authentication path of one leaf: the sibling hash at each level, leaf
/// level first, with the leaf's position.
pub struct MerklePathEntry {
    pub leaf_index: usize,
    pub leaf: Vec<u8>,
    pub siblings: Vec<Vec<u8>>,
}

/// What an authentication path folds to: the hash climbing from `leaf` at
/// `pos` past each sibling in turn.
pub open spec fn path_fold(use_blake: bool, leaf: Seq<u8>, pos: int, siblings: Seq<Seq<u8>>) -> Seq<
    u8,
>
    decreases siblings.len(),
{
    if siblings.len() == 0 {
        leaf
    } else {
        let parent = if pos % 2 == 0 {
            merkle_node(use_blake, leaf, siblings[0])
        } else {
            merkle_node(use_blake, siblings[0], leaf)
        };
        path_fold(use_blake, parent, pos / 2, siblings.drop_first())
    }
}

/// The tree position reached after climbing `t` levels from position `p`.
pub open spec fn pos_after(p: int, t: nat) -> int
    decreases t,
{
    if t == 0 {
        p
    } else {
        pos_after(p / 2, (t - 1) as nat)
    }
}

/// Climbing one more level halves the reached position.
proof fn lemma_pos_after_step(p: int, t: nat)
    ensures
        pos_after(p, t + 1) == pos_after(p, t) / 2,
    decreases t,
{
    if t == 0 {
        assert(pos_after(p, 1) == pos_after(p / 2, 0));
    } else {
        lemma_pos_after_step(p / 2, (t - 1) as nat);
        assert(pos_after(p, t + 1) == pos_after(p / 2, t));
        assert(pos_after(p, t) == pos_after(p / 2, (t - 1) as nat));
    }
}

/// Appending one sibling to a path applies one more pairing step, at the
/// position the existing path climbs to.
proof fn lemma_path_fold_snoc(
    use_blake: bool,
    l: Seq<u8>,
    p: int,
    sibs: Seq<Seq<u8>>,
    s: Seq<u8>,
)
    ensures
        path_fold(use_blake, l, p, sibs.push(s)) == (if pos_after(p, sibs.len()) % 2 == 0 {
            merkle_node(use_blake, path_fold(use_blake, l, p, sibs), s)
        } else {
            merkle_node(use_blake, s, path_fold(use_blake, l, p, sibs))
        }),
    decreases sibs.len(),
{
    if sibs.len() == 0 {
        assert(sibs.push(s)[0] == s);
        assert(sibs.push(s).drop_first() =~= Seq::<Seq<u8>>::empty());
        assert(path_fold(use_blake, l, p, sibs) == l);
        assert(pos_after(p, 0) == p);
        let parent = if p % 2 == 0 {
            merkle_node(use_blake, l, s)
        } else {
            merkle_node(use_blake, s, l)
        };
        assert(path_fold(use_blake, l, p, sibs.push(s)) == path_fold(
            use_blake,
            parent,
            p / 2,
            sibs.push(s).drop_first(),
        ));
        assert(path_fold(use_blake, parent, p / 2, Seq::<Seq<u8>>::empty()) == parent);
    } else {
        assert(sibs.push(s)[0] == sibs[0]);
        assert(sibs.push(s).drop_first() =~= sibs.drop_first().push(s));
        let parent = if p % 2 == 0 {
            merkle_node(use_blake, l, sibs[0])
        } else {
            merkle_node(use_blake, sibs[0], l)
        };
        assert(path_fold(use_blake, l, p, sibs) == path_fold(
            use_blake,
            parent,
            p / 2,
            sibs.drop_first(),
        ));
        assert(path_fold(use_blake, l, p, sibs.push(s)) == path_fold(
            use_blake,
            parent,
            p / 2,
            sibs.drop_first().push(s),
        ));
        lemma_path_fold_snoc(use_blake, parent, p / 2, sibs.drop_first(), s);
        assert(pos_after(p, sibs.len()) == pos_after(p / 2, (sibs.len() - 1) as nat));
    }
}

/// Blake3 powered hasher tag for the convenience Merkle tree.
#[derive(Debug, Clone, Copy)]
pub struct Blake3;

impl Blake3 {
    /// The Blake3 digest of arbitrary bytes.
    pub fn hash(data: &Vec<u8>) -> (r: Vec<u8>)
        ensures
            r@ == blake3_of(data@),
            r@.len() == 32,
    {
        blake3_hash(data)
    }
}

/// Merkle tree over pre-hashed Blake3 leaves with inclusion proofs.
#[derive(Debug)]
pub struct Blake3MerkleTree {
    leaves: Vec<Vec<u8>>,
    root: Option<Vec<u8>>,
}

/// Serializable inclusion proof: one authentication path per leaf.
pub struct Blake3Proof {
    leaf_indices: Vec<usize>,
    entries: Vec<MerklePathEntry>,
}

impl Blake3MerkleTree {
    /// The leaf hashes the tree was built from.
    pub closed spec fn leaves_view(&self) -> Seq<Seq<u8>> {
        self.leaves.deep_view()
    }

    /// The root paired with the leaves: present exactly for a non-empty
    /// tree, and then the Blake3 pairwise reduction of the leaves.
    pub closed spec fn root_view(&self) -> Option<Seq<u8>> {
        match self.root {
            Some(v) => Some(v@),
            None => None,
        }
    }

    /// The tree's root is the reduction of its leaves.
    pub open spec fn wf(&self) -> bool {
        &&& self.root_view() matches Some(v) ==> self.leaves_view().len() >= 1 && v
            == merkle_root_spec(true, self.leaves_view())
        &&& (self.root_view() is None <==> self.leaves_view().len() == 0)
    }

    /// Build a tree from pre-hashed leaves.
    pub fn from_leaves(leaves: Vec<Vec<u8>>) -> (r: Self)
        ensures
            r.wf(),
            r.leaves_view() == leaves.deep_view(),
    {
        if leaves.len() == 0 {
            return Blake3MerkleTree { leaves, root: None };
        }
        let mut copy: Vec<Vec<u8>> = Vec::new();
        let mut i: usize = 0;
        while i < leaves.len()
            invariant
                i <= leaves@.len(),
                copy@.len() == i,
                forall|t: int| 0 <= t < i ==> (#[trigger] copy@[t]@) == leaves@[t]@,
            decreases leaves@.len() - i,
        {
            copy.push(crate::crypto::clone_bytes(&leaves[i]));
            i += 1;
        }
        proof {
            assert forall|t: int| 0 <= t < copy@.len() implies (#[trigger] copy.deep_view()[t])
                == leaves.deep_view()[t] by {
                assert(copy.deep_view()[t] =~= copy@[t]@);
                assert(leaves.deep_view()[t] =~= leaves@[t]@);
            }
            assert(copy.deep_view() =~= leaves.deep_view());
        }
        let root = merkle_root_exec(true, copy);
        Blake3MerkleTree { leaves, root: Some(root) }
    }

    /// Convenience constructor that hashes raw chunks with Blake3 prior to
    /// building the tree.
    pub fn from_chunks(chunks: &Vec<Vec<u8>>) -> (r: Self)
        ensures
            r.wf(),
            r.leaves_view().len() == chunks@.len(),
            forall|i: int|
                0 <= i < chunks@.len() ==> r.leaves_view()[i] == blake3_of(chunks@[i]@),
    {
        let mut leaves: Vec<Vec<u8>> = Vec::new();
        let mut i: usize = 0;
        while i < chunks.len()
            invariant
                i <= chunks@.len(),
                leaves@.len() == i,
                forall|t: int| 0 <= t < i ==> (#[trigger] leaves@[t]@) == blake3_of(chunks@[t]@),
            decreases chunks@.len() - i,
        {
            leaves.push(blake3_hash(&chunks[i]));
            i += 1;
        }
        proof {
            assert forall|t: int| 0 <= t < leaves@.len() implies (#[trigger] leaves.deep_view()[t])
                == blake3_of(chunks@[t]@) by {
                assert(leaves.deep_view()[t] =~= leaves@[t]@);
            }
        }
        Self::from_leaves(leaves)
    }

    /// Return the Merkle root (if any leaves were provided).
    pub fn root(&self) -> (r: Option<Vec<u8>>)
        ensures
            match r {
                Some(v) => self.root_view() matches Some(rv) && v@ == rv,
                None => self.root_view() is None,
            },
    {
        match &self.root {
            Some(v) => Some(crate::crypto::clone_bytes(v)),
            None => None,
        }
    }

    /// Render the root as a hex encoded string.
    pub fn root_hex(&self) -> (r: Option<String>)
        ensures
            match r {
                Some(s) => self.root_view() matches Some(rv) && s@ == hex_of(rv),
                None => self.root_view() is None,
            },
    {
        match &self.root {
            Some(v) => Some(hex_encode(v)),
            None => None,
        }
    }

    /// Number of leaves.
    pub fn leaf_count(&self) -> (r: usize)
        ensures
            r == self.leaves_view().len(),
    {
        self.leaves.len()
    }

    /// Create an inclusion proof for the specified leaf indices: one
    /// authentication path per index, each folding back to the root of
    /// this tree's leaves. Rejects an index past the leaves.
    pub fn inclusion_proof(&self, indices: &Vec<usize>) -> (r: Result<Blake3Proof, S3pError>)
        ensures
            r is Ok <==> ((forall|i: int|
                0 <= i < indices@.len() ==> indices@[i] < self.leaves_view().len())
                && self.leaves_view().len() >= 1),
            r matches Ok(p) ==> p.indices_view() == indices@ && p.entry_count() == indices@.len()
                && p.folds_to(merkle_root_spec(true, self.leaves_view())),
            r matches Err(e) ==> e is Merkle,
    {
        let mut i: usize = 0;
        while i < indices.len()
            invariant
                i <= indices@.len(),
                forall|t: int| 0 <= t < i ==> indices@[t] < self.leaves_view().len(),
            decreases indices@.len() - i,
        {
            if indices[i] >= self.leaves.len() {
                return Err(S3pError::Merkle("leaf index out of range"));
            }
            i += 1;
        }
        if self.leaves.len() == 0 {
            return Err(S3pError::Merkle("empty tree has no proofs"));
        }
        let mut entries: Vec<MerklePathEntry> = Vec::new();
        let mut i: usize = 0;
        while i < indices.len()
            invariant
                i <= indices@.len(),
                entries@.len() == i,
                self.leaves_view().len() >= 1,
                forall|t: int| 0 <= t < indices@.len() ==> indices@[t] < self.leaves_view().len(),
                forall|t: int|
                    0 <= t < i ==> (#[trigger] entries@[t].leaf_index) == indices@[t] && path_fold(
                        true,
                        entries@[t].leaf@,
                        entries@[t].leaf_index as int,
                        entries@[t].siblings.deep_view(),
                    ) == merkle_root_spec(true, self.leaves_view()),
            decreases indices@.len() - i,
        {
            let idx = indices[i];
            let entry = self.path_for(idx);
            entries.push(entry);
            i += 1;
        }
        let mut leaf_indices: Vec<usize> = Vec::new();
        let mut i: usize = 0;
        while i < indices.len()
            invariant
                i <= indices@.len(),
                leaf_indices@ == indices@.take(i as int),
            decreases indices@.len() - i,
        {
            leaf_indices.push(indices[i]);
            assert(leaf_indices@ =~= indices@.take(i as int + 1));
            i += 1;
        }
        assert(leaf_indices@ =~= indices@);
        let result = Blake3Proof { leaf_indices, entries };
        proof {
            assert(result.folds_to(merkle_root_spec(true, self.leaves_view())));
        }
        Ok(result)
    }

    /// Collect the authentication path of one leaf: it folds from the leaf
    /// back to the tree's root.
    fn path_for(&self, idx: usize) -> (r: MerklePathEntry)
        requires
            idx < self.leaves_view().len(),
        ensures
            r.leaf_index == idx,
            r.leaf@ == self.leaves_view()[idx as int],
            path_fold(true, r.leaf@, idx as int, r.siblings.deep_view()) == merkle_root_spec(
                true,
                self.leaves_view(),
            ),
    {
        let mut level: Vec<Vec<u8>> = Vec::new();
        let mut t: usize = 0;
        while t < self.leaves.len()
            invariant
                t <= self.leaves@.len(),
                level@.len() == t,
                forall|u: int| 0 <= u < t ==> (#[trigger] level@[u]@) == self.leaves@[u]@,
            decreases self.leaves@.len() - t,
        {
            level.push(crate::crypto::clone_bytes(&self.leaves[t]));
            t += 1;
        }
        proof {
            assert forall|u: int| 0 <= u < level@.len() implies (#[trigger] level.deep_view()[u])
                == self.leaves_view()[u] by {
                assert(level.deep_view()[u] =~= level@[u]@);
                assert(self.leaves_view()[u] =~= self.leaves@[u]@);
            }
            assert(level.deep_view() =~= self.leaves_view());
        }
        let mut siblings: Vec<Vec<u8>> = Vec::new();
        let mut pos: usize = idx;
        let leaf = crate::crypto::clone_bytes(&self.leaves[idx]);
        proof {
            assert(siblings.deep_view() =~= Seq::<Seq<u8>>::empty());
        }
        while level.len() > 1
            invariant
                pos < level@.len(),
                level@.len() >= 1,
                level.deep_view().len() == level@.len(),
                leaf@ == self.leaves_view()[idx as int],
                pos == pos_after(idx as int, siblings.deep_view().len()),
                path_fold(true, leaf@, idx as int, siblings.deep_view())
                    == level.deep_view()[pos as int],
                merkle_root_spec(true, level.deep_view()) == merkle_root_spec(
                    true,
                    self.leaves_view(),
                ),
            decreases level@.len(),
        {
            let ghost sibs0 = siblings.deep_view();
            let sib_idx = if pos % 2 == 0 {
                if pos + 1 < level.len() {
                    pos + 1
                } else {
                    pos
                }
            } else {
                pos - 1
            };
            siblings.push(crate::crypto::clone_bytes(&level[sib_idx]));
            proof {
                assert forall|u: int| 0 <= u < siblings.deep_view().len() implies (
                #[trigger] siblings.deep_view()[u]) == sibs0.push(
                    level.deep_view()[sib_idx as int],
                )[u] by {
                    assert(siblings.deep_view()[u] =~= siblings@[u]@);
                    if u < sibs0.len() {
                        assert(sibs0[u] =~= siblings@[u]@);
                    } else {
                        assert(siblings@[u]@ =~= level@[sib_idx as int]@);
                        assert(level.deep_view()[sib_idx as int] =~= level@[sib_idx as int]@);
                    }
                }
                assert(siblings.deep_view() =~= sibs0.push(level.deep_view()[sib_idx as int]));
                lemma_path_fold_snoc(
                    true,
                    leaf@,
                    idx as int,
                    sibs0,
                    level.deep_view()[sib_idx as int],
                );
                lemma_pos_after_step(idx as int, sibs0.len());
                let lv = level.deep_view();
                let parent_i = pos as int / 2;
                assert(merkle_pair_up(true, lv)[parent_i] == merkle_node(
                    true,
                    lv[2 * parent_i],
                    if 2 * parent_i + 1 < lv.len() {
                        lv[2 * parent_i + 1]
                    } else {
                        lv[2 * parent_i]
                    },
                ));
                if pos % 2 == 0 {
                    assert(2 * parent_i == pos);
                } else {
                    assert(2 * parent_i == pos - 1);
                    assert(2 * parent_i + 1 == pos);
                }
                assert(path_fold(true, leaf@, idx as int, siblings.deep_view())
                    == merkle_pair_up(true, lv)[parent_i]);
                assert(merkle_root_spec(true, lv) == merkle_root_spec(
                    true,
                    merkle_pair_up(true, lv),
                ));
            }
            let next = level_up(true, &level);
            proof {
                assert(next@.len() == (level@.len() + 1) / 2);
            }
            level = next;
            pos = pos / 2;
        }
        proof {
            assert(level.deep_view().len() == 1);
            assert(pos == 0);
            assert(merkle_root_spec(true, level.deep_view()) == level.deep_view()[0]);
        }
        MerklePathEntry { leaf_index: idx, leaf, siblings }
    }

    /// Verify the provided proof against this tree's root.
    pub fn verify(&self, proof: &Blake3Proof) -> (r: bool)
        ensures
            r == (self.root_view() matches Some(rv) && proof.folds_to(rv)),
    {
        match &self.root {
            Some(root) => proof.verify(root),
            None => false,
        }
    }
}

impl Blake3Proof {
    /// The leaf indices the proof covers.
    pub closed spec fn indices_view(&self) -> Seq<usize> {
        self.leaf_indices@
    }

    /// How many paths the proof holds.
    pub closed spec fn entry_count(&self) -> int {
        self.entries@.len() as int
    }

    /// Every path folds to `root` from its own leaf and position.
    pub closed spec fn folds_to(&self, root: Seq<u8>) -> bool {
        &&& self.entries@.len() == self.leaf_indices@.len()
        &&& forall|i: int|
            0 <= i < self.entries@.len() ==> (#[trigger] self.entries@[i]).leaf_index
                == self.leaf_indices@[i] && path_fold(
                true,
                self.entries@[i].leaf@,
                self.entries@[i].leaf_index as int,
                self.entries@[i].siblings.deep_view(),
            ) == root
    }

    /// Expose the raw leaf indices covered by the proof.
    pub fn leaf_indices(&self) -> (r: &Vec<usize>)
        ensures
            r@ == self.indices_view(),
    {
        &self.leaf_indices
    }

    /// Recompute every path and compare with `root`.
    pub fn verify(&self, root: &Vec<u8>) -> (r: bool)
        ensures
            r == self.folds_to(root@),
    {
        if self.entries.len() != self.leaf_indices.len() {
            return false;
        }
        let mut i: usize = 0;
        while i < self.entries.len()
            invariant
                i <= self.entries@.len(),
                self.entries@.len() == self.leaf_indices@.len(),
                forall|t: int|
                    0 <= t < i ==> (#[trigger] self.entries@[t]).leaf_index == self.leaf_indices@[t]
                        && path_fold(
                        true,
                        self.entries@[t].leaf@,
                        self.entries@[t].leaf_index as int,
                        self.entries@[t].siblings.deep_view(),
                    ) == root@,
            decreases self.entries@.len() - i,
    {
            let entry = &self.entries[i];
            if entry.leaf_index != self.leaf_indices[i] {
                return false;
            }
            let folded = fold_path(&entry.leaf, entry.leaf_index, &entry.siblings);
            if !crate::bytes::bytes_eq(&folded, root) {
                return false;
            }
            i += 1;
        }
        true
    }
}

/// Recompute what a path folds to.
fn fold_path(leaf: &Vec<u8>, pos: usize, siblings: &Vec<Vec<u8>>) -> (r: Vec<u8>)
    ensures
        r@ == path_fold(true, leaf@, pos as int, siblings.deep_view()),
{
    let mut cur = crate::crypto::clone_bytes(leaf);
    let mut p: usize = pos;
    let mut i: usize = 0;
    proof {
        assert(siblings.deep_view().skip(0) =~= siblings.deep_view());
    }
    while i < siblings.len()
        invariant
            i <= siblings@.len(),
            path_fold(true, cur@, p as int, siblings.deep_view().skip(i as int)) == path_fold(
                true,
                leaf@,
                pos as int,
                siblings.deep_view(),
            ),
        decreases siblings@.len() - i,
    {
        let sib = &siblings[i];
        let next = if p % 2 == 0 {
            hash_node(true, &cur, sib)
        } else {
            hash_node(true, sib, &cur)
        };
        proof {
            let rest = siblings.deep_view().skip(i as int);
            assert(rest.len() == siblings@.len() - i >= 1);
            assert(rest[0] =~= siblings@[i as int]@);
            assert(rest.drop_first() =~= siblings.deep_view().skip(i as int + 1));
        }
        cur = next;
        p = p / 2;
        i += 1;
    }
    proof {
        assert(siblings.deep_view().skip(siblings@.len() as int) =~= Seq::<Seq<u8>>::empty());
    }
    cur
}

} // verus!
