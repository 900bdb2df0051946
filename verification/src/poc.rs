//! Signed receipts and committee verification: a receipt core is committed
//! by a SHA-256 digest over its fields and a canonical outcome encoding,
//! and a committee accepts a receipt exactly when enough distinct members
//! have validly signed that digest.

use vstd::prelude::*;

use crate::bytes::u64_le_bytes;
use crate::contracts::{BudgetTransfer, ReferralPayout};
use crate::ed25519::{ed25519_verify, ed_valid};
use crate::errors::VerificationError;
use crate::hashes::{sha256, sha256_of};
use crate::ledger::LedgerMutation;
use crate::strmap::{map_get, map_has, StrMap};

verus! {

/// UTF-8 bytes of a string view.
pub open spec fn utf8(s: Seq<char>) -> Seq<u8> {
    vstd::utf8::encode_utf8(s)
}

/// Length-prefixed string encoding: eight little-endian length bytes, then
/// the UTF-8 bytes.
pub open spec fn enc_str(s: Seq<char>) -> Seq<u8> {
    u64_le_bytes(utf8(s).len() as u64) + utf8(s)
}

/// Optional string encoding: a presence byte, then the string when present.
pub open spec fn enc_opt_str(m: Option<Seq<char>>) -> Seq<u8> {
    match m {
        Some(s) => seq![1u8] + enc_str(s),
        None => seq![0u8],
    }
}

/// The view of an optional string.
pub open spec fn opt_str_view(m: &Option<String>) -> Option<Seq<char>> {
    match m {
        Some(s) => Some(s@),
        None => None,
    }
}

/// Canonical encoding of one budget transfer.
pub open spec fn enc_transfer(t: &BudgetTransfer) -> Seq<u8> {
    enc_str(t.to@) + u64_le_bytes(t.amount) + enc_opt_str(opt_str_view(&t.memo))
}

/// Canonical encoding of one referral payout.
pub open spec fn enc_payout(p: &ReferralPayout) -> Seq<u8> {
    enc_str(p.recipient@) + u64_le_bytes(p.amount) + u64_le_bytes(p.level as u64)
}

/// Canonical encoding of a transfer list.
pub open spec fn enc_transfers(ts: Seq<BudgetTransfer>) -> Seq<u8>
    decreases ts.len(),
{
    if ts.len() == 0 {
        Seq::empty()
    } else {
        enc_transfer(&ts[0]) + enc_transfers(ts.drop_first())
    }
}

/// Canonical encoding of a payout list.
pub open spec fn enc_payouts(ps: Seq<ReferralPayout>) -> Seq<u8>
    decreases ps.len(),
{
    if ps.len() == 0 {
        Seq::empty()
    } else {
        enc_payout(&ps[0]) + enc_payouts(ps.drop_first())
    }
}

/// Canonical encoding of one ledger mutation: a variant tag, then the
/// fields in order.
pub open spec fn enc_mutation(m: &LedgerMutation) -> Seq<u8> {
    match m {
        LedgerMutation::Emit { to, amount, reason } => seq![1u8] + enc_str(to@) + u64_le_bytes(
            *amount,
        ) + enc_str(reason@),
        LedgerMutation::Transfer { from, to, amount, memo } => seq![2u8] + enc_str(from@)
            + enc_str(to@) + u64_le_bytes(*amount) + enc_opt_str(opt_str_view(memo)),
        LedgerMutation::FundBudget { from, budget_id, amount, memo } => seq![3u8] + enc_str(from@)
            + enc_str(budget_id@) + u64_le_bytes(*amount) + enc_opt_str(opt_str_view(memo)),
        LedgerMutation::SpendBudget { budget_id, plan } => seq![4u8] + enc_str(budget_id@)
            + u64_le_bytes(plan.transfers@.len() as u64) + enc_transfers(plan.transfers@),
        LedgerMutation::ApplyReferralPayouts { contract, payouts } => seq![5u8] + enc_str(
            contract@,
        ) + u64_le_bytes(payouts@.len() as u64) + enc_payouts(payouts@),
    }
}

/// Canonical encoding of a mutation list.
pub open spec fn enc_mutations(ms: Seq<LedgerMutation>) -> Seq<u8>
    decreases ms.len(),
{
    if ms.len() == 0 {
        Seq::empty()
    } else {
        enc_mutation(&ms[0]) + enc_mutations(ms.drop_first())
    }
}

/// Concatenated UTF-8 of the notes.
pub open spec fn enc_notes(ns: Seq<String>) -> Seq<u8>
    decreases ns.len(),
{
    if ns.len() == 0 {
        Seq::empty()
    } else {
        utf8(ns[0]@) + enc_notes(ns.drop_first())
    }
}

/// The ASCII bytes of `"accepted"`.
pub open spec fn accepted_tag() -> Seq<u8> {
    seq![97u8, 99u8, 99u8, 101u8, 112u8, 116u8, 101u8, 100u8]
}

/// The ASCII bytes of `"rejected"`.
pub open spec fn rejected_tag() -> Seq<u8> {
    seq![114u8, 101u8, 106u8, 101u8, 99u8, 116u8, 101u8, 100u8]
}

/// What a receipt did: carry accepted mutations and notes, or a rejection.
#[derive(Clone, Debug)]
pub enum ReceiptOutcome {
    Accepted { mutations: Vec<LedgerMutation>, notes: Vec<String> },
    Rejected { reason: String },
}

/// Canonical commitment of an outcome: a tag, then the length-prefixed
/// mutation encodings and the raw notes, or the raw rejection reason.
pub open spec fn spec_commitment(o: &ReceiptOutcome) -> Seq<u8> {
    match o {
        ReceiptOutcome::Accepted { mutations, notes } => accepted_tag() + u64_le_bytes(
            mutations@.len() as u64,
        ) + enc_mutations(mutations@) + enc_notes(notes@),
        ReceiptOutcome::Rejected { reason } => rejected_tag() + utf8(reason@),
    }
}

/// The payload a receipt's digest commits: identifier, roots and outcome.
pub open spec fn spec_digest_input(c: &ReceiptCore) -> Seq<u8> {
    utf8(c.scid@) + c.merkle_root@ + c.ct_hash@ + spec_commitment(&c.outcome)
}

/// The receipt digest: SHA-256 of the committed payload.
pub open spec fn spec_digest(c: &ReceiptCore) -> Seq<u8> {
    sha256_of(spec_digest_input(c))
}

/// The core of a receipt: what was packed, under which roots, and with
/// which outcome.
#[derive(Clone, Debug)]
pub struct ReceiptCore {
    pub scid: String,
    pub merkle_root: Vec<u8>,
    pub ct_hash: Vec<u8>,
    pub outcome: ReceiptOutcome,
}

/// Append the length-prefixed UTF-8 of a string.
fn push_enc_str(buf: &mut Vec<u8>, s: &String)
    ensures
        final(buf)@ == old(buf)@ + enc_str(s@),
{
    let bytes = s.as_str().as_bytes();
    let mut len_bytes = crate::bytes::u64_to_le_vec(bytes.len() as u64);
    buf.append(&mut len_bytes);
    buf.extend_from_slice(bytes);
    proof {
        assert(buf@ =~= old(buf)@ + enc_str(s@));
    }
}

/// Append the presence byte and, when present, the string encoding.
fn push_enc_opt_str(buf: &mut Vec<u8>, m: &Option<String>)
    ensures
        final(buf)@ == old(buf)@ + enc_opt_str(opt_str_view(m)),
{
    match m {
        Some(s) => {
            buf.push(1u8);
            push_enc_str(buf, s);
            proof {
                assert(buf@ =~= old(buf)@ + enc_opt_str(opt_str_view(m)));
            }
        },
        None => {
            buf.push(0u8);
            proof {
                assert(buf@ =~= old(buf)@ + enc_opt_str(opt_str_view(m)));
            }
        },
    }
}

/// Append eight little-endian bytes of a number.
fn push_u64(buf: &mut Vec<u8>, x: u64)
    ensures
        final(buf)@ == old(buf)@ + u64_le_bytes(x),
{
    let mut le = crate::bytes::u64_to_le_vec(x);
    buf.append(&mut le);
}

/// Append the canonical encoding of one mutation.
fn push_enc_mutation(buf: &mut Vec<u8>, m: &LedgerMutation)
    ensures
        final(buf)@ == old(buf)@ + enc_mutation(m),
{
    match m {
        LedgerMutation::Emit { to, amount, reason } => {
            buf.push(1u8);
            push_enc_str(buf, to);
            push_u64(buf, *amount);
            push_enc_str(buf, reason);
            proof {
                assert(buf@ =~= old(buf)@ + enc_mutation(m));
            }
        },
        LedgerMutation::Transfer { from, to, amount, memo } => {
            buf.push(2u8);
            push_enc_str(buf, from);
            push_enc_str(buf, to);
            push_u64(buf, *amount);
            push_enc_opt_str(buf, memo);
            proof {
                assert(buf@ =~= old(buf)@ + enc_mutation(m));
            }
        },
        LedgerMutation::FundBudget { from, budget_id, amount, memo } => {
            buf.push(3u8);
            push_enc_str(buf, from);
            push_enc_str(buf, budget_id);
            push_u64(buf, *amount);
            push_enc_opt_str(buf, memo);
            proof {
                assert(buf@ =~= old(buf)@ + enc_mutation(m));
            }
        },
        LedgerMutation::SpendBudget { budget_id, plan } => {
            buf.push(4u8);
            push_enc_str(buf, budget_id);
            push_u64(buf, plan.transfers.len() as u64);
            let mut i: usize = 0;
            let ghost mark = buf@;
            proof {
                assert(plan.transfers@.skip(0) =~= plan.transfers@);
            }
            while i < plan.transfers.len()
                invariant
                    i <= plan.transfers@.len(),
                    buf@ + enc_transfers(plan.transfers@.skip(i as int)) == mark + enc_transfers(
                        plan.transfers@,
                    ),
                decreases plan.transfers@.len() - i,
            {
                let t = &plan.transfers[i];
                let ghost pre = buf@;
                push_enc_str(buf, &t.to);
                push_u64(buf, t.amount);
                push_enc_opt_str(buf, &t.memo);
                proof {
                    assert(buf@ =~= pre + enc_transfer(&plan.transfers@[i as int]));
                    assert(plan.transfers@.skip(i as int)[0] == plan.transfers@[i as int]);
                    assert(plan.transfers@.skip(i as int).drop_first() =~= plan.transfers@.skip(
                        i as int + 1,
                    ));
                    assert(buf@ + enc_transfers(plan.transfers@.skip(i as int + 1)) =~= mark
                        + enc_transfers(plan.transfers@));
                }
                i += 1;
            }
            proof {
                assert(plan.transfers@.skip(plan.transfers@.len() as int) =~= Seq::<
                    BudgetTransfer,
                >::empty());
                assert(buf@ =~= old(buf)@ + enc_mutation(m));
            }
        },
        LedgerMutation::ApplyReferralPayouts { contract, payouts } => {
            buf.push(5u8);
            push_enc_str(buf, contract);
            push_u64(buf, payouts.len() as u64);
            let mut i: usize = 0;
            let ghost mark = buf@;
            proof {
                assert(payouts@.skip(0) =~= payouts@);
            }
            while i < payouts.len()
                invariant
                    i <= payouts@.len(),
                    buf@ + enc_payouts(payouts@.skip(i as int)) == mark + enc_payouts(payouts@),
                decreases payouts@.len() - i,
            {
                let p = &payouts[i];
                let ghost pre = buf@;
                push_enc_str(buf, &p.recipient);
                push_u64(buf, p.amount);
                push_u64(buf, p.level as u64);
                proof {
                    assert(buf@ =~= pre + enc_payout(&payouts@[i as int]));
                    assert(payouts@.skip(i as int)[0] == payouts@[i as int]);
                    assert(payouts@.skip(i as int).drop_first() =~= payouts@.skip(i as int + 1));
                    assert(buf@ + enc_payouts(payouts@.skip(i as int + 1)) =~= mark + enc_payouts(
                        payouts@,
                    ));
                }
                i += 1;
            }
            proof {
                assert(payouts@.skip(payouts@.len() as int) =~= Seq::<ReferralPayout>::empty());
                assert(buf@ =~= old(buf)@ + enc_mutation(m));
            }
        },
    }
}

impl ReceiptOutcome {
    /// The canonical commitment bytes of the outcome.
    pub fn commitment(&self) -> (r: Vec<u8>)
        ensures
            r@ == spec_commitment(self),
    {
        let mut buf: Vec<u8> = Vec::new();
        match self {
            ReceiptOutcome::Accepted { mutations, notes } => {
                buf.push(97u8);
                buf.push(99u8);
                buf.push(99u8);
                buf.push(101u8);
                buf.push(112u8);
                buf.push(116u8);
                buf.push(101u8);
                buf.push(100u8);
                assert(buf@ =~= accepted_tag());
                push_u64(&mut buf, mutations.len() as u64);
                let mut i: usize = 0;
                let ghost mark = buf@;
                proof {
                    assert(mutations@.skip(0) =~= mutations@);
                }
                while i < mutations.len()
                    invariant
                        i <= mutations@.len(),
                        buf@ + enc_mutations(mutations@.skip(i as int)) == mark + enc_mutations(
                            mutations@,
                        ),
                    decreases mutations@.len() - i,
                {
                    let ghost pre = buf@;
                    push_enc_mutation(&mut buf, &mutations[i]);
                    proof {
                        assert(mutations@.skip(i as int)[0] == mutations@[i as int]);
                        assert(mutations@.skip(i as int).drop_first() =~= mutations@.skip(
                            i as int + 1,
                        ));
                        assert(buf@ + enc_mutations(mutations@.skip(i as int + 1)) =~= mark
                            + enc_mutations(mutations@));
                    }
                    i += 1;
                }
                proof {
                    assert(mutations@.skip(mutations@.len() as int) =~= Seq::<
                        LedgerMutation,
                    >::empty());
                }
                let mut j: usize = 0;
                let ghost mark2 = buf@;
                proof {
                    assert(notes@.skip(0) =~= notes@);
                }
                while j < notes.len()
                    invariant
                        j <= notes@.len(),
                        buf@ + enc_notes(notes@.skip(j as int)) == mark2 + enc_notes(notes@),
                    decreases notes@.len() - j,
                {
                    let ghost pre = buf@;
                    buf.extend_from_slice(notes[j].as_str().as_bytes());
                    proof {
                        assert(buf@ =~= pre + utf8(notes@[j as int]@));
                        assert(notes@.skip(j as int)[0] == notes@[j as int]);
                        assert(notes@.skip(j as int).drop_first() =~= notes@.skip(j as int + 1));
                        assert(buf@ + enc_notes(notes@.skip(j as int + 1)) =~= mark2 + enc_notes(
                            notes@,
                        ));
                    }
                    j += 1;
                }
                proof {
                    assert(notes@.skip(notes@.len() as int) =~= Seq::<String>::empty());
                    assert(buf@ =~= spec_commitment(self));
                }
            },
            ReceiptOutcome::Rejected { reason } => {
                buf.push(114u8);
                buf.push(101u8);
                buf.push(106u8);
                buf.push(101u8);
                buf.push(99u8);
                buf.push(116u8);
                buf.push(101u8);
                buf.push(100u8);
                assert(buf@ =~= rejected_tag());
                buf.extend_from_slice(reason.as_str().as_bytes());
                proof {
                    assert(buf@ =~= spec_commitment(self));
                }
            },
        }
        buf
    }
}

impl ReceiptCore {
    /// The SHA-256 digest committing the core.
    pub fn digest(&self) -> (r: Vec<u8>)
        ensures
            r@ == spec_digest(self),
            r@.len() == 32,
    {
        let mut buf: Vec<u8> = Vec::new();
        buf.extend_from_slice(self.scid.as_str().as_bytes());
        buf.extend_from_slice(self.merkle_root.as_slice());
        buf.extend_from_slice(self.ct_hash.as_slice());
        let mut commitment = self.outcome.commitment();
        buf.append(&mut commitment);
        proof {
            assert(buf@ =~= spec_digest_input(self));
        }
        sha256(&buf)
    }
}

/// One member's signature over the receipt digest.
#[derive(Clone, Debug)]
pub struct MemberSignature {
    pub member_id: String,
    pub signature: Vec<u8>,
}

/// Advisory aggregated signature: membership is checked, nothing more.
#[derive(Clone, Debug)]
pub struct AggregatedSignature {
    pub participants: Vec<String>,
    pub signature: Vec<u8>,
}

/// The committee material attached to a receipt.
#[derive(Clone, Debug)]
pub struct CommitteeEnvelope {
    pub signatures: Vec<MemberSignature>,
    pub aggregated: Option<AggregatedSignature>,
}

impl CommitteeEnvelope {
    /// An empty envelope.
    pub fn new() -> (r: Self)
        ensures
            r.signatures@.len() == 0,
            r.aggregated is None,
    {
        CommitteeEnvelope { signatures: Vec::new(), aggregated: None }
    }
}

/// A receipt core with its committee envelope.
#[derive(Clone, Debug)]
pub struct SignedReceipt {
    pub core: ReceiptCore,
    pub committee: CommitteeEnvelope,
}

impl SignedReceipt {
    /// The digest committee members sign.
    pub fn digest(&self) -> (r: Vec<u8>)
        ensures
            r@ == spec_digest(&self.core),
            r@.len() == 32,
    {
        self.core.digest()
    }
}

/// Whether one member signature is valid against the member table and a
/// digest: a known member, 64 signature bytes, and a verifying signature.
pub open spec fn sig_valid(
    members: Seq<(Seq<char>, Vec<u8>)>,
    digest: Seq<u8>,
    s: &MemberSignature,
) -> bool {
    &&& map_has(members, s.member_id@)
    &&& s.signature@.len() == 64
    &&& ed_valid(map_get(members, s.member_id@)@, digest, s.signature@)
}

/// The distinct signer identities of a signature list.
pub open spec fn signer_ids(sigs: Seq<MemberSignature>) -> Set<Seq<char>> {
    Set::new(|id: Seq<char>| exists|i: int| 0 <= i < sigs.len() && (#[trigger] sigs[i]).member_id@ == id)
}

/// How one member signature fails, if it does.
pub enum SigFail {
    /// The identifier names nobody in the member table.
    Unknown,
    /// The signature bytes are not 64 bytes long.
    Malformed,
    /// The signature does not verify against the digest.
    Invalid,
}

/// The first check one signature fails, in the order the verifier applies
/// them: membership, shape, validity.
pub open spec fn sig_fail(
    members: Seq<(Seq<char>, Vec<u8>)>,
    digest: Seq<u8>,
    s: &MemberSignature,
) -> Option<SigFail> {
    if !map_has(members, s.member_id@) {
        Some(SigFail::Unknown)
    } else if s.signature@.len() != 64 {
        Some(SigFail::Malformed)
    } else if !ed_valid(map_get(members, s.member_id@)@, digest, s.signature@) {
        Some(SigFail::Invalid)
    } else {
        None
    }
}

/// The index of the first failing signature.
pub open spec fn first_bad_sig(
    members: Seq<(Seq<char>, Vec<u8>)>,
    digest: Seq<u8>,
    sigs: Seq<MemberSignature>,
) -> Option<int>
    decreases sigs.len(),
{
    if sigs.len() == 0 {
        None
    } else if sig_fail(members, digest, &sigs[0]) is Some {
        Some(0)
    } else {
        match first_bad_sig(members, digest, sigs.drop_first()) {
            Some(i) => Some(i + 1),
            None => None,
        }
    }
}

/// The index of the first aggregated participant outside the member table.
pub open spec fn first_unknown_participant(
    members: Seq<(Seq<char>, Vec<u8>)>,
    parts: Seq<String>,
) -> Option<int>
    decreases parts.len(),
{
    if parts.len() == 0 {
        None
    } else if !map_has(members, parts[0]@) {
        Some(0)
    } else {
        match first_unknown_participant(members, parts.drop_first()) {
            Some(i) => Some(i + 1),
            None => None,
        }
    }
}

/// A signature list whose prefix passes and whose `i`-th entry fails has
/// its first failure at `i`.
proof fn lemma_first_bad_at(
    members: Seq<(Seq<char>, Vec<u8>)>,
    digest: Seq<u8>,
    sigs: Seq<MemberSignature>,
    i: int,
)
    requires
        0 <= i < sigs.len(),
        forall|t: int| 0 <= t < i ==> sig_fail(members, digest, &sigs[t]) is None,
        sig_fail(members, digest, &sigs[i]) is Some,
    ensures
        first_bad_sig(members, digest, sigs) == Some(i),
    decreases i,
{
    if i == 0 {
    } else {
        assert(sig_fail(members, digest, &sigs[0]) is None);
        assert forall|t: int|
            0 <= t < i - 1 implies sig_fail(members, digest, &sigs.drop_first()[t]) is None by {
            assert(sigs.drop_first()[t] == sigs[t + 1]);
        }
        assert(sigs.drop_first()[i - 1] == sigs[i]);
        lemma_first_bad_at(members, digest, sigs.drop_first(), i - 1);
    }
}

/// A signature list that passes throughout has no first failure.
proof fn lemma_first_bad_none(
    members: Seq<(Seq<char>, Vec<u8>)>,
    digest: Seq<u8>,
    sigs: Seq<MemberSignature>,
)
    requires
        forall|t: int| 0 <= t < sigs.len() ==> sig_fail(members, digest, &sigs[t]) is None,
    ensures
        first_bad_sig(members, digest, sigs) is None,
    decreases sigs.len(),
{
    if sigs.len() > 0 {
        assert forall|t: int|
            0 <= t < sigs.drop_first().len() implies sig_fail(
            members,
            digest,
            &sigs.drop_first()[t],
        ) is None by {
            assert(sigs.drop_first()[t] == sigs[t + 1]);
        }
        lemma_first_bad_none(members, digest, sigs.drop_first());
    }
}

/// A participant list whose prefix is known and whose `i`-th entry is not
/// has its first unknown at `i`.
proof fn lemma_first_unknown_at(
    members: Seq<(Seq<char>, Vec<u8>)>,
    parts: Seq<String>,
    i: int,
)
    requires
        0 <= i < parts.len(),
        forall|t: int| 0 <= t < i ==> map_has(members, (#[trigger] parts[t])@),
        !map_has(members, parts[i]@),
    ensures
        first_unknown_participant(members, parts) == Some(i),
    decreases i,
{
    if i == 0 {
    } else {
        assert(map_has(members, parts[0]@));
        assert forall|t: int| 0 <= t < i - 1 implies map_has(
            members,
            (#[trigger] parts.drop_first()[t])@,
        ) by {
            assert(parts.drop_first()[t] == parts[t + 1]);
        }
        assert(parts.drop_first()[i - 1] == parts[i]);
        lemma_first_unknown_at(members, parts.drop_first(), i - 1);
    }
}

/// A participant list of known members has no first unknown.
proof fn lemma_first_unknown_none(members: Seq<(Seq<char>, Vec<u8>)>, parts: Seq<String>)
    requires
        forall|t: int| 0 <= t < parts.len() ==> map_has(members, (#[trigger] parts[t])@),
    ensures
        first_unknown_participant(members, parts) is None,
    decreases parts.len(),
{
    if parts.len() > 0 {
        assert forall|t: int| 0 <= t < parts.drop_first().len() implies map_has(
            members,
            (#[trigger] parts.drop_first()[t])@,
        ) by {
            assert(parts.drop_first()[t] == parts[t + 1]);
        }
        lemma_first_unknown_none(members, parts.drop_first());
    }
}

/// Every aggregated participant, if an aggregate is present, is a member.
pub open spec fn agg_ok(
    members: Seq<(Seq<char>, Vec<u8>)>,
    committee: &CommitteeEnvelope,
) -> bool {
    match committee.aggregated {
        Some(agg) => first_unknown_participant(members, agg.participants@) is None,
        None => true,
    }
}

/// The committee: its quorum and its members' public keys.
pub struct CommitteeConfig {
    pub quorum: usize,
    members: StrMap<Vec<u8>>,
}

impl CommitteeConfig {
    /// The member table.
    pub closed spec fn members_view(&self) -> Seq<(Seq<char>, Vec<u8>)> {
        self.members.view()
    }

    /// Member keys are unique.
    pub closed spec fn wf(&self) -> bool {
        crate::strmap::keys_unique(self.members.view())
    }

    /// The configured quorum.
    pub closed spec fn quorum_view(&self) -> int {
        self.quorum as int
    }

    /// Assemble a committee; a repeated identifier keeps the last key, and
    /// each identifier's registered key is the one given with its last
    /// occurrence.
    pub fn new(members: Vec<(String, Vec<u8>)>, quorum: usize) -> (r: Self)
        ensures
            r.wf(),
            r.quorum_view() == quorum,
            forall|i: int|
                0 <= i < members@.len() ==> map_has(r.members_view(), (#[trigger] members@[i]).0@),
            forall|i: int|
                0 <= i < members@.len() && (forall|j: int|
                    i < j < members@.len() ==> ((#[trigger] members@[j]).0)@ != members@[i].0@)
                    ==> map_get(r.members_view(), (#[trigger] members@[i]).0@)@
                    == members@[i].1@,
    {
        let mut table: StrMap<Vec<u8>> = StrMap::new();
        let mut i: usize = 0;
        while i < members.len()
            invariant
                i <= members@.len(),
                crate::strmap::keys_unique(table.view()),
                forall|t: int|
                    0 <= t < i ==> map_has(table.view(), (#[trigger] members@[t]).0@),
                forall|t: int|
                    0 <= t < i && (forall|j: int|
                        t < j < i ==> ((#[trigger] members@[j]).0)@ != members@[t].0@) ==> map_get(
                        table.view(),
                        (#[trigger] members@[t]).0@,
                    )@ == members@[t].1@,
            decreases members@.len() - i,
        {
            let (id, key) = (members[i].0.clone(), crate::crypto::clone_bytes(&members[i].1));
            let ghost key_view = key@;
            let ghost before = table.view();
            table.insert(id, key);
            proof {
                crate::strmap::lemma_upsert_get(before, members@[i as int].0@, key);
                assert forall|t: int| 0 <= t < i + 1 implies map_has(
                    table.view(),
                    (#[trigger] members@[t]).0@,
                ) by {
                    if t < i {
                        if members@[t].0@ != members@[i as int].0@ {
                            crate::strmap::lemma_upsert_frame(
                                before,
                                members@[i as int].0@,
                                key,
                                members@[t].0@,
                            );
                        }
                    }
                }
                assert forall|t: int|
                    0 <= t < i + 1 && (forall|j: int|
                        t < j < i + 1 ==> ((#[trigger] members@[j]).0)@ != members@[t].0@) implies
                    map_get(table.view(), (#[trigger] members@[t]).0@)@ == members@[t].1@ by {
                    if t == i {
                        assert(map_get(table.view(), members@[i as int].0@) == key);
                        assert(key_view == members@[i as int].1@);
                    } else {
                        assert(members@[i as int].0@ != members@[t].0@);
                        crate::strmap::lemma_upsert_frame(
                            before,
                            members@[i as int].0@,
                            key,
                            members@[t].0@,
                        );
                        assert(map_get(before, members@[t].0@)@ == members@[t].1@);
                    }
                }
            }
            i += 1;
        }
        CommitteeConfig { quorum, members: table }
    }

    /// The identifiers of all members, in table order.
    pub fn member_ids(&self) -> (r: Vec<String>)
        ensures
            r@.len() == self.members_view().len(),
            forall|i: int| 0 <= i < r@.len() ==> (#[trigger] r@[i])@ == self.members_view()[i].0,
    {
        let mut out: Vec<String> = Vec::new();
        let mut i: usize = 0;
        while i < self.members.len()
            invariant
                i <= self.members_view().len(),
                out@.len() == i,
                forall|t: int|
                    0 <= t < i ==> (#[trigger] out@[t])@ == self.members_view()[t].0,
            decreases self.members_view().len() - i,
        {
            out.push(self.members.key_at(i).clone());
            i += 1;
        }
        out
    }

    /// Verify a receipt: every listed signature must name a known member,
    /// parse, and verify against the digest; every aggregated participant
    /// must be a member; and the distinct valid signers must reach the
    /// quorum.
    #[verifier::loop_isolation(false)]
    pub fn verify(&self, receipt: &SignedReceipt) -> (r: Result<(), VerificationError>)
        requires
            self.wf(),
        ensures
            r is Ok <==> {
                let digest = spec_digest(&receipt.core);
                let sigs = receipt.committee.signatures@;
                &&& (forall|i: int|
                    0 <= i < sigs.len() ==> sig_valid(self.members_view(), digest, &sigs[i]))
                &&& (receipt.committee.aggregated matches Some(agg) ==> forall|i: int|
                    0 <= i < agg.participants@.len() ==> map_has(
                        self.members_view(),
                        (#[trigger] agg.participants@[i])@,
                    ))
                &&& signer_ids(sigs).len() >= self.quorum_view()
            },
            r matches Err(e) ==> (e matches VerificationError::InsufficientQuorum {
                expected,
                actual,
            } ==> expected == self.quorum_view() && actual == signer_ids(
                receipt.committee.signatures@,
            ).len() && actual < expected),
            r matches Err(e) ==> ((e is UnknownMember || e is MalformedSignature || e
                is InvalidSignature || e is InsufficientQuorum)),
            r matches Err(e) ==> (e matches VerificationError::MalformedSignature(id) ==> exists|
                i: int,
            |
                0 <= i < receipt.committee.signatures@.len() && (
                #[trigger] receipt.committee.signatures@[i]).member_id@ == id@
                    && receipt.committee.signatures@[i].signature@.len() != 64),
            r matches Err(e) ==> (e matches VerificationError::InvalidSignature(id) ==> exists|
                i: int,
            |
                0 <= i < receipt.committee.signatures@.len() && (
                #[trigger] receipt.committee.signatures@[i]).member_id@ == id@ && !ed_valid(
                    map_get(self.members_view(), id@)@,
                    spec_digest(&receipt.core),
                    receipt.committee.signatures@[i].signature@,
                )),
            r matches Err(e) ==> (e matches VerificationError::UnknownMember(id) ==> !map_has(
                self.members_view(),
                id@,
            )),
            first_bad_sig(
                self.members_view(),
                spec_digest(&receipt.core),
                receipt.committee.signatures@,
            ) matches Some(fb) ==> (r matches Err(e) && ({
                let s = receipt.committee.signatures@[fb];
                let kind = sig_fail(self.members_view(), spec_digest(&receipt.core), &s);
                &&& (kind == Some(SigFail::Unknown) ==> (e
                    matches VerificationError::UnknownMember(id) && id@ == s.member_id@))
                &&& (kind == Some(SigFail::Malformed) ==> (e
                    matches VerificationError::MalformedSignature(id) && id@ == s.member_id@))
                &&& (kind == Some(SigFail::Invalid) ==> (e
                    matches VerificationError::InvalidSignature(id) && id@ == s.member_id@))
            })),
            first_bad_sig(
                self.members_view(),
                spec_digest(&receipt.core),
                receipt.committee.signatures@,
            ) is None ==> (receipt.committee.aggregated matches Some(agg) ==> (
            first_unknown_participant(self.members_view(), agg.participants@) matches Some(p) ==> (
            r matches Err(e) && (e matches VerificationError::UnknownMember(id) && id@
                == agg.participants@[p]@)))),
            (first_bad_sig(
                self.members_view(),
                spec_digest(&receipt.core),
                receipt.committee.signatures@,
            ) is None && agg_ok(self.members_view(), &receipt.committee) && signer_ids(
                receipt.committee.signatures@,
            ).len() < self.quorum_view()) ==> (r matches Err(e) && e is InsufficientQuorum),
    {
        let digest = receipt.digest();
        let mut seen: Vec<String> = Vec::new();
        let mut i: usize = 0;
        while i < receipt.committee.signatures.len()
            invariant
                i <= receipt.committee.signatures@.len(),
                forall|t: int|
                    0 <= t < i ==> sig_valid(
                        self.members_view(),
                        digest@,
                        &receipt.committee.signatures@[t],
                    ),
                seen_matches(seen@, receipt.committee.signatures@.take(i as int)),
            decreases receipt.committee.signatures@.len() - i,
        {
            let sig = &receipt.committee.signatures[i];
            let ghost sigs = receipt.committee.signatures@;
            let ghost d = spec_digest(&receipt.core);
            proof {
                assert(digest@ == d);
                assert forall|t: int| 0 <= t < i implies sig_fail(
                    self.members_view(),
                    d,
                    &sigs[t],
                ) is None by {
                    assert(sig_valid(self.members_view(), d, &sigs[t]));
                }
            }
            let key = match self.members.get(&sig.member_id) {
                Some(k) => k,
                None => {
                    proof {
                        assert(sig_fail(self.members_view(), d, &sigs[i as int]) == Some(
                            SigFail::Unknown,
                        ));
                        lemma_first_bad_at(self.members_view(), d, sigs, i as int);
                    }
                    return Err(VerificationError::UnknownMember(sig.member_id.clone()));
                },
            };
            if sig.signature.len() != 64 {
                proof {
                    assert(receipt.committee.signatures@[i as int].member_id@ == sig.member_id@);
                    assert(sig_fail(self.members_view(), d, &sigs[i as int]) == Some(
                        SigFail::Malformed,
                    ));
                    lemma_first_bad_at(self.members_view(), d, sigs, i as int);
                }
                return Err(VerificationError::MalformedSignature(sig.member_id.clone()));
            }
            if !ed25519_verify(key, &digest, &sig.signature) {
                proof {
                    assert(receipt.committee.signatures@[i as int].member_id@ == sig.member_id@);
                    assert(key@ == map_get(self.members_view(), sig.member_id@)@);
                    assert(sig_fail(self.members_view(), d, &sigs[i as int]) == Some(
                        SigFail::Invalid,
                    ));
                    lemma_first_bad_at(self.members_view(), d, sigs, i as int);
                }
                return Err(VerificationError::InvalidSignature(sig.member_id.clone()));
            }
            let mut already = false;
            let mut t: usize = 0;
            while t < seen.len()
                invariant
                    t <= seen@.len(),
                    already == exists|u: int|
                        0 <= u < t && (#[trigger] seen@[u])@ == sig.member_id@,
                decreases seen@.len() - t,
            {
                if seen[t] == sig.member_id {
                    already = true;
                }
                t += 1;
            }
            let ghost seen_old = seen@;
            if !already {
                seen.push(sig.member_id.clone());
            }
            proof {
                let sigs = receipt.committee.signatures@;
                let id = sig.member_id@;
                lemma_ids_take_step(sigs, i as int);
                assert(signer_ids(sigs.take(i as int + 1)) =~= signer_ids(
                    sigs.take(i as int),
                ).insert(id));
                assert forall|a: int, b: int|
                    0 <= a < b < seen@.len() implies (#[trigger] seen@[a])@ != (
                #[trigger] seen@[b])@ by {
                    if b < seen_old.len() {
                        assert(seen_old[a]@ != seen_old[b]@);
                    } else {
                        assert(seen@[b]@ == id);
                        assert(!already);
                        if seen@[a]@ == id {
                            assert(seen_old[a]@ == id);
                            assert(false);
                        }
                    }
                }
                assert forall|a: int| 0 <= a < seen@.len() implies signer_ids(
                    sigs.take(i as int + 1),
                ).contains((#[trigger] seen@[a])@) by {
                    if a < seen_old.len() {
                        assert(signer_ids(sigs.take(i as int)).contains(seen_old[a]@));
                    } else {
                        assert(seen@[a]@ == id);
                    }
                }
                assert forall|id2: Seq<char>|
                    #[trigger] signer_ids(sigs.take(i as int + 1)).contains(id2) implies exists|
                    a: int,
                |
                    0 <= a < seen@.len() && (#[trigger] seen@[a])@ == id2 by {
                    if id2 == id {
                        if already {
                            let u = choose|u: int|
                                0 <= u < seen_old.len() && (#[trigger] seen_old[u])@ == id;
                            assert(seen@[u]@ == id2);
                        } else {
                            assert(seen@[seen@.len() - 1]@ == id2);
                        }
                    } else {
                        assert(signer_ids(sigs.take(i as int)).contains(id2));
                        let u = choose|u: int|
                            0 <= u < seen_old.len() && (#[trigger] seen_old[u])@ == id2;
                        assert(seen@[u]@ == id2);
                    }
                }
            }
            i += 1;
        }
        proof {
            let sigs = receipt.committee.signatures@;
            let d = spec_digest(&receipt.core);
            assert forall|t: int| 0 <= t < sigs.len() implies sig_fail(
                self.members_view(),
                d,
                &sigs[t],
            ) is None by {
                assert(sig_valid(self.members_view(), d, &sigs[t]));
            }
            lemma_first_bad_none(self.members_view(), d, sigs);
        }
        match &receipt.committee.aggregated {
            Some(agg) => {
                let mut t: usize = 0;
                while t < agg.participants.len()
                    invariant
                        t <= agg.participants@.len(),
                        forall|u: int|
                            0 <= u < t ==> map_has(
                                self.members_view(),
                                (#[trigger] agg.participants@[u])@,
                            ),
                    decreases agg.participants@.len() - t,
                {
                    if !self.members.contains_key(&agg.participants[t]) {
                        proof {
                            lemma_first_unknown_at(
                                self.members_view(),
                                agg.participants@,
                                t as int,
                            );
                        }
                        return Err(
                            VerificationError::UnknownMember(agg.participants[t].clone()),
                        );
                    }
                    t += 1;
                }
                proof {
                    lemma_first_unknown_none(self.members_view(), agg.participants@);
                }
            },
            None => {},
        }
        proof {
            assert(receipt.committee.signatures@.take(
                receipt.committee.signatures@.len() as int,
            ) =~= receipt.committee.signatures@);
            lemma_seen_count(seen@, receipt.committee.signatures@);
        }
        if seen.len() < self.quorum {
            return Err(
                VerificationError::InsufficientQuorum {
                    expected: self.quorum,
                    actual: seen.len(),
                },
            );
        }
        Ok(())
    }
}

/// The seen list holds each distinct signer of the processed prefix exactly
/// once.
pub open spec fn seen_matches(seen: Seq<String>, sigs: Seq<MemberSignature>) -> bool {
    &&& (forall|a: int, b: int|
        0 <= a < b < seen.len() ==> (#[trigger] seen[a])@ != (#[trigger] seen[b])@)
    &&& (forall|a: int|
        0 <= a < seen.len() ==> signer_ids(sigs).contains((#[trigger] seen[a])@))
    &&& (forall|id: Seq<char>| signer_ids(sigs).contains(id) ==> exists|a: int|
        0 <= a < seen.len() && (#[trigger] seen[a])@ == id)
}

/// Processing one more signature adds its identity to the signer set.
proof fn lemma_ids_take_step(sigs: Seq<MemberSignature>, i: int)
    requires
        0 <= i < sigs.len(),
    ensures
        signer_ids(sigs.take(i + 1)) == signer_ids(sigs.take(i)).insert(sigs[i].member_id@),
{
    let lhs = signer_ids(sigs.take(i + 1));
    let rhs = signer_ids(sigs.take(i)).insert(sigs[i].member_id@);
    assert forall|id: Seq<char>| lhs.contains(id) implies rhs.contains(id) by {
        let w = choose|w: int|
            0 <= w < sigs.take(i + 1).len() && (#[trigger] sigs.take(i + 1)[w]).member_id@ == id;
        if w < i {
            assert(sigs.take(i)[w].member_id@ == id);
            assert(signer_ids(sigs.take(i)).contains(id));
        } else {
            assert(sigs.take(i + 1)[i] == sigs[i]);
        }
    }
    assert forall|id: Seq<char>| rhs.contains(id) implies lhs.contains(id) by {
        if id == sigs[i].member_id@ {
            assert(sigs.take(i + 1)[i].member_id@ == id);
        } else {
            assert(signer_ids(sigs.take(i)).contains(id));
            let w = choose|w: int|
                0 <= w < sigs.take(i).len() && (#[trigger] sigs.take(i)[w]).member_id@ == id;
            assert(sigs.take(i + 1)[w].member_id@ == id);
        }
    }
    assert(lhs =~= rhs);
}

/// A seen list exactly covering the signers has the distinct signer count.
proof fn lemma_seen_count(seen: Seq<String>, sigs: Seq<MemberSignature>)
    requires
        seen_matches(seen, sigs),
    ensures
        signer_ids(sigs).len() == seen.len(),
        signer_ids(sigs).finite(),
    decreases seen.len(),
{
    let ids = signer_ids(sigs);
    let views = Seq::new(seen.len(), |a: int| seen[a]@);
    assert forall|id: Seq<char>| ids.contains(id) implies views.contains(id) by {
        let a = choose|a: int| 0 <= a < seen.len() && (#[trigger] seen[a])@ == id;
        assert(views[a] == id);
    }
    assert forall|id: Seq<char>| views.contains(id) implies ids.contains(id) by {
        let a = choose|a: int| 0 <= a < views.len() && (#[trigger] views[a]) == id;
        assert(seen[a]@ == id);
    }
    assert(ids =~= views.to_set());
    assert(views.no_duplicates()) by {
        assert forall|a: int, b: int|
            0 <= a < views.len() && 0 <= b < views.len() && a != b implies views[a]
            != views[b] by {
            if a < b {
                assert(seen[a]@ != seen[b]@);
            } else {
                assert(seen[b]@ != seen[a]@);
            }
        }
    }
    views.unique_seq_to_set();
}

/// Two transfers with the same content.
pub open spec fn transfer_matches(a: &BudgetTransfer, b: &BudgetTransfer) -> bool {
    a.to@ == b.to@ && a.amount == b.amount && opt_str_view(&a.memo) == opt_str_view(&b.memo)
}

/// Two payouts with the same content.
pub open spec fn payout_matches(a: &ReferralPayout, b: &ReferralPayout) -> bool {
    a.recipient@ == b.recipient@ && a.amount == b.amount && a.level == b.level
}

/// Two mutations with the same content, field views compared.
pub open spec fn mutation_matches(a: &LedgerMutation, b: &LedgerMutation) -> bool {
    match (a, b) {
        (
            LedgerMutation::Emit { to: t1, amount: a1, reason: r1 },
            LedgerMutation::Emit { to: t2, amount: a2, reason: r2 },
        ) => t1@ == t2@ && a1 == a2 && r1@ == r2@,
        (
            LedgerMutation::Transfer { from: f1, to: t1, amount: a1, memo: m1 },
            LedgerMutation::Transfer { from: f2, to: t2, amount: a2, memo: m2 },
        ) => f1@ == f2@ && t1@ == t2@ && a1 == a2 && opt_str_view(m1) == opt_str_view(m2),
        (
            LedgerMutation::FundBudget { from: f1, budget_id: b1, amount: a1, memo: m1 },
            LedgerMutation::FundBudget { from: f2, budget_id: b2, amount: a2, memo: m2 },
        ) => f1@ == f2@ && b1@ == b2@ && a1 == a2 && opt_str_view(m1) == opt_str_view(m2),
        (
            LedgerMutation::SpendBudget { budget_id: b1, plan: p1 },
            LedgerMutation::SpendBudget { budget_id: b2, plan: p2 },
        ) => b1@ == b2@ && p1.transfers@.len() == p2.transfers@.len() && (forall|i: int|
            0 <= i < p1.transfers@.len() ==> transfer_matches(
                &(#[trigger] p1.transfers@[i]),
                &p2.transfers@[i],
            )),
        (
            LedgerMutation::ApplyReferralPayouts { contract: c1, payouts: p1 },
            LedgerMutation::ApplyReferralPayouts { contract: c2, payouts: p2 },
        ) => c1@ == c2@ && p1@.len() == p2@.len() && (forall|i: int|
            0 <= i < p1@.len() ==> payout_matches(&(#[trigger] p1@[i]), &p2@[i])),
        _ => false,
    }
}

/// Two outcomes with the same content.
pub open spec fn outcome_matches(a: &ReceiptOutcome, b: &ReceiptOutcome) -> bool {
    match (a, b) {
        (
            ReceiptOutcome::Accepted { mutations: m1, notes: n1 },
            ReceiptOutcome::Accepted { mutations: m2, notes: n2 },
        ) => m1@.len() == m2@.len() && (forall|i: int|
            0 <= i < m1@.len() ==> mutation_matches(&(#[trigger] m1@[i]), &m2@[i])) && n1@.len()
            == n2@.len() && (forall|i: int| 0 <= i < n1@.len() ==> (#[trigger] n1@[i])@ == n2@[i]@),
        (
            ReceiptOutcome::Rejected { reason: r1 },
            ReceiptOutcome::Rejected { reason: r2 },
        ) => r1@ == r2@,
        _ => false,
    }
}

/// Two receipt cores with the same content.
pub open spec fn core_matches(a: &ReceiptCore, b: &ReceiptCore) -> bool {
    a.scid@ == b.scid@ && a.merkle_root@ == b.merkle_root@ && a.ct_hash@ == b.ct_hash@
        && outcome_matches(&a.outcome, &b.outcome)
}

/// Equal-content transfer lists encode equally.
proof fn lemma_enc_transfers_stable(a: Seq<BudgetTransfer>, b: Seq<BudgetTransfer>)
    requires
        a.len() == b.len(),
        forall|i: int| 0 <= i < a.len() ==> transfer_matches(&(#[trigger] a[i]), &b[i]),
    ensures
        enc_transfers(a) == enc_transfers(b),
    decreases a.len(),
{
    if a.len() > 0 {
        assert(transfer_matches(&a[0], &b[0]));
        assert(enc_transfer(&a[0]) == enc_transfer(&b[0]));
        assert forall|i: int| 0 <= i < a.drop_first().len() implies transfer_matches(
            &(#[trigger] a.drop_first()[i]),
            &b.drop_first()[i],
        ) by {
            assert(a.drop_first()[i] == a[i + 1]);
            assert(b.drop_first()[i] == b[i + 1]);
            assert(transfer_matches(&a[i + 1], &b[i + 1]));
        }
        lemma_enc_transfers_stable(a.drop_first(), b.drop_first());
    }
}

/// Equal-content payout lists encode equally.
proof fn lemma_enc_payouts_stable(a: Seq<ReferralPayout>, b: Seq<ReferralPayout>)
    requires
        a.len() == b.len(),
        forall|i: int| 0 <= i < a.len() ==> payout_matches(&(#[trigger] a[i]), &b[i]),
    ensures
        enc_payouts(a) == enc_payouts(b),
    decreases a.len(),
{
    if a.len() > 0 {
        assert(payout_matches(&a[0], &b[0]));
        assert(enc_payout(&a[0]) == enc_payout(&b[0]));
        assert forall|i: int| 0 <= i < a.drop_first().len() implies payout_matches(
            &(#[trigger] a.drop_first()[i]),
            &b.drop_first()[i],
        ) by {
            assert(a.drop_first()[i] == a[i + 1]);
            assert(b.drop_first()[i] == b[i + 1]);
            assert(payout_matches(&a[i + 1], &b[i + 1]));
        }
        lemma_enc_payouts_stable(a.drop_first(), b.drop_first());
    }
}

/// Equal-content mutations encode equally.
proof fn lemma_enc_mutation_stable(a: &LedgerMutation, b: &LedgerMutation)
    requires
        mutation_matches(a, b),
    ensures
        enc_mutation(a) == enc_mutation(b),
{
    match (a, b) {
        (
            LedgerMutation::SpendBudget { budget_id: b1, plan: p1 },
            LedgerMutation::SpendBudget { budget_id: b2, plan: p2 },
        ) => {
            lemma_enc_transfers_stable(p1.transfers@, p2.transfers@);
        },
        (
            LedgerMutation::ApplyReferralPayouts { contract: c1, payouts: p1 },
            LedgerMutation::ApplyReferralPayouts { contract: c2, payouts: p2 },
        ) => {
            lemma_enc_payouts_stable(p1@, p2@);
        },
        _ => {},
    }
}

/// Equal-content mutation lists encode equally.
proof fn lemma_enc_mutations_stable(a: Seq<LedgerMutation>, b: Seq<LedgerMutation>)
    requires
        a.len() == b.len(),
        forall|i: int| 0 <= i < a.len() ==> mutation_matches(&(#[trigger] a[i]), &b[i]),
    ensures
        enc_mutations(a) == enc_mutations(b),
    decreases a.len(),
{
    if a.len() > 0 {
        assert(mutation_matches(&a[0], &b[0]));
        lemma_enc_mutation_stable(&a[0], &b[0]);
        assert forall|i: int| 0 <= i < a.drop_first().len() implies mutation_matches(
            &(#[trigger] a.drop_first()[i]),
            &b.drop_first()[i],
        ) by {
            assert(a.drop_first()[i] == a[i + 1]);
            assert(b.drop_first()[i] == b[i + 1]);
            assert(mutation_matches(&a[i + 1], &b[i + 1]));
        }
        lemma_enc_mutations_stable(a.drop_first(), b.drop_first());
    }
}

/// Equal-content note lists encode equally.
proof fn lemma_enc_notes_stable(a: Seq<String>, b: Seq<String>)
    requires
        a.len() == b.len(),
        forall|i: int| 0 <= i < a.len() ==> (#[trigger] a[i])@ == b[i]@,
    ensures
        enc_notes(a) == enc_notes(b),
    decreases a.len(),
{
    if a.len() > 0 {
        assert(a[0]@ == b[0]@);
        assert forall|i: int| 0 <= i < a.drop_first().len() implies (
        #[trigger] a.drop_first()[i])@ == b.drop_first()[i]@ by {
            assert(a.drop_first()[i] == a[i + 1]);
            assert(b.drop_first()[i] == b[i + 1]);
            assert(a[i + 1]@ == b[i + 1]@);
        }
        lemma_enc_notes_stable(a.drop_first(), b.drop_first());
    }
}

/// Receipt digest stability: two receipts whose cores carry the same
/// content have the same digest, whatever representation either was read
/// from.
pub proof fn lemma_receipt_digest_stable(a: &ReceiptCore, b: &ReceiptCore)
    requires
        core_matches(a, b),
    ensures
        spec_digest(a) == spec_digest(b),
{
    match (&a.outcome, &b.outcome) {
        (
            ReceiptOutcome::Accepted { mutations: m1, notes: n1 },
            ReceiptOutcome::Accepted { mutations: m2, notes: n2 },
        ) => {
            lemma_enc_mutations_stable(m1@, m2@);
            lemma_enc_notes_stable(n1@, n2@);
        },
        _ => {},
    }
    assert(spec_commitment(&a.outcome) == spec_commitment(&b.outcome));
    assert(spec_digest_input(a) == spec_digest_input(b));
}

} // verus!
