//! The accounting state machine: account balances, program budgets, events,
//! and the receipt-guarded mutation log.

use vstd::prelude::*;

use crate::contracts::{sum_amounts, BudgetSpendPlan, BudgetTransfer, ReferralPayout};
use crate::errors::LedgerError;
use crate::hashes::{sha256, sha256_of};
use crate::merkle::{build_merkle, ledger_merkle_root};
use crate::strmap::{map_get, map_has, spec_upsert, StrMap};

verus! {

/// Account identifier.
pub type AccountId = String;

/// Contract identifier.
pub type ContractId = String;

/// Budget identifier.
pub type BudgetId = String;

/// Amount in minimal units.
pub type Amount = u64;

/// One NOS in minimal units.
pub const NOS_SCALE: u64 = 100000000;

/// Balance of one account.
#[derive(Clone, Copy, Debug)]
pub struct AccountBalance {
    pub available: u64,
    pub locked: u64,
}

impl Default for AccountBalance {
    /// A zero balance.
    fn default() -> (r: Self)
        ensures
            r.available == 0 && r.locked == 0,
    {
        AccountBalance { available: 0, locked: 0 }
    }
}

/// State of one program budget.
#[derive(Clone, Debug)]
pub struct BudgetState {
    pub id: String,
    pub contract: String,
    pub steward: String,
    pub available: u64,
}

impl BudgetState {
    /// Draw `amount` from the budget; fails when it does not hold that
    /// much, leaving the budget unchanged.
    pub fn debit(&mut self, amount: Amount) -> (r: Result<(), LedgerError>)
        ensures
            r is Ok <==> old(self).available >= amount,
            r is Ok ==> *final(self) == (BudgetState {
                available: (old(self).available - amount) as u64,
                ..*old(self)
            }),
            r is Err ==> *final(self) == *old(self),
            r matches Err(e) ==> e matches LedgerError::InsufficientBudgetFunds { budget_id }
                && budget_id@ == old(self).id@,
    {
        if self.available < amount {
            return Err(LedgerError::InsufficientBudgetFunds { budget_id: self.id.clone() });
        }
        self.available = self.available - amount;
        Ok(())
    }
}

/// Height, wall-clock stamp and parent receipt of a snapshot.
#[derive(Debug)]
pub struct SnapshotMetadata {
    pub height: u64,
    pub timestamp: u64,
    pub previous_receipt: Option<Vec<u8>>,
}

/// Field-for-field agreement of two snapshot metadata records.
pub open spec fn meta_matches(a: SnapshotMetadata, b: SnapshotMetadata) -> bool {
    &&& a.height == b.height
    &&& a.timestamp == b.timestamp
    &&& (a.previous_receipt is Some <==> b.previous_receipt is Some)
    &&& (a.previous_receipt matches Some(v) ==> (b.previous_receipt matches Some(w) && v@ == w@))
}

impl Clone for SnapshotMetadata {
    fn clone(&self) -> (r: Self)
        ensures
            meta_matches(r, *self),
    {
        let previous_receipt = match &self.previous_receipt {
            Some(v) => Some(crate::crypto::clone_bytes(v)),
            None => None,
        };
        let r = SnapshotMetadata {
            height: self.height,
            timestamp: self.timestamp,
            previous_receipt,
        };
        r
    }
}

impl Default for SnapshotMetadata {
    /// The genesis metadata.
    fn default() -> (r: Self)
        ensures
            r.height == 0 && r.timestamp == 0 && r.previous_receipt is None,
    {
        SnapshotMetadata { height: 0, timestamp: 0, previous_receipt: None }
    }
}

/// Events the ledger appends while applying mutations.
#[derive(Clone, Debug)]
pub enum LedgerEvent {
    Emission { to: AccountId, amount: Amount, reason: String },
    Transfer { from: AccountId, to: AccountId, amount: Amount, memo: Option<String> },
    BudgetFunded { from: AccountId, budget_id: BudgetId, amount: Amount, memo: Option<String> },
    BudgetDebited { budget_id: BudgetId, to: AccountId, amount: Amount, memo: Option<String> },
    ReferralPayout { contract: ContractId, recipient: AccountId, amount: Amount, level: u32 },
}

/// Mutations a receipt can carry.
#[derive(Clone, Debug)]
pub enum LedgerMutation {
    Emit { to: AccountId, amount: Amount, reason: String },
    Transfer { from: AccountId, to: AccountId, amount: Amount, memo: Option<String> },
    FundBudget { from: AccountId, budget_id: BudgetId, amount: Amount, memo: Option<String> },
    SpendBudget { budget_id: BudgetId, plan: BudgetSpendPlan },
    ApplyReferralPayouts { contract: ContractId, payouts: Vec<ReferralPayout> },
}

/// Error kinds a mutation can hit, with the offending key.
pub enum StepErr {
    UnknownAccount(Seq<char>),
    InsufficientAccount(Seq<char>),
    UnknownBudget(Seq<char>),
    InsufficientBudget(Seq<char>),
    Overflow,
}

/// Account entries.
pub type AccView = Seq<(Seq<char>, AccountBalance)>;

/// Budget entries.
pub type BudView = Seq<(Seq<char>, BudgetState)>;

/// Credit an account, creating it at zero first; `None` marks overflow.
pub open spec fn spec_credit(acc: AccView, to: Seq<char>, amount: u64) -> Option<AccView> {
    let prev = if map_has(acc, to) {
        map_get(acc, to)
    } else {
        AccountBalance { available: 0, locked: 0 }
    };
    if prev.available + amount > u64::MAX {
        None
    } else {
        Some(
            spec_upsert(
                acc,
                to,
                AccountBalance {
                    available: (prev.available + amount) as u64,
                    locked: prev.locked,
                },
            ),
        )
    }
}

/// Debit an existing account that holds enough.
pub open spec fn spec_debit(acc: AccView, from: Seq<char>, amount: u64) -> Result<
    AccView,
    StepErr,
> {
    if !map_has(acc, from) {
        Err(StepErr::UnknownAccount(from))
    } else {
        let b = map_get(acc, from);
        if b.available < amount {
            Err(StepErr::InsufficientAccount(from))
        } else {
            Ok(
                spec_upsert(
                    acc,
                    from,
                    AccountBalance { available: (b.available - amount) as u64, locked: b.locked },
                ),
            )
        }
    }
}

/// Credit a list of budget transfers in order.
pub open spec fn spec_credit_transfers(acc: AccView, ts: Seq<BudgetTransfer>) -> Option<AccView>
    decreases ts.len(),
{
    if ts.len() == 0 {
        Some(acc)
    } else {
        match spec_credit(acc, ts[0].to@, ts[0].amount) {
            Some(acc2) => spec_credit_transfers(acc2, ts.drop_first()),
            None => None,
        }
    }
}

/// Credit a list of referral payouts in order.
pub open spec fn spec_credit_payouts(acc: AccView, ps: Seq<ReferralPayout>) -> Option<AccView>
    decreases ps.len(),
{
    if ps.len() == 0 {
        Some(acc)
    } else {
        match spec_credit(acc, ps[0].recipient@, ps[0].amount) {
            Some(acc2) => spec_credit_payouts(acc2, ps.drop_first()),
            None => None,
        }
    }
}

/// The error one mutation hits, if any, judged before any state changes.
pub open spec fn step_err(acc: AccView, bud: BudView, m: &LedgerMutation) -> Option<StepErr> {
    match m {
        LedgerMutation::Emit { to, amount, .. } => {
            if spec_credit(acc, to@, *amount) is None {
                Some(StepErr::Overflow)
            } else {
                None
            }
        },
        LedgerMutation::Transfer { from, to, amount, .. } => {
            match spec_debit(acc, from@, *amount) {
                Ok(acc1) => if spec_credit(acc1, to@, *amount) is None {
                    Some(StepErr::Overflow)
                } else {
                    None
                },
                Err(e) => Some(e),
            }
        },
        LedgerMutation::FundBudget { from, budget_id, amount, .. } => {
            match spec_debit(acc, from@, *amount) {
                Ok(_) => if map_has(bud, budget_id@) && map_get(bud, budget_id@).available
                    + *amount > u64::MAX {
                    Some(StepErr::Overflow)
                } else {
                    None
                },
                Err(e) => Some(e),
            }
        },
        LedgerMutation::SpendBudget { budget_id, plan } => {
            if !map_has(bud, budget_id@) {
                Some(StepErr::UnknownBudget(budget_id@))
            } else if sum_amounts(plan.transfers@) > u64::MAX {
                Some(StepErr::Overflow)
            } else if (map_get(bud, budget_id@).available as int) < sum_amounts(plan.transfers@) {
                Some(StepErr::InsufficientBudget(budget_id@))
            } else if spec_credit_transfers(acc, plan.transfers@) is None {
                Some(StepErr::Overflow)
            } else {
                None
            }
        },
        LedgerMutation::ApplyReferralPayouts { payouts, .. } => {
            if spec_credit_payouts(acc, payouts@) is None {
                Some(StepErr::Overflow)
            } else {
                None
            }
        },
    }
}

/// Whether a newly funded budget entry matches its mutation: identifier as
/// the key, empty contract, the funder as steward, the amount as balance.
pub open spec fn fresh_budget_ok(
    b: BudgetState,
    budget_id: Seq<char>,
    from: Seq<char>,
    amount: u64,
) -> bool {
    b.id@ == budget_id && b.contract@ == Seq::<char>::empty() && b.steward@ == from && b.available
        == amount
}

/// Whether a budget entry is the old one with its balance changed.
pub open spec fn rebalanced_ok(b2: BudgetState, b: BudgetState, available: int) -> bool {
    b2.id@ == b.id@ && b2.contract@ == b.contract@ && b2.steward@ == b.steward@ && b2.available
        == available
}

/// One mutation's transition between account and budget maps. Budget values
/// hold strings, so the new budget entry is characterized field by field
/// rather than constructed.
pub open spec fn step_rel(
    acc: AccView,
    bud: BudView,
    m: &LedgerMutation,
    acc2: AccView,
    bud2: BudView,
) -> bool {
    &&& step_err(acc, bud, m) is None
    &&& match m {
        LedgerMutation::Emit { to, amount, .. } => {
            Some(acc2) == spec_credit(acc, to@, *amount) && bud2 == bud
        },
        LedgerMutation::Transfer { from, to, amount, .. } => {
            (spec_debit(acc, from@, *amount) matches Ok(acc1) && Some(acc2) == spec_credit(
                acc1,
                to@,
                *amount,
            )) && bud2 == bud
        },
        LedgerMutation::FundBudget { from, budget_id, amount, .. } => {
            &&& (spec_debit(acc, from@, *amount) matches Ok(acc1) && acc2 == acc1)
            &&& exists|b2: BudgetState|
                bud2 == spec_upsert(bud, budget_id@, b2) && (if map_has(bud, budget_id@) {
                    rebalanced_ok(
                        b2,
                        map_get(bud, budget_id@),
                        map_get(bud, budget_id@).available + *amount,
                    )
                } else {
                    fresh_budget_ok(b2, budget_id@, from@, *amount)
                })
        },
        LedgerMutation::SpendBudget { budget_id, plan } => {
            &&& Some(acc2) == spec_credit_transfers(acc, plan.transfers@)
            &&& exists|b2: BudgetState|
                bud2 == spec_upsert(bud, budget_id@, b2) && rebalanced_ok(
                    b2,
                    map_get(bud, budget_id@),
                    map_get(bud, budget_id@).available - sum_amounts(plan.transfers@),
                )
        },
        LedgerMutation::ApplyReferralPayouts { payouts, .. } => {
            Some(acc2) == spec_credit_payouts(acc, payouts@) && bud2 == bud
        },
    }
}

/// The whole mutation list applies, relating start and end maps.
pub open spec fn apply_rel(
    acc: AccView,
    bud: BudView,
    ms: Seq<LedgerMutation>,
    acc2: AccView,
    bud2: BudView,
) -> bool
    decreases ms.len(),
{
    if ms.len() == 0 {
        acc2 == acc && bud2 == bud
    } else {
        exists|mid: (AccView, BudView)|
            #[trigger] step_rel(acc, bud, &ms[0], mid.0, mid.1) && apply_rel(
                mid.0,
                mid.1,
                ms.drop_first(),
                acc2,
                bud2,
            )
    }
}

/// How many events one mutation emits.
pub open spec fn events_of(m: &LedgerMutation) -> int {
    match m {
        LedgerMutation::SpendBudget { plan, .. } => plan.transfers@.len() as int,
        LedgerMutation::ApplyReferralPayouts { payouts, .. } => payouts@.len() as int,
        _ => 1,
    }
}

/// How many events a mutation list emits.
pub open spec fn total_events(ms: Seq<LedgerMutation>) -> int
    decreases ms.len(),
{
    if ms.len() == 0 {
        0
    } else {
        events_of(&ms[0]) + total_events(ms.drop_first())
    }
}

/// Does the ledger error match the step error kind and key?
pub open spec fn err_matches(e: &LedgerError, k: StepErr) -> bool {
    match k {
        StepErr::UnknownAccount(a) => e matches LedgerError::UnknownAccount { account }
            && account@ == a,
        StepErr::InsufficientAccount(a) => e matches LedgerError::InsufficientAccountFunds {
            account,
        } && account@ == a,
        StepErr::UnknownBudget(b) => e matches LedgerError::UnknownBudget { budget_id }
            && budget_id@ == b,
        StepErr::InsufficientBudget(b) => e matches LedgerError::InsufficientBudgetFunds {
            budget_id,
        } && budget_id@ == b,
        StepErr::Overflow => false,
    }
}

/// No run over the mutations can hit an arithmetic overflow.
pub open spec fn no_overflow_run(acc: AccView, bud: BudView, ms: Seq<LedgerMutation>) -> bool
    decreases ms.len(),
{
    if ms.len() == 0 {
        true
    } else {
        &&& !(step_err(acc, bud, &ms[0]) matches Some(k) && k is Overflow)
        &&& forall|mid: (AccView, BudView)|
            #[trigger] step_rel(acc, bud, &ms[0], mid.0, mid.1) ==> no_overflow_run(
                mid.0,
                mid.1,
                ms.drop_first(),
            )
    }
}

/// The SHA-256 leaf committing one account entry.
pub open spec fn acct_leaf(k: Seq<char>, b: AccountBalance) -> Seq<u8> {
    sha256_of(
        seq![97u8, 99u8, 99u8, 116u8] + vstd::utf8::encode_utf8(k)
            + crate::bytes::u64_le_bytes(b.available) + crate::bytes::u64_le_bytes(b.locked),
    )
}

/// The SHA-256 leaf committing one budget entry.
pub open spec fn budget_leaf(k: Seq<char>, b: BudgetState) -> Seq<u8> {
    sha256_of(
        seq![98u8, 117u8, 100u8, 103u8, 101u8, 116u8] + vstd::utf8::encode_utf8(k)
            + vstd::utf8::encode_utf8(b.contract@) + vstd::utf8::encode_utf8(
            b.steward@,
        ) + crate::bytes::u64_le_bytes(b.available),
    )
}

/// The leaves committing the whole ledger: account leaves then budget
/// leaves, in entry order.
pub open spec fn ledger_leaves(acc: AccView, bud: BudView) -> Seq<Seq<u8>> {
    Seq::new(acc.len(), |i: int| acct_leaf(acc[i].0, acc[i].1)) + Seq::new(
        bud.len(),
        |i: int| budget_leaf(bud[i].0, bud[i].1),
    )
}

/// The live ledger state.
pub struct LedgerState {
    pub meta: SnapshotMetadata,
    pub accounts: StrMap<AccountBalance>,
    pub budgets: StrMap<BudgetState>,
    pub events: Vec<LedgerEvent>,
    applied_receipts: Vec<Vec<u8>>,
}

/// A deep copy of the state at one height, with its commitment root.
pub struct LedgerSnapshot {
    pub meta: SnapshotMetadata,
    pub accounts: StrMap<AccountBalance>,
    pub budgets: StrMap<BudgetState>,
    pub events: Vec<LedgerEvent>,
    pub merkle_root: Vec<u8>,
}

impl LedgerState {
    /// Receipt identifiers already applied.
    pub closed spec fn applied_view(&self) -> Seq<Seq<u8>> {
        self.applied_receipts.deep_view()
    }

    /// The account entries.
    pub closed spec fn accounts_view(&self) -> AccView {
        self.accounts.view()
    }

    /// The budget entries.
    pub closed spec fn budgets_view(&self) -> BudView {
        self.budgets.view()
    }

    /// The event log.
    pub closed spec fn events_view(&self) -> Seq<LedgerEvent> {
        self.events@
    }

    /// The snapshot metadata.
    pub closed spec fn meta_view(&self) -> SnapshotMetadata {
        self.meta
    }

    /// Key uniqueness of both maps, and each budget filed under its own
    /// identifier.
    pub closed spec fn wf(&self) -> bool {
        &&& crate::strmap::keys_unique(self.accounts.view())
        &&& crate::strmap::keys_unique(self.budgets.view())
        &&& forall|i: int|
            0 <= i < self.budgets.view().len() ==> (#[trigger] self.budgets.view()[i]).1.id@
                == self.budgets.view()[i].0
    }

    /// An empty ledger.
    pub fn new() -> (r: Self)
        ensures
            r.wf(),
            r.accounts_view().len() == 0,
            r.budgets_view().len() == 0,
            r.events_view().len() == 0,
            r.applied_view().len() == 0,
            r.meta_view().height == 0 && r.meta_view().timestamp == 0 && r.meta_view().previous_receipt is None,
    {
        let r = LedgerState {
            meta: SnapshotMetadata { height: 0, timestamp: 0, previous_receipt: None },
            accounts: StrMap::new(),
            budgets: StrMap::new(),
            events: Vec::new(),
            applied_receipts: Vec::new(),
        };
        proof {
            assert(r.applied_view() =~= Seq::<Seq<u8>>::empty());
        }
        r
    }

    /// Credit an account, creating it at zero first.
    pub fn credit_account(&mut self, account: &AccountId, amount: Amount)
        requires
            old(self).wf(),
            spec_credit(old(self).accounts_view(), account@, amount) is Some,
        ensures
            final(self).wf(),
            Some(final(self).accounts_view()) == spec_credit(
                old(self).accounts_view(),
                account@,
                amount,
            ),
            final(self).budgets_view() == old(self).budgets_view(),
            final(self).events_view() == old(self).events_view(),
            final(self).meta_view() == old(self).meta_view(),
            final(self).applied_view() == old(self).applied_view(),
    {
        let prev: AccountBalance = match self.accounts.get(account) {
            Some(b) => *b,
            None => AccountBalance { available: 0, locked: 0 },
        };
        let updated = AccountBalance { available: prev.available + amount, locked: prev.locked };
        self.accounts.insert(account.clone(), updated);
        proof {
            crate::strmap::lemma_upsert_get(old(self).accounts_view(), account@, updated);
        }
    }

    /// Debit an account; fails when it is unknown or holds too little,
    /// leaving the state unchanged.
    pub fn debit_account(&mut self, account: &AccountId, amount: Amount) -> (r: Result<
        (),
        LedgerError,
    >)
        requires
            old(self).wf(),
        ensures
            final(self).wf(),
            final(self).budgets_view() == old(self).budgets_view(),
            final(self).events_view() == old(self).events_view(),
            final(self).meta_view() == old(self).meta_view(),
            final(self).applied_view() == old(self).applied_view(),
            r is Ok <==> spec_debit(old(self).accounts_view(), account@, amount) is Ok,
            r is Ok ==> Ok::<_, StepErr>(final(self).accounts_view()) == spec_debit(
                old(self).accounts_view(),
                account@,
                amount,
            ),
            r is Err ==> final(self).accounts_view() == old(self).accounts_view(),
            r matches Err(e) ==> (spec_debit(old(self).accounts_view(), account@, amount) matches
                Err(k) && err_matches(&e, k)),
    {
        let prev: AccountBalance = match self.accounts.get(account) {
            Some(b) => *b,
            None => {
                return Err(LedgerError::UnknownAccount { account: account.clone() });
            },
        };
        if prev.available < amount {
            return Err(LedgerError::InsufficientAccountFunds { account: account.clone() });
        }
        let updated = AccountBalance {
            available: prev.available - amount,
            locked: prev.locked,
        };
        self.accounts.insert(account.clone(), updated);
        Ok(())
    }

    /// Insert or replace a budget, keyed by its identifier.
    pub fn upsert_budget(&mut self, budget: BudgetState)
        requires
            old(self).wf(),
        ensures
            final(self).wf(),
            final(self).budgets_view() == spec_upsert(
                old(self).budgets_view(),
                budget.id@,
                budget,
            ),
            final(self).accounts_view() == old(self).accounts_view(),
            final(self).events_view() == old(self).events_view(),
            final(self).meta_view() == old(self).meta_view(),
            final(self).applied_view() == old(self).applied_view(),
    {
        let key = budget.id.clone();
        let ghost oldv = self.budgets.view();
        let ghost bid = budget.id@;
        self.budgets.insert(key, budget);
        proof {
            crate::strmap::lemma_upsert_get(oldv, bid, budget);
            let newv = self.budgets.view();
            assert forall|i: int| 0 <= i < newv.len() implies (#[trigger] newv[i]).1.id@
                == newv[i].0 by {
                if crate::strmap::map_has(oldv, bid) {
                    let p = crate::strmap::map_idx(oldv, bid);
                    if i != p {
                        assert(newv[i] == oldv[i]);
                    }
                } else {
                    if i < oldv.len() {
                        assert(newv[i] == oldv[i]);
                    }
                }
            }
        }
    }

    /// Deep-copy the maps and commit them: the snapshot's root is the
    /// ledger Merkle root over the account and budget leaves in entry
    /// order.
    pub fn snapshot(&self) -> (r: LedgerSnapshot)
        requires
            self.wf(),
        ensures
            r.merkle_root@ == ledger_merkle_root(
                ledger_leaves(self.accounts_view(), self.budgets_view()),
            ),
            meta_matches(r.meta, self.meta_view()),
    {
        let mut leaves: Vec<Vec<u8>> = Vec::new();
        let ghost acc = self.accounts.view();
        let ghost bud = self.budgets.view();
        let mut i: usize = 0;
        while i < self.accounts.len()
            invariant
                i <= acc.len(),
                acc == self.accounts.view(),
                self.wf(),
                leaves@.len() == i,
                forall|t: int|
                    0 <= t < i ==> (#[trigger] leaves@[t]@) == acct_leaf(acc[t].0, acc[t].1),
            decreases acc.len() - i,
        {
            let key = self.accounts.key_at(i);
            let bal = *self.accounts.val_at(i);
            let mut buf: Vec<u8> = Vec::new();
            buf.push(97u8);
            buf.push(99u8);
            buf.push(99u8);
            buf.push(116u8);
            assert(buf@ =~= seq![97u8, 99u8, 99u8, 116u8]);
            buf.extend_from_slice(key.as_str().as_bytes());
            let mut avail = crate::bytes::u64_to_le_vec(bal.available);
            let mut locked = crate::bytes::u64_to_le_vec(bal.locked);
            buf.append(&mut avail);
            buf.append(&mut locked);
            proof {
                assert(buf@ =~= seq![97u8, 99u8, 99u8, 116u8] + vstd::utf8::encode_utf8(
                    acc[i as int].0,
                ) + crate::bytes::u64_le_bytes(bal.available) + crate::bytes::u64_le_bytes(
                    bal.locked,
                ));
            }
            leaves.push(sha256(&buf));
            i += 1;
        }
        let mut i: usize = 0;
        while i < self.budgets.len()
            invariant
                i <= bud.len(),
                acc == self.accounts.view(),
                bud == self.budgets.view(),
                self.wf(),
                leaves@.len() == acc.len() + i,
                forall|t: int|
                    0 <= t < acc.len() ==> (#[trigger] leaves@[t]@) == acct_leaf(
                        acc[t].0,
                        acc[t].1,
                    ),
                forall|t: int|
                    0 <= t < i ==> (#[trigger] leaves@[acc.len() + t]@) == budget_leaf(
                        bud[t].0,
                        bud[t].1,
                    ),
            decreases bud.len() - i,
        {
            let key = self.budgets.key_at(i);
            let b = self.budgets.val_at(i);
            let mut buf: Vec<u8> = Vec::new();
            buf.push(98u8);
            buf.push(117u8);
            buf.push(100u8);
            buf.push(103u8);
            buf.push(101u8);
            buf.push(116u8);
            assert(buf@ =~= seq![98u8, 117u8, 100u8, 103u8, 101u8, 116u8]);
            buf.extend_from_slice(key.as_str().as_bytes());
            buf.extend_from_slice(b.contract.as_str().as_bytes());
            buf.extend_from_slice(b.steward.as_str().as_bytes());
            let mut avail = crate::bytes::u64_to_le_vec(b.available);
            buf.append(&mut avail);
            proof {
                assert(buf@ =~= seq![98u8, 117u8, 100u8, 103u8, 101u8, 116u8]
                    + vstd::utf8::encode_utf8(bud[i as int].0)
                    + vstd::utf8::encode_utf8(b.contract@)
                    + vstd::utf8::encode_utf8(b.steward@) + crate::bytes::u64_le_bytes(
                    b.available,
                ));
            }
            leaves.push(sha256(&buf));
            i += 1;
        }
        proof {
            assert forall|t: int| 0 <= t < leaves@.len() implies (#[trigger] leaves.deep_view()[t])
                == ledger_leaves(acc, bud)[t] by {
                assert(leaves.deep_view()[t] =~= leaves@[t]@);
                if t < acc.len() {
                    assert(leaves@[t]@ == acct_leaf(acc[t].0, acc[t].1));
                    assert(ledger_leaves(acc, bud)[t] == acct_leaf(acc[t].0, acc[t].1));
                } else {
                    let u = t - acc.len();
                    assert(leaves@[acc.len() + u]@ == budget_leaf(bud[u].0, bud[u].1));
                    assert(ledger_leaves(acc, bud)[t] == budget_leaf(bud[u].0, bud[u].1));
                }
            }
            assert(leaves.deep_view() =~= ledger_leaves(acc, bud));
        }
        let root = build_merkle(leaves);
        LedgerSnapshot {
            meta: self.meta.clone(),
            accounts: self.accounts.clone(),
            budgets: self.budgets.clone(),
            events: self.events.clone(),
            merkle_root: root,
        }
    }
}

/// Event counts are never negative.
pub proof fn lemma_total_events_nonneg(ms: Seq<LedgerMutation>)
    ensures
        total_events(ms) >= 0,
    decreases ms.len(),
{
    if ms.len() > 0 {
        lemma_total_events_nonneg(ms.drop_first());
    }
}

/// Prefix counting: one more mutation adds its own events.
pub proof fn lemma_total_events_take(ms: Seq<LedgerMutation>, i: int)
    requires
        0 <= i < ms.len(),
    ensures
        total_events(ms.take(i + 1)) == total_events(ms.take(i)) + events_of(&ms[i]),
    decreases i,
{
    if i == 0 {
        assert(ms.take(1)[0] == ms[0]);
        assert(ms.take(1).drop_first() =~= ms.take(0));
        assert(ms.take(0).len() == 0);
    } else {
        let rest = ms.drop_first();
        assert(ms.take(i + 1)[0] == ms[0]);
        assert(ms.take(i + 1).drop_first() =~= rest.take(i));
        assert(ms.take(i)[0] == ms[0]);
        assert(ms.take(i).drop_first() =~= rest.take(i - 1));
        lemma_total_events_take(rest, i - 1);
        assert(rest[i - 1] == ms[i]);
    }
}

/// A step after an applied prefix extends the applied prefix.
pub proof fn lemma_apply_rel_snoc(
    acc0: AccView,
    bud0: BudView,
    ms: Seq<LedgerMutation>,
    i: int,
    acc1: AccView,
    bud1: BudView,
    acc2: AccView,
    bud2: BudView,
)
    requires
        0 <= i < ms.len(),
        apply_rel(acc0, bud0, ms.take(i), acc1, bud1),
        step_rel(acc1, bud1, &ms[i], acc2, bud2),
    ensures
        apply_rel(acc0, bud0, ms.take(i + 1), acc2, bud2),
    decreases i,
{
    if i == 0 {
        assert(ms.take(0).len() == 0);
        assert(acc1 == acc0 && bud1 == bud0);
        assert(ms.take(1)[0] == ms[0]);
        assert(ms.take(1).drop_first() =~= ms.take(0));
        let mid = (acc2, bud2);
        assert(step_rel(acc0, bud0, &ms.take(1)[0], mid.0, mid.1));
        assert(apply_rel(mid.0, mid.1, ms.take(1).drop_first(), acc2, bud2));
    } else {
        let rest = ms.drop_first();
        assert(ms.take(i)[0] == ms[0]);
        assert(ms.take(i).drop_first() =~= rest.take(i - 1));
        let mid = choose|mid: (AccView, BudView)|
            #[trigger] step_rel(acc0, bud0, &ms.take(i)[0], mid.0, mid.1) && apply_rel(
                mid.0,
                mid.1,
                ms.take(i).drop_first(),
                acc1,
                bud1,
            );
        assert(rest[i - 1] == ms[i]);
        lemma_apply_rel_snoc(mid.0, mid.1, rest, i - 1, acc1, bud1, acc2, bud2);
        assert(ms.take(i + 1)[0] == ms[0]);
        assert(ms.take(i + 1).drop_first() =~= rest.take(i));
        assert(step_rel(acc0, bud0, &ms.take(i + 1)[0], mid.0, mid.1));
        assert(apply_rel(mid.0, mid.1, ms.take(i + 1).drop_first(), acc2, bud2));
    }
}

impl LedgerState {
    /// Apply a receipt's mutations in order. A receipt already applied is
    /// rejected whole; otherwise each mutation either applies its
    /// transition or stops the run with its error, leaving the earlier
    /// mutations applied. On success the height rises, the receipt is
    /// recorded, and the maps stand in the applied relation.
    #[verifier::loop_isolation(false)]
    pub fn apply_mutations(
        &mut self,
        mutations: &Vec<LedgerMutation>,
        receipt_id: Vec<u8>,
        timestamp: u64,
    ) -> (r: Result<(), LedgerError>)
        requires
            old(self).wf(),
            no_overflow_run(old(self).accounts_view(), old(self).budgets_view(), mutations@),
            old(self).meta_view().height < u64::MAX,
        ensures
            final(self).wf(),
            old(self).applied_view().contains(receipt_id@) ==> (r matches Err(e) && (e
                is DuplicateReceipt) && final(self).accounts_view() == old(self).accounts_view()
                && final(self).budgets_view() == old(self).budgets_view() && final(self).events_view() == old(self).events_view() && final(self).meta_view() == old(self).meta_view() && final(self).applied_view() == old(self).applied_view()),
            !old(self).applied_view().contains(receipt_id@) && r is Ok ==> {
                &&& apply_rel(
                    old(self).accounts_view(),
                    old(self).budgets_view(),
                    mutations@,
                    final(self).accounts_view(),
                    final(self).budgets_view(),
                )
                &&& final(self).events_view().len() == old(self).events_view().len()
                    + total_events(mutations@)
                &&& final(self).events_view().take(old(self).events_view().len() as int) == old(self).events_view()
                &&& final(self).meta_view().height == old(self).meta_view().height + 1
                &&& final(self).meta_view().timestamp == timestamp
                &&& (final(self).meta_view().previous_receipt matches Some(v) && v@ == receipt_id@)
                &&& final(self).applied_view() == old(self).applied_view().push(receipt_id@)
            },
            !old(self).applied_view().contains(receipt_id@) && r is Err && !(r->Err_0
                is DuplicateReceipt) ==> exists|j: int|
                0 <= j < mutations@.len() && #[trigger] apply_rel(
                    old(self).accounts_view(),
                    old(self).budgets_view(),
                    mutations@.take(j),
                    final(self).accounts_view(),
                    final(self).budgets_view(),
                ) && (step_err(
                    final(self).accounts_view(),
                    final(self).budgets_view(),
                    &mutations@[j],
                ) matches Some(k) && err_matches(&r->Err_0, k)) && final(self).meta_view() == old(self).meta_view() && final(self).applied_view() == old(self).applied_view() && final(self).events_view().take(old(self).events_view().len() as int) == old(self).events_view(),
    {
        let ghost acc0 = self.accounts_view();
        let ghost bud0 = self.budgets_view();
        let ghost ev0 = self.events_view();
        let mut di: usize = 0;
        while di < self.applied_receipts.len()
            invariant
                di <= self.applied_view().len(),
                forall|t: int| 0 <= t < di ==> self.applied_view()[t] != receipt_id@,
            decreases self.applied_view().len() - di,
        {
            if crate::bytes::bytes_eq(&self.applied_receipts[di], &receipt_id) {
                proof {
                    assert(self.applied_view()[di as int] == self.applied_receipts@[di as int]@);
                    assert(self.applied_view().contains(receipt_id@));
                }
                return Err(LedgerError::DuplicateReceipt);
            }
            proof {
                assert(self.applied_view()[di as int] == self.applied_receipts@[di as int]@);
            }
            di += 1;
        }
        proof {
            if self.applied_view().contains(receipt_id@) {
                let w = choose|w: int|
                    0 <= w < self.applied_view().len() && self.applied_view()[w] == receipt_id@;
                assert(false);
            }
        }
        proof {
            assert(mutations@.skip(0) =~= mutations@);
            assert(mutations@.take(0) =~= Seq::<LedgerMutation>::empty());
        }
        let mut i: usize = 0;
        while i < mutations.len()
            invariant
                i <= mutations@.len(),
                self.wf(),
                apply_rel(
                    acc0,
                    bud0,
                    mutations@.take(i as int),
                    self.accounts_view(),
                    self.budgets_view(),
                ),
                no_overflow_run(
                    self.accounts_view(),
                    self.budgets_view(),
                    mutations@.skip(i as int),
                ),
                self.events_view().len() == ev0.len() + total_events(mutations@.take(i as int)),
                self.events_view().take(ev0.len() as int) == ev0,
                self.meta_view() == old(self).meta_view(),
                self.applied_view() == old(self).applied_view(),
            decreases mutations@.len() - i,
        {
            let ghost acc_pre = self.accounts_view();
            let ghost bud_pre = self.budgets_view();
            let ghost ev_pre = self.events_view();
            let m = &mutations[i];
            proof {
                assert(mutations@.skip(i as int)[0] == mutations@[i as int]);
                assert(mutations@.skip(i as int).drop_first() =~= mutations@.skip(i as int + 1));
                assert(!(step_err(acc_pre, bud_pre, m) matches Some(k) && k is Overflow));
            }
            match m {
                LedgerMutation::Emit { to, amount, reason } => {
                    self.credit_account(to, *amount);
                    self.events.push(
                        LedgerEvent::Emission {
                            to: to.clone(),
                            amount: *amount,
                            reason: reason.clone(),
                        },
                    );
                    proof {
                        assert(step_rel(
                            acc_pre,
                            bud_pre,
                            m,
                            self.accounts_view(),
                            self.budgets_view(),
                        ));
                    }
                },
                LedgerMutation::Transfer { from, to, amount, memo } => {
                    match self.debit_account(from, *amount) {
                        Ok(()) => {},
                        Err(e) => {
                            return Err(e);
                        },
                    }
                    self.credit_account(to, *amount);
                    self.events.push(
                        LedgerEvent::Transfer {
                            from: from.clone(),
                            to: to.clone(),
                            amount: *amount,
                            memo: clone_memo(memo),
                        },
                    );
                    proof {
                        assert(step_rel(
                            acc_pre,
                            bud_pre,
                            m,
                            self.accounts_view(),
                            self.budgets_view(),
                        ));
                    }
                },
                LedgerMutation::FundBudget { from, budget_id, amount, memo } => {
                    match self.debit_account(from, *amount) {
                        Ok(()) => {},
                        Err(e) => {
                            return Err(e);
                        },
                    }
                    let fresh: BudgetState = match self.budgets.get(budget_id) {
                        Some(b) => {
                            proof {
                                let bv = self.budgets.view();
                                let p = crate::strmap::map_idx(bv, budget_id@);
                                assert(bv[p].1.id@ == bv[p].0);
                            }
                            BudgetState {
                                id: b.id.clone(),
                                contract: b.contract.clone(),
                                steward: b.steward.clone(),
                                available: b.available + *amount,
                            }
                        },
                        None => BudgetState {
                            id: budget_id.clone(),
                            contract: String::new(),
                            steward: from.clone(),
                            available: *amount,
                        },
                    };
                    proof {
                        assert(fresh.id@ == budget_id@);
                    }
                    self.upsert_budget(fresh);
                    self.events.push(
                        LedgerEvent::BudgetFunded {
                            from: from.clone(),
                            budget_id: budget_id.clone(),
                            amount: *amount,
                            memo: clone_memo(memo),
                        },
                    );
                    proof {
                        assert(step_rel(
                            acc_pre,
                            bud_pre,
                            m,
                            self.accounts_view(),
                            self.budgets_view(),
                        ));
                    }
                },
                LedgerMutation::SpendBudget { budget_id, plan } => {
                    let info: BudgetState = match self.budgets.get(budget_id) {
                        Some(b) => {
                            proof {
                                let bv = self.budgets.view();
                                let p = crate::strmap::map_idx(bv, budget_id@);
                                assert(bv[p].1.id@ == bv[p].0);
                            }
                            BudgetState {
                                id: b.id.clone(),
                                contract: b.contract.clone(),
                                steward: b.steward.clone(),
                                available: b.available,
                            }
                        },
                        None => {
                            return Err(
                                LedgerError::UnknownBudget { budget_id: budget_id.clone() },
                            );
                        },
                    };
                    let total = plan.total_amount();
                    if info.available < total {
                        return Err(
                            LedgerError::InsufficientBudgetFunds { budget_id: budget_id.clone() },
                        );
                    }
                    let updated = BudgetState {
                        id: info.id,
                        contract: info.contract,
                        steward: info.steward,
                        available: info.available - total,
                    };
                    proof {
                        assert(updated.id@ == map_get(bud_pre, budget_id@).id@);
                        assert(map_get(bud_pre, budget_id@).id@ == budget_id@);
                    }
                    self.upsert_budget(updated);
                    let ghost bud_mid = self.budgets_view();
                    let mut j: usize = 0;
                    proof {
                        assert(plan.transfers@.skip(0) =~= plan.transfers@);
                    }
                    while j < plan.transfers.len()
                        invariant
                            j <= plan.transfers@.len(),
                            self.wf(),
                            self.budgets_view() == bud_mid,
                            spec_credit_transfers(
                                self.accounts_view(),
                                plan.transfers@.skip(j as int),
                            ) == spec_credit_transfers(acc_pre, plan.transfers@),
                            spec_credit_transfers(acc_pre, plan.transfers@) is Some,
                            self.events_view().len() == ev_pre.len() + j,
                            self.events_view().take(ev_pre.len() as int) == ev_pre,
                            self.meta_view() == old(self).meta_view(),
                            self.applied_view() == old(self).applied_view(),
                        decreases plan.transfers@.len() - j,
                    {
                        let tr = &plan.transfers[j];
                        proof {
                            assert(plan.transfers@.skip(j as int)[0] == plan.transfers@[j as int]);
                            assert(plan.transfers@.skip(j as int).drop_first()
                                =~= plan.transfers@.skip(j as int + 1));
                        }
                        self.credit_account(&tr.to, tr.amount);
                        self.events.push(
                            LedgerEvent::BudgetDebited {
                                budget_id: budget_id.clone(),
                                to: tr.to.clone(),
                                amount: tr.amount,
                                memo: clone_memo(&tr.memo),
                            },
                        );
                        proof {
                            assert(self.events_view().take(ev_pre.len() as int) =~= ev_pre);
                        }
                        j += 1;
                    }
                    proof {
                        assert(plan.transfers@.skip(plan.transfers@.len() as int)
                            =~= Seq::<BudgetTransfer>::empty());
                        assert(Some(self.accounts_view()) == spec_credit_transfers(
                            acc_pre,
                            plan.transfers@,
                        ));
                        assert(step_rel(
                            acc_pre,
                            bud_pre,
                            m,
                            self.accounts_view(),
                            self.budgets_view(),
                        ));
                    }
                },
                LedgerMutation::ApplyReferralPayouts { contract, payouts } => {
                    let mut j: usize = 0;
                    proof {
                        assert(payouts@.skip(0) =~= payouts@);
                    }
                    while j < payouts.len()
                        invariant
                            j <= payouts@.len(),
                            self.wf(),
                            self.budgets_view() == bud_pre,
                            spec_credit_payouts(self.accounts_view(), payouts@.skip(j as int))
                                == spec_credit_payouts(acc_pre, payouts@),
                            spec_credit_payouts(acc_pre, payouts@) is Some,
                            self.events_view().len() == ev_pre.len() + j,
                            self.events_view().take(ev_pre.len() as int) == ev_pre,
                            self.meta_view() == old(self).meta_view(),
                            self.applied_view() == old(self).applied_view(),
                        decreases payouts@.len() - j,
                    {
                        let p = &payouts[j];
                        proof {
                            assert(payouts@.skip(j as int)[0] == payouts@[j as int]);
                            assert(payouts@.skip(j as int).drop_first() =~= payouts@.skip(
                                j as int + 1,
                            ));
                        }
                        self.credit_account(&p.recipient, p.amount);
                        self.events.push(
                            LedgerEvent::ReferralPayout {
                                contract: contract.clone(),
                                recipient: p.recipient.clone(),
                                amount: p.amount,
                                level: p.level,
                            },
                        );
                        proof {
                            assert(self.events_view().take(ev_pre.len() as int) =~= ev_pre);
                        }
                        j += 1;
                    }
                    proof {
                        assert(payouts@.skip(payouts@.len() as int)
                            =~= Seq::<ReferralPayout>::empty());
                        assert(Some(self.accounts_view()) == spec_credit_payouts(
                            acc_pre,
                            payouts@,
                        ));
                        assert(step_rel(
                            acc_pre,
                            bud_pre,
                            m,
                            self.accounts_view(),
                            self.budgets_view(),
                        ));
                    }
                },
            }
            proof {
                lemma_apply_rel_snoc(
                    acc0,
                    bud0,
                    mutations@,
                    i as int,
                    acc_pre,
                    bud_pre,
                    self.accounts_view(),
                    self.budgets_view(),
                );
                lemma_total_events_take(mutations@, i as int);
                let mid = (self.accounts_view(), self.budgets_view());
                assert(step_rel(acc_pre, bud_pre, &mutations@.skip(i as int)[0], mid.0, mid.1));
                assert(no_overflow_run(mid.0, mid.1, mutations@.skip(i as int).drop_first()));
                assert(mutations@.skip(i as int).drop_first() =~= mutations@.skip(i as int + 1));
                lemma_total_events_nonneg(mutations@.take(i as int));
                assert(ev0.len() <= ev_pre.len());
                assert forall|t: int| 0 <= t < ev0.len() implies self.events_view()[t]
                    == ev0[t] by {
                    assert(self.events_view().take(ev_pre.len() as int)[t] == ev_pre[t]);
                    assert(ev_pre.take(ev0.len() as int)[t] == ev0[t]);
                }
                assert(self.events_view().take(ev0.len() as int) =~= ev0);
            }
            i += 1;
        }
        proof {
            assert(mutations@.take(mutations@.len() as int) =~= mutations@);
        }
        self.meta.height = self.meta.height + 1;
        self.meta.timestamp = timestamp;
        let parent = crate::crypto::clone_bytes(&receipt_id);
        self.meta.previous_receipt = Some(parent);
        let ghost pre_vec = self.applied_receipts@;
        self.applied_receipts.push(receipt_id);
        proof {
            let av = self.applied_view();
            let prev = old(self).applied_view();
            assert forall|t: int| 0 <= t < prev.len() implies prev[t] == pre_vec[t]@ by {
                assert(prev[t] =~= pre_vec[t]@);
            }
            assert(av.len() == prev.len() + 1);
            assert forall|t: int| 0 <= t < av.len() implies av[t] == prev.push(receipt_id@)[t] by {
                assert(av[t] =~= self.applied_receipts@[t]@);
                if t < prev.len() {
                    assert(self.applied_receipts@[t] == pre_vec[t]);
                    assert(prev[t] =~= pre_vec[t]@);
                }
            }
            assert(av =~= prev.push(receipt_id@));
        }
        Ok(())
    }
}

/// A well-formed ledger keeps its account and budget keys unique; exported
/// so callers can turn the map postconditions into per-key facts.
pub proof fn lemma_wf_keys_unique(l: &LedgerState)
    requires
        l.wf(),
    ensures
        crate::strmap::keys_unique(l.accounts_view()),
        crate::strmap::keys_unique(l.budgets_view()),
{
}

/// Copy an optional memo string.
fn clone_memo(m: &Option<String>) -> (r: Option<String>)
    ensures
        r is Some <==> m is Some,
        r matches Some(v) ==> (m matches Some(w) && v@ == w@),
{
    match m {
        Some(s) => Some(s.clone()),
        None => None,
    }
}


} // verus!
