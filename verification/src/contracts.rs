//! Contract definitions, budget spend plans and the referral engine that
//! turns work payouts into ledger mutations.

use vstd::prelude::*;

use vstd::string::StringExecFns;

use crate::ledger::LedgerMutation;
use crate::strmap::{map_get, map_has, spec_upsert, StrMap};

verus! {

/// Referral schedule: basis points per level, a floor per payout, and
/// optional caps on depth and fan-out.
#[derive(Clone, Debug)]
pub struct ReferralConfig {
    pub levels_bps: Vec<u32>,
    pub minimum_payout: u64,
    pub level_cap: Option<u32>,
    pub participant_quota: Option<u32>,
}

impl ReferralConfig {
    /// How many referral levels can pay out: the cap when set, the number
    /// of configured levels otherwise.
    pub fn max_depth(&self) -> (r: usize)
        ensures
            r == (match self.level_cap {
                Some(cap) => cap as int,
                None => self.levels_bps@.len() as int,
            }),
    {
        match self.level_cap {
            Some(cap) => cap as usize,
            None => self.levels_bps.len(),
        }
    }
}

/// One referral payout: who, how much, and at which level.
#[derive(Clone, Debug)]
pub struct ReferralPayout {
    pub recipient: String,
    pub amount: u64,
    pub level: u32,
}

/// One transfer out of a budget.
#[derive(Clone, Debug)]
pub struct BudgetTransfer {
    pub to: String,
    pub amount: u64,
    pub memo: Option<String>,
}

/// A set of transfers drawn from one budget.
#[derive(Clone, Debug)]
pub struct BudgetSpendPlan {
    pub transfers: Vec<BudgetTransfer>,
}

/// The sum of the transfer amounts.
pub open spec fn sum_amounts(ts: Seq<BudgetTransfer>) -> int
    decreases ts.len(),
{
    if ts.len() == 0 {
        0
    } else {
        sum_amounts(ts.drop_last()) + ts.last().amount
    }
}

/// Partial sums never exceed the total.
pub proof fn lemma_sum_amounts_take(ts: Seq<BudgetTransfer>, i: int)
    requires
        0 <= i < ts.len(),
    ensures
        sum_amounts(ts.take(i + 1)) == sum_amounts(ts.take(i)) + ts[i].amount,
    decreases ts.len(),
{
    assert(ts.take(i + 1).drop_last() =~= ts.take(i));
    assert(ts.take(i + 1).last() == ts[i]);
}

impl Default for BudgetSpendPlan {
    /// An empty plan.
    fn default() -> (r: Self)
        ensures
            r.transfers@.len() == 0,
    {
        BudgetSpendPlan { transfers: Vec::new() }
    }
}

impl BudgetSpendPlan {
    /// Total amount the plan draws from its budget.
    pub fn total_amount(&self) -> (r: u64)
        requires
            sum_amounts(self.transfers@) <= u64::MAX,
        ensures
            r == sum_amounts(self.transfers@),
    {
        let mut total: u64 = 0;
        let mut i: usize = 0;
        proof {
            assert(self.transfers@.take(0) =~= Seq::<BudgetTransfer>::empty());
        }
        while i < self.transfers.len()
            invariant
                i <= self.transfers@.len(),
                total == sum_amounts(self.transfers@.take(i as int)),
                sum_amounts(self.transfers@) <= u64::MAX,
            decreases self.transfers@.len() - i,
        {
            proof {
                lemma_sum_amounts_take(self.transfers@, i as int);
                lemma_sum_prefix_bound(self.transfers@, i as int + 1);
                lemma_sum_nonneg(self.transfers@.take(i as int));
            }
            total = total + self.transfers[i].amount;
            i += 1;
        }
        proof {
            assert(self.transfers@.take(self.transfers@.len() as int) =~= self.transfers@);
        }
        total
    }
}

/// Every transfer amount is non-negative, so sums are monotone.
pub proof fn lemma_sum_nonneg(ts: Seq<BudgetTransfer>)
    ensures
        sum_amounts(ts) >= 0,
    decreases ts.len(),
{
    if ts.len() > 0 {
        lemma_sum_nonneg(ts.drop_last());
    }
}

/// A prefix sum is at most the whole sum.
pub proof fn lemma_sum_prefix_bound(ts: Seq<BudgetTransfer>, i: int)
    requires
        0 <= i <= ts.len(),
    ensures
        sum_amounts(ts.take(i)) <= sum_amounts(ts),
    decreases ts.len() - i,
{
    if i == ts.len() {
        assert(ts.take(i) =~= ts);
    } else {
        lemma_sum_amounts_take(ts, i);
        lemma_sum_prefix_bound(ts, i + 1);
    }
}

/// Sponsor links between accounts, with optional per-sponsor quotas.
pub struct ReferralTree {
    sponsors: StrMap<String>,
    quotas: StrMap<u32>,
}

impl ReferralTree {
    /// The sponsor of each linked account.
    pub closed spec fn sponsors_view(&self) -> Seq<(Seq<char>, String)> {
        self.sponsors.view()
    }

    /// The recorded quota counters.
    pub closed spec fn quotas_view(&self) -> Seq<(Seq<char>, u32)> {
        self.quotas.view()
    }

    /// Both maps keep their keys unique.
    pub open spec fn wf(&self) -> bool {
        crate::strmap::keys_unique(self.sponsors_view()) && crate::strmap::keys_unique(
            self.quotas_view(),
        )
    }

    /// An empty tree.
    pub fn new() -> (r: Self)
        ensures
            r.wf(),
            r.sponsors_view().len() == 0,
            r.quotas_view().len() == 0,
    {
        ReferralTree { sponsors: StrMap::new(), quotas: StrMap::new() }
    }

    /// Record that `sponsor` invited `invitee`; when a fan-out cap is given,
    /// bump the sponsor's counter, saturating at the cap.
    pub fn link(&mut self, sponsor: String, invitee: String, max_children: Option<u32>)
        requires
            old(self).wf(),
        ensures
            final(self).wf(),
            final(self).sponsors_view() == spec_upsert(
                old(self).sponsors_view(),
                invitee@,
                sponsor,
            ),
            max_children is None ==> final(self).quotas_view() == old(self).quotas_view(),
            max_children matches Some(cap) ==> final(self).quotas_view() == spec_upsert(
                old(self).quotas_view(),
                sponsor@,
                ({
                    let cur: u32 = if map_has(old(self).quotas_view(), sponsor@) {
                        map_get(old(self).quotas_view(), sponsor@)
                    } else {
                        0u32
                    };
                    let bumped: u32 = if cur == u32::MAX {
                        u32::MAX
                    } else {
                        (cur + 1) as u32
                    };
                    if bumped < cap {
                        bumped
                    } else {
                        cap
                    }
                }),
            ),
    {
        let sponsor_copy = sponsor.clone();
        self.sponsors.insert(invitee, sponsor);
        match max_children {
            Some(cap) => {
                let cur: u32 = match self.quotas.get(&sponsor_copy) {
                    Some(v) => *v,
                    None => 0,
                };
                let bumped: u32 = if cur == u32::MAX {
                    u32::MAX
                } else {
                    cur + 1
                };
                let capped: u32 = if bumped < cap {
                    bumped
                } else {
                    cap
                };
                self.quotas.insert(sponsor_copy, capped);
            },
            None => {},
        }
    }

    /// The sponsor chain above `node`, stopping at `limit` links, at the
    /// first repeated sponsor, or at an account with no sponsor.
    pub open spec fn spec_ancestry(
        sponsors: Seq<(Seq<char>, String)>,
        node: Seq<char>,
        seen: Seq<Seq<char>>,
        limit: int,
    ) -> Seq<Seq<char>>
        decreases limit - seen.len() + 1,
    {
        if seen.len() > limit || !map_has(sponsors, node) {
            Seq::empty()
        } else {
            let parent = map_get(sponsors, node)@;
            if seen.contains(parent) {
                Seq::empty()
            } else if seen.len() + 1 >= limit + 1 && limit >= 1 {
                seq![parent]
            } else if limit == 0 {
                seq![parent]
            } else {
                seq![parent] + Self::spec_ancestry(sponsors, parent, seen.push(parent), limit)
            }
        }
    }

    /// Walk the sponsor chain upward from `node`, at most `limit` steps,
    /// stopping at a cycle or a missing link. Each returned account is the
    /// recorded sponsor of the account one step below it.
    pub fn ancestry(&self, node: String, limit: usize) -> (r: Vec<String>)
        requires
            self.wf(),
        ensures
            r@.len() <= limit || (limit == 0 && r@.len() <= 1),
            forall|i: int|
                0 <= i < r@.len() ==> chain_link(
                    self.sponsors_view(),
                    node@,
                    r@,
                    i,
                ),
            (limit >= 1 && r@.len() < limit) ==> ({
                let endk = if r@.len() == 0 {
                    node@
                } else {
                    (r@[r@.len() - 1])@
                };
                !map_has(self.sponsors_view(), endk) || (exists|t: int|
                    0 <= t < r@.len() && (#[trigger] r@[t])@ == map_get(
                        self.sponsors_view(),
                        endk,
                    )@)
            }),
    {
        let mut chain: Vec<String> = Vec::new();
        let mut visited: Vec<String> = Vec::new();
        let mut cur = node;
        let ghost node_view = cur@;
        loop
            invariant_except_break
                limit >= 1 ==> chain@.len() < limit,
                limit == 0 ==> chain@.len() == 0,
                cur@ == if chain@.len() == 0 {
                    node_view
                } else {
                    chain@[chain@.len() - 1]@
                },
            invariant
                self.wf(),
                node_view == node@,
                chain@.len() <= limit || (limit == 0 && chain@.len() <= 1),
                forall|i: int|
                    0 <= i < chain@.len() ==> chain_link(self.sponsors_view(), node_view, chain@, i),
                visited@.len() == chain@.len(),
                forall|t: int| 0 <= t < visited@.len() ==> (#[trigger] visited@[t])@ == chain@[t]@,
            ensures
                chain@.len() <= limit || (limit == 0 && chain@.len() <= 1),
                (limit >= 1 && chain@.len() < limit) ==> ({
                    let endk = if chain@.len() == 0 {
                        node_view
                    } else {
                        (chain@[chain@.len() - 1])@
                    };
                    !map_has(self.sponsors_view(), endk) || (exists|t: int|
                        0 <= t < chain@.len() && (#[trigger] chain@[t])@ == map_get(
                            self.sponsors_view(),
                            endk,
                        )@)
                }),
            decreases limit - chain@.len(),
        {
            let parent = match self.sponsors.get(&cur) {
                Some(p) => p.clone(),
                None => {
                    break ;
                },
            };
            let mut dup = false;
            let mut vi: usize = 0;
            while vi < visited.len()
                invariant
                    vi <= visited@.len(),
                    dup == exists|u: int|
                        0 <= u < vi && (#[trigger] visited@[u])@ == parent@,
                decreases visited@.len() - vi,
            {
                if visited[vi] == parent {
                    dup = true;
                }
                vi += 1;
            }
            if dup {
                proof {
                    let u = choose|u: int|
                        0 <= u < visited@.len() && (#[trigger] visited@[u])@ == parent@;
                    assert(chain@[u]@ == parent@);
                }
                break ;
            }
            let ghost pre_chain = chain@;
            visited.push(parent.clone());
            chain.push(parent.clone());
            proof {
                assert forall|i: int| 0 <= i < chain@.len() implies chain_link(
                    self.sponsors_view(),
                    node_view,
                    chain@,
                    i,
                ) by {
                    if i < pre_chain.len() {
                        assert(chain_link(self.sponsors_view(), node_view, pre_chain, i));
                        assert(chain@[i] == pre_chain[i]);
                        if i > 0 {
                            assert(chain@[i - 1] == pre_chain[i - 1]);
                        }
                    } else {
                        assert(chain@[i]@ == parent@);
                    }
                }
            }
            if chain.len() >= limit {
                break ;
            }
            cur = parent;
        }
        chain
    }
}

/// Element `i` of an ancestry chain is the sponsor recorded for the
/// element below it (the start node for the first element).
pub open spec fn chain_link(
    sponsors: Seq<(Seq<char>, String)>,
    node: Seq<char>,
    chain: Seq<String>,
    i: int,
) -> bool {
    let prev = if i == 0 {
        node
    } else {
        chain[i - 1]@
    };
    map_has(sponsors, prev) && chain[i]@ == map_get(sponsors, prev)@
}

/// The account `t` links above `node`: the sponsor of the sponsor, `t`
/// times.
pub open spec fn ancestor_view(
    sponsors: Seq<(Seq<char>, String)>,
    node: Seq<char>,
    t: nat,
) -> Seq<char>
    decreases t,
{
    if t == 0 {
        node
    } else {
        map_get(sponsors, ancestor_view(sponsors, node, (t - 1) as nat))@
    }
}

/// The first `t` links above `node` are all recorded.
pub open spec fn ancestors_known(
    sponsors: Seq<(Seq<char>, String)>,
    node: Seq<char>,
    t: nat,
) -> bool
    decreases t,
{
    if t == 0 {
        true
    } else {
        ancestors_known(sponsors, node, (t - 1) as nat) && map_has(
            sponsors,
            ancestor_view(sponsors, node, (t - 1) as nat),
        )
    }
}

/// Knowing `t` ancestor links includes knowing every shorter prefix, and
/// in particular the link out of each shallower ancestor.
pub proof fn lemma_ancestors_known_prefix(
    sponsors: Seq<(Seq<char>, String)>,
    node: Seq<char>,
    t: nat,
    u: nat,
)
    requires
        ancestors_known(sponsors, node, t),
        u < t,
    ensures
        map_has(sponsors, ancestor_view(sponsors, node, u)),
    decreases t,
{
    if u + 1 < t {
        lemma_ancestors_known_prefix(sponsors, node, (t - 1) as nat, u);
    }
}

/// A linked chain lists exactly the recorded ancestors, in order.
pub proof fn lemma_chain_is_ancestors(
    sponsors: Seq<(Seq<char>, String)>,
    node: Seq<char>,
    chain: Seq<String>,
    i: int,
)
    requires
        0 <= i < chain.len(),
        forall|t: int| 0 <= t < chain.len() ==> chain_link(sponsors, node, chain, t),
    ensures
        ancestors_known(sponsors, node, (i + 1) as nat),
        chain[i]@ == ancestor_view(sponsors, node, (i + 1) as nat),
    decreases i,
{
    if i == 0 {
        assert(chain_link(sponsors, node, chain, 0));
        assert(ancestor_view(sponsors, node, 0) == node);
        assert(ancestors_known(sponsors, node, 0));
        assert(ancestor_view(sponsors, node, 1) == map_get(
            sponsors,
            ancestor_view(sponsors, node, 0),
        )@);
        assert(ancestors_known(sponsors, node, 1) == (ancestors_known(sponsors, node, 0)
            && map_has(sponsors, ancestor_view(sponsors, node, 0))));
    } else {
        lemma_chain_is_ancestors(sponsors, node, chain, i - 1);
        assert(chain_link(sponsors, node, chain, i));
        assert(chain[i - 1]@ == ancestor_view(sponsors, node, i as nat));
        assert(ancestor_view(sponsors, node, (i + 1) as nat) == map_get(
            sponsors,
            ancestor_view(sponsors, node, i as nat),
        )@);
        assert(ancestors_known(sponsors, node, (i + 1) as nat) == (ancestors_known(
            sponsors,
            node,
            i as nat,
        ) && map_has(sponsors, ancestor_view(sponsors, node, i as nat))));
    }
}

/// Payout levels come out strictly increasing.
pub open spec fn payouts_ordered(ps: Seq<ReferralPayout>) -> bool {
    forall|j1: int, j2: int|
        0 <= j1 < j2 < ps.len() ==> (#[trigger] ps[j1]).level < (#[trigger] ps[j2]).level
}

/// Every level that qualifies — within the schedule and the depth cap, with
/// its ancestors recorded and distinct, non-zero basis points and an amount
/// at or above the floor — is paid.
pub open spec fn payouts_complete(
    levels: Seq<u32>,
    min_payout: int,
    depth: int,
    sponsors: Seq<(Seq<char>, String)>,
    origin: Seq<char>,
    trigger: u64,
    ps: Seq<ReferralPayout>,
) -> bool {
    forall|lv: int|
        (1 <= lv && lv <= levels.len() && lv <= depth && ancestors_known(
            sponsors,
            origin,
            lv as nat,
        ) && (forall|u1: int, u2: int|
            1 <= u1 < u2 <= lv ==> #[trigger] ancestor_view(sponsors, origin, u1 as nat)
                != #[trigger] ancestor_view(sponsors, origin, u2 as nat)) && (
        #[trigger] levels[lv - 1]) > 0 && bps_amount(trigger as int, levels[lv - 1] as int)
            >= min_payout) ==> exists|j: int| 0 <= j < ps.len() && (#[trigger] ps[j]).level == lv
}

/// Referral payout engine bound to a configuration and a tree.
pub struct ReferralEngine<'a> {
    config: &'a ReferralConfig,
    tree: &'a ReferralTree,
}

/// The payout a chain position yields: amount in basis points of the
/// trigger, rounded down.
pub open spec fn bps_amount(trigger: int, bps: int) -> int {
    trigger * bps / 10000
}

impl<'a> ReferralEngine<'a> {
    /// Bind the engine to its configuration and tree.
    pub fn new(config: &'a ReferralConfig, tree: &'a ReferralTree) -> (r: Self)
        ensures
            r.config_is(config) && r.tree_is(tree),
    {
        ReferralEngine { config, tree }
    }

    /// The engine reads this configuration.
    pub closed spec fn config_is(&self, c: &ReferralConfig) -> bool {
        self.config == c
    }

    /// The engine reads this tree.
    pub closed spec fn tree_is(&self, t: &ReferralTree) -> bool {
        self.tree == t
    }

    /// Compute the referral payouts a trigger amount owes along the
    /// ancestry of `origin`: one payout per configured level with non-zero
    /// basis points, skipping amounts under the configured floor.
    pub fn calculate_payouts(&self, trigger_amount: u64, origin: &String) -> (r: Vec<
        ReferralPayout,
    >)
        requires
            self.tree_wf(),
            self.levels_view().len() <= u32::MAX,
            forall|i: int|
                0 <= i < self.levels_view().len() ==> trigger_amount * (
                #[trigger] self.levels_view()[i]) <= u64::MAX,
        ensures
            trigger_amount == 0 ==> r@.len() == 0,
            forall|j: int|
                0 <= j < r@.len() ==> {
                    let p = #[trigger] r@[j];
                    &&& 1 <= p.level
                    &&& p.level <= self.levels_view().len()
                    &&& p.amount == bps_amount(
                        trigger_amount as int,
                        self.levels_view()[p.level - 1] as int,
                    )
                    &&& p.amount >= self.min_payout_view()
                    &&& self.levels_view()[p.level - 1] > 0
                    &&& ancestors_known(self.sponsors(), origin@, p.level as nat)
                    &&& p.recipient@ == ancestor_view(self.sponsors(), origin@, p.level as nat)
                },
            payouts_ordered(r@),
            trigger_amount >= 1 ==> payouts_complete(
                self.levels_view(),
                self.min_payout_view(),
                self.depth_view(),
                self.sponsors(),
                origin@,
                trigger_amount,
                r@,
            ),
    {
        if trigger_amount == 0 {
            return Vec::new();
        }
        let depth = self.config.max_depth();
        let levels = if self.config.levels_bps.len() < depth {
            self.config.levels_bps.len()
        } else {
            depth
        };
        proof {
            assert(levels <= self.levels_view().len());
            assert(levels as int == if self.levels_view().len() < self.depth_view() {
                self.levels_view().len() as int
            } else {
                self.depth_view()
            });
        }
        let chain = self.tree.ancestry(origin.clone(), levels);
        proof {
            assert forall|t: int| 0 <= t < chain@.len() implies #[trigger] ancestors_known(
                self.sponsors(),
                origin@,
                (t + 1) as nat,
            ) by {
                lemma_chain_is_ancestors(self.sponsors(), origin@, chain@, t);
            }
            assert forall|t: int| 0 <= t < chain@.len() implies (#[trigger] chain@[t])@
                == ancestor_view(self.sponsors(), origin@, (t + 1) as nat) by {
                lemma_chain_is_ancestors(self.sponsors(), origin@, chain@, t);
            }
        }
        let mut payouts: Vec<ReferralPayout> = Vec::new();
        let mut idx: usize = 0;
        while idx < chain.len() && idx < self.config.levels_bps.len()
            invariant
                idx <= chain@.len(),
                trigger_amount >= 1,
                self.levels_view().len() <= u32::MAX,
                forall|i: int|
                    0 <= i < self.levels_view().len() ==> trigger_amount * (
                    #[trigger] self.levels_view()[i]) <= u64::MAX,
                forall|t: int|
                    0 <= t < chain@.len() ==> #[trigger] ancestors_known(
                        self.sponsors(),
                        origin@,
                        (t + 1) as nat,
                    ),
                forall|t: int|
                    0 <= t < chain@.len() ==> (#[trigger] chain@[t])@ == ancestor_view(
                        self.sponsors(),
                        origin@,
                        (t + 1) as nat,
                    ),
                forall|j: int|
                    0 <= j < payouts@.len() ==> {
                        let p = #[trigger] payouts@[j];
                        &&& 1 <= p.level
                        &&& p.level <= self.levels_view().len()
                        &&& p.amount == bps_amount(
                            trigger_amount as int,
                            self.levels_view()[p.level - 1] as int,
                        )
                        &&& p.amount >= self.min_payout_view()
                        &&& self.levels_view()[p.level - 1] > 0
                        &&& ancestors_known(self.sponsors(), origin@, p.level as nat)
                        &&& p.recipient@ == ancestor_view(self.sponsors(), origin@, p.level as nat)
                    },
                forall|j: int| 0 <= j < payouts@.len() ==> (#[trigger] payouts@[j]).level <= idx,
                payouts_ordered(payouts@),
                forall|lv: int|
                    (1 <= lv && lv <= idx && lv <= self.levels_view().len() && (
                    #[trigger] self.levels_view()[lv - 1]) > 0 && bps_amount(
                        trigger_amount as int,
                        self.levels_view()[lv - 1] as int,
                    ) >= self.min_payout_view()) ==> exists|j: int|
                        0 <= j < payouts@.len() && (#[trigger] payouts@[j]).level == lv,
            decreases chain@.len() - idx,
        {
            let bps = self.config.levels_bps[idx];
            proof {
                assert(bps == self.levels_view()[idx as int]);
                assert(trigger_amount * bps <= u64::MAX);
            }
            if bps != 0 {
                let amount = trigger_amount * (bps as u64) / 10000;
                proof {
                    vstd::arithmetic::div_mod::lemma_div_nonincreasing(
                        (trigger_amount * bps) as int,
                        10000,
                    );
                    assert(amount as int == bps_amount(trigger_amount as int, bps as int));
                }
                if amount >= self.config.minimum_payout {
                    let level: u32 = (idx + 1) as u32;
                    proof {
                        assert(idx < self.levels_view().len());
                        assert(level == idx + 1);
                        assert(self.levels_view()[level - 1] == bps);
                    }
                    let ghost pre_payouts = payouts@;
                    payouts.push(ReferralPayout { recipient: chain[idx].clone(), amount, level });
                    proof {
                        assert(payouts@[payouts@.len() - 1].level == idx + 1);
                        assert forall|lv: int|
                            (1 <= lv && lv <= idx && lv <= self.levels_view().len() && (
                            #[trigger] self.levels_view()[lv - 1]) > 0 && bps_amount(
                                trigger_amount as int,
                                self.levels_view()[lv - 1] as int,
                            ) >= self.min_payout_view()) implies exists|j: int|
                                0 <= j < payouts@.len() && (#[trigger] payouts@[j]).level
                                    == lv by {
                            let j0 = choose|j: int|
                                0 <= j < pre_payouts.len() && (#[trigger] pre_payouts[j]).level
                                    == lv;
                            assert(payouts@[j0] == pre_payouts[j0]);
                        }
                    }
                } else {
                    proof {
                        assert(bps_amount(trigger_amount as int, bps as int)
                            < self.min_payout_view());
                    }
                }
            }
            idx += 1;
        }
        proof {
            assert(idx == chain@.len() || idx == self.levels_view().len());
            if trigger_amount >= 1 {
                assert forall|lv: int|
                    (1 <= lv && lv <= self.levels_view().len() && lv <= self.depth_view()
                        && ancestors_known(self.sponsors(), origin@, lv as nat) && (forall|
                        u1: int,
                        u2: int,
                    |
                        1 <= u1 < u2 <= lv ==> #[trigger] ancestor_view(
                            self.sponsors(),
                            origin@,
                            u1 as nat,
                        ) != #[trigger] ancestor_view(self.sponsors(), origin@, u2 as nat)) && (
                    #[trigger] self.levels_view()[lv - 1]) > 0 && bps_amount(
                        trigger_amount as int,
                        self.levels_view()[lv - 1] as int,
                    ) >= self.min_payout_view()) implies exists|j: int|
                        0 <= j < payouts@.len() && (#[trigger] payouts@[j]).level == lv by {
                    assert(lv <= levels);
                    if lv > idx {
                        assert(lv <= self.levels_view().len());
                        assert(idx == chain@.len());
                        assert(chain@.len() < lv <= levels);
                        assert(levels >= 1);
                        let endk = if chain@.len() == 0 {
                            origin@
                        } else {
                            (chain@[chain@.len() - 1])@
                        };
                        assert(endk == ancestor_view(
                            self.sponsors(),
                            origin@,
                            chain@.len() as nat,
                        )) by {
                            if chain@.len() == 0 {
                                assert(ancestor_view(self.sponsors(), origin@, 0) == origin@);
                            }
                        }
                        assert(map_has(self.sponsors(), endk)) by {
                            lemma_ancestors_known_prefix(
                                self.sponsors(),
                                origin@,
                                lv as nat,
                                chain@.len() as nat,
                            );
                        }
                        let w = choose|w: int|
                            0 <= w < chain@.len() && (#[trigger] chain@[w])@ == map_get(
                                self.sponsors(),
                                endk,
                            )@;
                        assert(chain@[w]@ == ancestor_view(self.sponsors(), origin@, (w + 1) as nat));
                        assert(map_get(self.sponsors(), endk)@ == ancestor_view(
                            self.sponsors(),
                            origin@,
                            (chain@.len() + 1) as nat,
                        ));
                        assert(ancestor_view(self.sponsors(), origin@, (w + 1) as nat)
                            == ancestor_view(
                            self.sponsors(),
                            origin@,
                            (chain@.len() + 1) as nat,
                        ));
                        assert(1 <= w + 1 < chain@.len() + 1 <= lv);
                        assert(false);
                    }
                }
            }
        }
        payouts
    }

    /// The configured per-level basis points.
    pub closed spec fn levels_view(&self) -> Seq<u32> {
        self.config.levels_bps@
    }

    /// The configured minimum payout.
    pub closed spec fn min_payout_view(&self) -> int {
        self.config.minimum_payout as int
    }

    /// The tree's maps are well formed.
    pub closed spec fn tree_wf(&self) -> bool {
        self.tree.wf()
    }

    /// The sponsor links the engine walks.
    pub closed spec fn sponsors(&self) -> Seq<(Seq<char>, String)> {
        self.tree.sponsors_view()
    }

    /// The configured depth cap, defaulting to the schedule length.
    pub closed spec fn depth_view(&self) -> int {
        match self.config.level_cap {
            Some(c) => c as int,
            None => self.config.levels_bps@.len() as int,
        }
    }
}

/// An action a contract can process.
#[derive(Clone, Debug)]
pub enum ContractAction {
    FundBudget { from: String, amount: u64, memo: Option<String> },
    ExecuteWork { worker: String, payout: u64, referral_origin: Option<String> },
}

/// A contract: its steward, its budget, and its referral schedule.
#[derive(Clone, Debug)]
pub struct ContractDefinition {
    pub id: String,
    pub steward: String,
    pub budget_id: String,
    pub referral: ReferralConfig,
}

impl ContractDefinition {
    /// Turn an action into the ledger mutations it implies: funding becomes
    /// one budget funding; work becomes a budget spend covering the worker
    /// and any referral payouts, plus the payout record when referrals
    /// fired.
    pub fn apply_action(&self, action: ContractAction, tree: &ReferralTree) -> (r: Vec<
        LedgerMutation,
    >)
        requires
            tree.wf(),
            self.referral.levels_bps@.len() <= u32::MAX,
            forall|i: int|
                0 <= i < self.referral.levels_bps@.len() ==> (match action {
                    ContractAction::ExecuteWork { payout, .. } => payout * (
                    #[trigger] self.referral.levels_bps@[i]) <= u64::MAX,
                    _ => true,
                }),
        ensures
            action matches ContractAction::FundBudget { from, amount, memo } ==> r@.len() == 1
                && (r@[0] matches LedgerMutation::FundBudget {
                from: f,
                budget_id: b,
                amount: a,
                memo: m,
            } && f@ == from@ && b@ == self.budget_id@ && a == amount),
            action matches ContractAction::ExecuteWork { worker, payout, referral_origin } ==> {
                &&& r@.len() >= 1
                &&& (r@[0] matches LedgerMutation::SpendBudget { budget_id, plan } && budget_id@
                    == self.budget_id@ && plan.transfers@.len() >= 1 && (plan.transfers@[0].to@
                    == worker@ && plan.transfers@[0].amount == payout))
                &&& r@.len() <= 2
                &&& (referral_origin is None ==> r@.len() == 1)
                &&& (r@.len() == 1 ==> (r@[0] matches LedgerMutation::SpendBudget { plan, .. }
                    && plan.transfers@.len() == 1))
                &&& (r@.len() == 1 && payout >= 1 ==> (referral_origin matches Some(origin2)
                    ==> payouts_complete(
                    self.referral.levels_bps@,
                    self.referral.minimum_payout as int,
                    match self.referral.level_cap {
                        Some(c) => c as int,
                        None => self.referral.levels_bps@.len() as int,
                    },
                    tree.sponsors_view(),
                    origin2@,
                    payout,
                    Seq::<ReferralPayout>::empty(),
                )))
                &&& (r@.len() == 2 ==> (r@[0] matches LedgerMutation::SpendBudget { plan, .. }
                    && (r@[1] matches LedgerMutation::ApplyReferralPayouts { contract, payouts }
                    && contract@ == self.id@ && payouts@.len() >= 1 && payouts@.len() + 1
                    == plan.transfers@.len() && (referral_origin matches Some(origin) && (forall|
                    j: int,
                |
                    0 <= j < payouts@.len() ==> {
                        let p = #[trigger] payouts@[j];
                        &&& plan.transfers@[j + 1].to@ == p.recipient@
                        &&& plan.transfers@[j + 1].amount == p.amount
                        &&& 1 <= p.level
                        &&& p.level <= self.referral.levels_bps@.len()
                        &&& p.amount == bps_amount(
                            payout as int,
                            self.referral.levels_bps@[p.level - 1] as int,
                        )
                        &&& p.amount >= self.referral.minimum_payout
                        &&& self.referral.levels_bps@[p.level - 1] > 0
                        &&& ancestors_known(tree.sponsors_view(), origin@, p.level as nat)
                        &&& p.recipient@ == ancestor_view(
                            tree.sponsors_view(),
                            origin@,
                            p.level as nat,
                        )
                    }) && payouts_ordered(payouts@) && (payout >= 1 ==> payouts_complete(
                    self.referral.levels_bps@,
                    self.referral.minimum_payout as int,
                    match self.referral.level_cap {
                        Some(c) => c as int,
                        None => self.referral.levels_bps@.len() as int,
                    },
                    tree.sponsors_view(),
                    origin@,
                    payout,
                    payouts@,
                ))))))
            },
    {
        match action {
            ContractAction::FundBudget { from, amount, memo } => {
                let mut out: Vec<LedgerMutation> = Vec::new();
                out.push(
                    LedgerMutation::FundBudget {
                        from,
                        budget_id: self.budget_id.clone(),
                        amount,
                        memo,
                    },
                );
                out
            },
            ContractAction::ExecuteWork { worker, payout, referral_origin } => {
                let ghost worker_view = worker@;
                let mut memo = String::from_str("contract:");
                memo.append(self.id.as_str());
                memo.append(" payout");
                let mut transfers: Vec<BudgetTransfer> = Vec::new();
                transfers.push(BudgetTransfer { to: worker, amount: payout, memo: Some(memo) });
                let mut referral_payouts: Vec<ReferralPayout> = Vec::new();
                match referral_origin {
                    Some(origin) => {
                        let engine = ReferralEngine::new(&self.referral, tree);
                        referral_payouts = engine.calculate_payouts(payout, &origin);
                    },
                    None => {},
                }
                let mut i: usize = 0;
                while i < referral_payouts.len()
                    invariant
                        i <= referral_payouts@.len(),
                        transfers@.len() == 1 + i,
                        transfers@[0].to@ == worker_view,
                        transfers@[0].amount == payout,
                        forall|j: int|
                            0 <= j < i ==> (#[trigger] transfers@[j + 1]).to@
                                == referral_payouts@[j].recipient@ && transfers@[j + 1].amount
                                == referral_payouts@[j].amount,
                    decreases referral_payouts@.len() - i,
                {
                    let p = &referral_payouts[i];
                    let mut rmemo = String::from_str("contract:");
                    rmemo.append(self.id.as_str());
                    rmemo.append(" referral L");
                    rmemo.append(u32_to_string(p.level).as_str());
                    transfers.push(
                        BudgetTransfer {
                            to: p.recipient.clone(),
                            amount: p.amount,
                            memo: Some(rmemo),
                        },
                    );
                    i += 1;
                }
                let mut out: Vec<LedgerMutation> = Vec::new();
                let has_referrals = referral_payouts.len() > 0;
                out.push(
                    LedgerMutation::SpendBudget {
                        budget_id: self.budget_id.clone(),
                        plan: BudgetSpendPlan { transfers },
                    },
                );
                if has_referrals {
                    out.push(
                        LedgerMutation::ApplyReferralPayouts {
                            contract: self.id.clone(),
                            payouts: referral_payouts,
                        },
                    );
                }
                out
            },
        }
    }
}

/// Decimal rendering of a 32-bit number.
pub fn u32_to_string(x: u32) -> (r: String)
    ensures
        r@.len() >= 1,
{
    let mut digits: Vec<u8> = Vec::new();
    let mut v = x;
    if v == 0 {
        digits.push(48u8);
    }
    while v > 0
        invariant
            digits@.len() >= 1 || v > 0,
        decreases v,
    {
        digits.push(48u8 + (v % 10) as u8);
        v = v / 10;
    }
    let mut s = String::from_str("");
    proof {
        reveal_strlit("");
    }
    let mut i: usize = digits.len();
    while i > 0
        invariant
            i <= digits@.len(),
            s@.len() == digits@.len() - i,
        decreases i,
    {
        i -= 1;
        let d = digits[i];
        s.append(digit_str(d).as_str());
    }
    proof {
        assert(digits@.len() >= 1);
    }
    s
}

/// The single-character string of one decimal digit byte.
fn digit_str(d: u8) -> (r: String)
    ensures
        r@.len() == 1,
{
    let s = match d {
        48u8 => String::from_str("0"),
        49u8 => String::from_str("1"),
        50u8 => String::from_str("2"),
        51u8 => String::from_str("3"),
        52u8 => String::from_str("4"),
        53u8 => String::from_str("5"),
        54u8 => String::from_str("6"),
        55u8 => String::from_str("7"),
        56u8 => String::from_str("8"),
        _ => String::from_str("9"),
    };
    proof {
        reveal_strlit("0");
        reveal_strlit("1");
        reveal_strlit("2");
        reveal_strlit("3");
        reveal_strlit("4");
        reveal_strlit("5");
        reveal_strlit("6");
        reveal_strlit("7");
        reveal_strlit("8");
        reveal_strlit("9");
    }
    s
}

} // verus!
