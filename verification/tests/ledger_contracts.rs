use s3p::contracts::{
    BudgetSpendPlan, BudgetTransfer, ContractAction, ContractDefinition, ReferralConfig,
    ReferralEngine, ReferralPayout, ReferralTree,
};
use s3p::errors::LedgerError;
use s3p::ledger::{BudgetState, LedgerMutation, LedgerState};

#[test]
fn referral_engine_respects_minimum_payouts_and_depth() {
    let config = ReferralConfig {
        levels_bps: vec![1_000, 500, 250],
        minimum_payout: 10,
        level_cap: Some(2),
        participant_quota: None,
    };
    let mut tree = ReferralTree::new();
    tree.link("root".into(), "alice".into(), None);
    tree.link("alice".into(), "bob".into(), None);
    tree.link("bob".into(), "carol".into(), None);
    let engine = ReferralEngine::new(&config, &tree);
    let payouts = engine.calculate_payouts(10_000, &"carol".into());
    assert_eq!(payouts.len(), 2);
    assert_eq!(payouts[0].recipient, "bob");
    assert_eq!(payouts[0].amount, 1_000);
    assert_eq!(payouts[1].recipient, "alice");
    assert_eq!(payouts[1].amount, 500);
}

#[test]
fn contract_action_generates_budget_and_referral_mutations() {
    let contract = ContractDefinition {
        id: "contract-1".into(),
        steward: "steward".into(),
        budget_id: "budget-1".into(),
        referral: ReferralConfig {
            levels_bps: vec![1_000],
            minimum_payout: 1,
            level_cap: None,
            participant_quota: None,
        },
    };
    let mut tree = ReferralTree::new();
    tree.link("alice".into(), "bob".into(), None);
    let actions = contract.apply_action(
        ContractAction::ExecuteWork {
            worker: "worker".into(),
            payout: 5_000,
            referral_origin: Some("bob".into()),
        },
        &tree,
    );
    assert_eq!(actions.len(), 2);
    match &actions[0] {
        LedgerMutation::SpendBudget { budget_id, plan } => {
            assert_eq!(budget_id.as_str(), "budget-1");
            assert_eq!(plan.transfers.len(), 2);
        }
        _ => panic!("expected spend budget"),
    }
}

#[test]
fn merkle_root_is_deterministic() {
    let mut ledger = LedgerState::new();
    ledger.credit_account(&"alice".to_string(), 1_000);
    ledger.credit_account(&"bob".to_string(), 2_000);
    let root1 = ledger.snapshot().merkle_root;
    let root2 = ledger.snapshot().merkle_root;
    assert_eq!(root1, root2);
}

#[test]
fn applying_mutations_updates_balances_and_events() {
    let mut ledger = LedgerState::new();
    ledger.credit_account(&"treasury".to_string(), 10_000);
    ledger.upsert_budget(BudgetState {
        id: "budget-1".into(),
        contract: "contract-1".into(),
        steward: "treasury".into(),
        available: 5_000,
    });
    let plan = BudgetSpendPlan {
        transfers: vec![BudgetTransfer {
            to: "worker".into(),
            amount: 2_000,
            memo: Some("worker payout".into()),
        }],
    };
    ledger
        .apply_mutations(
            &vec![
                LedgerMutation::Transfer {
                    from: "treasury".into(),
                    to: "alice".into(),
                    amount: 1_000,
                    memo: Some("grant".into()),
                },
                LedgerMutation::SpendBudget {
                    budget_id: "budget-1".into(),
                    plan,
                },
                LedgerMutation::ApplyReferralPayouts {
                    contract: "contract-1".into(),
                    payouts: vec![ReferralPayout {
                        recipient: "ref1".into(),
                        amount: 500,
                        level: 1,
                    }],
                },
            ],
            vec![1u8; 32],
            1,
        )
        .unwrap();
    assert_eq!(
        ledger.accounts.get(&"alice".to_string()).unwrap().available,
        1_000
    );
    assert_eq!(
        ledger.accounts.get(&"worker".to_string()).unwrap().available,
        2_000
    );
    assert_eq!(
        ledger.accounts.get(&"ref1".to_string()).unwrap().available,
        500
    );
    assert_eq!(
        ledger.budgets.get(&"budget-1".to_string()).unwrap().available,
        3_000
    );
    assert_eq!(ledger.events.len(), 3);
}

#[test]
fn ledger_rejects_bad_mutations() {
    let mut ledger = LedgerState::new();
    ledger.credit_account(&"alice".to_string(), 100);

    let unknown = ledger.apply_mutations(
        &vec![LedgerMutation::Transfer {
            from: "nobody".into(),
            to: "alice".into(),
            amount: 1,
            memo: None,
        }],
        vec![2u8; 32],
        1,
    );
    assert!(matches!(unknown, Err(LedgerError::UnknownAccount { .. })));

    let broke = ledger.apply_mutations(
        &vec![LedgerMutation::Transfer {
            from: "alice".into(),
            to: "bob".into(),
            amount: 1_000,
            memo: None,
        }],
        vec![3u8; 32],
        1,
    );
    assert!(matches!(
        broke,
        Err(LedgerError::InsufficientAccountFunds { .. })
    ));

    let no_budget = ledger.apply_mutations(
        &vec![LedgerMutation::SpendBudget {
            budget_id: "missing".into(),
            plan: BudgetSpendPlan { transfers: vec![] },
        }],
        vec![4u8; 32],
        1,
    );
    assert!(matches!(no_budget, Err(LedgerError::UnknownBudget { .. })));
}

#[test]
fn ledger_rejects_duplicate_receipts() {
    let mut ledger = LedgerState::new();
    ledger
        .apply_mutations(
            &vec![LedgerMutation::Emit {
                to: "alice".into(),
                amount: 7,
                reason: "genesis".into(),
            }],
            vec![9u8; 32],
            1,
        )
        .unwrap();
    let again = ledger.apply_mutations(&vec![], vec![9u8; 32], 2);
    assert!(matches!(again, Err(LedgerError::DuplicateReceipt)));
    assert_eq!(ledger.meta.height, 1);
}

#[test]
fn budget_debit_is_guarded() {
    let mut budget = BudgetState {
        id: "b".into(),
        contract: "c".into(),
        steward: "s".into(),
        available: 10,
    };
    assert!(budget.debit(4).is_ok());
    assert_eq!(budget.available, 6);
    assert!(matches!(
        budget.debit(7),
        Err(LedgerError::InsufficientBudgetFunds { .. })
    ));
    assert_eq!(budget.available, 6);
}

#[test]
fn referral_tree_stops_at_cycles() {
    let mut tree = ReferralTree::new();
    tree.link("a".into(), "b".into(), None);
    tree.link("b".into(), "a".into(), None);
    let chain = tree.ancestry("a".into(), 10);
    assert!(chain.len() <= 2);
}
