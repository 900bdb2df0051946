use ed25519_dalek::{Signer, SigningKey};
use rand::rngs::OsRng;

use s3p::errors::VerificationError;
use s3p::poc::{
    AggregatedSignature, CommitteeConfig, CommitteeEnvelope, MemberSignature, ReceiptCore,
    ReceiptOutcome, SignedReceipt,
};
use s3p::pod::{aggregate_pods, check_pod, PodCheck, ProofOfDelivery};

fn random_committee(size: usize, quorum: usize) -> (CommitteeConfig, Vec<SigningKey>) {
    let mut rng = OsRng;
    let mut members = Vec::new();
    let mut signing_keys = Vec::new();
    for idx in 0..size {
        let sk = SigningKey::generate(&mut rng);
        let pk = sk.verifying_key();
        members.push((format!("member-{idx}"), pk.as_bytes().to_vec()));
        signing_keys.push(sk);
    }
    (CommitteeConfig::new(members, quorum), signing_keys)
}

#[test]
fn committee_verifies_quorum() {
    let (committee, sks) = random_committee(4, 3);
    let receipt_core = ReceiptCore {
        scid: "set-1".into(),
        merkle_root: vec![1u8; 32],
        ct_hash: vec![2u8; 32],
        outcome: ReceiptOutcome::Rejected {
            reason: "invalid ciphertext".into(),
        },
    };
    let digest = receipt_core.digest();
    let mut envelope = CommitteeEnvelope::new();
    for idx in 0..3 {
        let sig = sks[idx].sign(&digest);
        envelope.signatures.push(MemberSignature {
            member_id: format!("member-{idx}"),
            signature: sig.to_bytes().to_vec(),
        });
    }
    let receipt = SignedReceipt {
        core: receipt_core,
        committee: envelope,
    };
    committee.verify(&receipt).unwrap();
}

#[test]
fn insufficient_quorum_fails() {
    let (committee, sks) = random_committee(3, 3);
    let receipt_core = ReceiptCore {
        scid: "set-1".into(),
        merkle_root: vec![1u8; 32],
        ct_hash: vec![2u8; 32],
        outcome: ReceiptOutcome::Accepted {
            mutations: vec![],
            notes: vec![],
        },
    };
    let digest = receipt_core.digest();
    let mut envelope = CommitteeEnvelope::new();
    for idx in 0..2 {
        let sig = sks[idx].sign(&digest);
        envelope.signatures.push(MemberSignature {
            member_id: format!("member-{idx}"),
            signature: sig.to_bytes().to_vec(),
        });
    }
    let receipt = SignedReceipt {
        core: receipt_core,
        committee: envelope,
    };
    let err = committee.verify(&receipt).unwrap_err();
    match err {
        VerificationError::InsufficientQuorum { expected, actual } => {
            assert_eq!(expected, 3);
            assert_eq!(actual, 2);
        }
        _ => panic!("unexpected error"),
    }
}

fn sample_receipt() -> ReceiptCore {
    ReceiptCore {
        scid: "series".into(),
        merkle_root: vec![3u8; 32],
        ct_hash: vec![4u8; 32],
        outcome: ReceiptOutcome::Rejected {
            reason: "nope".into(),
        },
    }
}

#[test]
fn unknown_member_rejected() {
    let (committee, sks) = random_committee(4, 3);
    let core = sample_receipt();
    let digest = core.digest();
    let mut envelope = CommitteeEnvelope::new();
    for idx in 0..2 {
        let sig = sks[idx].sign(&digest);
        envelope.signatures.push(MemberSignature {
            member_id: format!("member-{idx}"),
            signature: sig.to_bytes().to_vec(),
        });
    }
    let outsider = SigningKey::generate(&mut OsRng);
    envelope.signatures.push(MemberSignature {
        member_id: "stranger".into(),
        signature: outsider.sign(&digest).to_bytes().to_vec(),
    });
    let receipt = SignedReceipt {
        core,
        committee: envelope,
    };
    assert!(matches!(
        committee.verify(&receipt),
        Err(VerificationError::UnknownMember(_))
    ));
}

#[test]
fn malformed_and_invalid_signatures_rejected() {
    let (committee, sks) = random_committee(2, 1);
    let core = sample_receipt();
    let digest = core.digest();

    let mut short = CommitteeEnvelope::new();
    short.signatures.push(MemberSignature {
        member_id: "member-0".into(),
        signature: vec![0u8; 10],
    });
    let receipt = SignedReceipt {
        core: core.clone(),
        committee: short,
    };
    assert!(matches!(
        committee.verify(&receipt),
        Err(VerificationError::MalformedSignature(_))
    ));

    let mut forged = CommitteeEnvelope::new();
    let mut sig = sks[0].sign(&digest).to_bytes().to_vec();
    sig[0] ^= 1;
    forged.signatures.push(MemberSignature {
        member_id: "member-0".into(),
        signature: sig,
    });
    let receipt = SignedReceipt {
        core,
        committee: forged,
    };
    assert!(matches!(
        committee.verify(&receipt),
        Err(VerificationError::InvalidSignature(_))
    ));
}

#[test]
fn aggregated_participants_must_be_members() {
    let (committee, sks) = random_committee(2, 1);
    let core = sample_receipt();
    let digest = core.digest();
    let mut envelope = CommitteeEnvelope::new();
    envelope.signatures.push(MemberSignature {
        member_id: "member-0".into(),
        signature: sks[0].sign(&digest).to_bytes().to_vec(),
    });
    envelope.aggregated = Some(AggregatedSignature {
        participants: vec!["member-0".into(), "ghost".into()],
        signature: vec![1u8; 64],
    });
    let receipt = SignedReceipt {
        core,
        committee: envelope,
    };
    assert!(matches!(
        committee.verify(&receipt),
        Err(VerificationError::UnknownMember(_))
    ));
}

#[test]
fn receipt_digests_are_stable_for_equal_cores() {
    let build = || ReceiptCore {
        scid: "series".into(),
        merkle_root: vec![7u8; 32],
        ct_hash: vec![8u8; 32],
        outcome: ReceiptOutcome::Accepted {
            mutations: vec![],
            notes: vec!["first".into(), "second".into()],
        },
    };
    assert_eq!(build().digest(), build().digest());
    let rejected = |reason: &str| ReceiptCore {
        scid: "series".into(),
        merkle_root: vec![7u8; 32],
        ct_hash: vec![8u8; 32],
        outcome: ReceiptOutcome::Rejected {
            reason: reason.into(),
        },
    };
    assert_ne!(rejected("a").digest(), rejected("b").digest());
}

#[test]
fn pod_sign_check_and_tamper() {
    let mut rng = OsRng;
    let sk_bytes = SigningKey::generate(&mut rng).to_bytes().to_vec();
    let scid = "series".to_string();
    let shard = b"shard zero bytes".to_vec();

    let pod = ProofOfDelivery::sign(&sk_bytes, &scid, 0, &shard, 1_700_000);
    assert!(pod.verify());
    assert_eq!(check_pod(&pod, &scid, &Some(shard.clone())), PodCheck::Accepted);

    // Re-signing the same shard verifies again: an unchanged pack shows no
    // bad entries.
    let pod2 = ProofOfDelivery::sign(&sk_bytes, &scid, 0, &shard, 1_700_001);
    assert_eq!(check_pod(&pod2, &scid, &Some(shard.clone())), PodCheck::Accepted);

    let mut tampered = shard.clone();
    tampered[0] ^= 0xff;
    assert_eq!(
        check_pod(&pod, &scid, &Some(tampered)),
        PodCheck::LeafMismatch
    );
    assert_eq!(check_pod(&pod, &scid, &None), PodCheck::ShardMissing);
    assert_eq!(
        check_pod(&pod, &"other".to_string(), &Some(shard.clone())),
        PodCheck::ScidMismatch
    );

    let mut forged = pod.clone();
    forged.signature[0] ^= 1;
    assert_eq!(
        check_pod(&forged, &scid, &Some(shard)),
        PodCheck::BadSignature
    );
}

#[test]
fn pod_aggregation_counts_and_commits() {
    let mut rng = OsRng;
    let sk_bytes = SigningKey::generate(&mut rng).to_bytes().to_vec();
    let scid = "series".to_string();
    let shards: Vec<Vec<u8>> = (0..4u8).map(|i| vec![i; 8]).collect();

    let mut pods: Vec<Option<ProofOfDelivery>> = shards
        .iter()
        .enumerate()
        .map(|(i, s)| Some(ProofOfDelivery::sign(&sk_bytes, &scid, i as u32, s, 5)))
        .collect();
    pods[2] = None;
    if let Some(p) = pods[3].as_mut() {
        p.signature[0] ^= 1;
    }

    let agg = aggregate_pods(&scid, &pods, 99).expect("aggregate");
    assert_eq!(agg.total_shards, 4);
    assert_eq!(agg.ok, 2);
    assert_eq!(agg.bad, 1);
    assert_eq!(agg.missing, 1);
    assert_eq!(agg.included_indexes, vec![0, 1]);
    assert_eq!(agg.ts_unix_ms, 99);
    assert_eq!(agg.pod_root_hex.len(), 64);

    let empty: Vec<Option<ProofOfDelivery>> = vec![None, None];
    assert!(aggregate_pods(&scid, &empty, 1).is_err());
}
