use rand::seq::SliceRandom;
use rand::thread_rng;
use rand::Rng;

use s3p::bytes::u64_to_le_vec;
use s3p::crypto::{derive_nonce_from_base, KeySchedule, Nonce, SymmetricKey};
use s3p::erasure::{encode, reconstruct};
use s3p::errors::{RsError, S3pError};
use s3p::fountain::{FountainDecoder, FountainEncoder, FountainMetadata, FountainPacket};
use s3p::hexcode::{hex_decode, hex_encode};
use s3p::merkle::{Blake3MerkleTree, build_merkle, leaf_hash, merkle_root};

#[test]
fn round_trip_erasure() {
    let data = b"blocknet rocks".repeat(32);
    let blob = encode(&data, 4, 2).expect("encode");

    let mut shards: Vec<Option<Vec<u8>>> = blob.shards.iter().cloned().map(Some).collect();

    // Drop two random shards.
    let mut rng = thread_rng();
    let mut indices: Vec<usize> = (0..shards.len()).collect();
    indices.shuffle(&mut rng);
    for idx in indices.into_iter().take(2) {
        shards[idx] = None;
    }

    let recovered = reconstruct(&blob.meta, shards).expect("reconstruct");
    assert_eq!(recovered, data);
}

#[test]
fn fountain_round_trip() {
    let mut rng = rand::thread_rng();
    let len = 16 * 64;
    let mut data = vec![0u8; len];
    rng.fill(&mut data[..]);

    let mut encoder = FountainEncoder::from_bytes(&data, 64).expect("encoder");
    let metadata = encoder.metadata();
    let mut decoder = FountainDecoder::new(metadata);

    // Simulate a lossy channel by randomly dropping packets until recovery.
    let mut attempts = 0;
    while attempts < 10_000 {
        attempts += 1;
        let packet = encoder.next_packet();
        if rng.gen_bool(0.15) {
            continue;
        }
        if let Some(output) = decoder.receive(packet).expect("receive") {
            assert_eq!(output, data);
            return;
        }
    }

    panic!("decoder failed to converge");
}

#[test]
fn builds_and_verifies_merkle_tree() {
    let chunks: Vec<Vec<u8>> = vec![
        b"alpha".to_vec(),
        b"beta".to_vec(),
        b"gamma".to_vec(),
        b"delta".to_vec(),
    ];
    let tree = Blake3MerkleTree::from_chunks(&chunks);
    let root = tree.root().expect("root");
    assert_eq!(root.len(), 32);
    let proof = tree.inclusion_proof(&vec![1, 3]).expect("proof");
    assert!(tree.verify(&proof));

    // Tamper the root to ensure the proof fails.
    let mut tampered = root;
    tampered[0] ^= 0xff;
    assert!(!proof.verify(&tampered));
}

#[test]
fn erasure_rejects_bad_parameters() {
    let data = b"abc".to_vec();
    assert!(matches!(
        encode(&data, 0, 2),
        Err(S3pError::ReedSolomon(RsError::TooFewDataShards))
    ));
    assert!(matches!(
        encode(&data, 2, 0),
        Err(S3pError::ReedSolomon(RsError::TooFewParityShards))
    ));
    assert!(matches!(
        encode(&data, 200, 200),
        Err(S3pError::ReedSolomon(RsError::TooManyShards))
    ));
}

#[test]
fn erasure_needs_enough_shards() {
    let data = b"0123456789".repeat(5);
    let blob = encode(&data, 4, 2).expect("encode");
    let mut shards: Vec<Option<Vec<u8>>> = blob.shards.iter().cloned().map(Some).collect();
    for idx in 0..3 {
        shards[idx] = None;
    }
    assert!(matches!(
        reconstruct(&blob.meta, shards),
        Err(S3pError::ReedSolomon(RsError::TooFewShardsPresent))
    ));
}

#[test]
fn fountain_decoder_rejects_malformed_packets() {
    let data = vec![7u8; 64];
    let mut encoder = FountainEncoder::from_bytes(&data, 16).expect("encoder");
    let metadata = encoder.metadata();
    let mut decoder = FountainDecoder::new(metadata);

    let other_meta = FountainMetadata::new(1, 2, 3);
    let good = encoder.next_packet();

    let wrong_meta = FountainPacket {
        seed: 0,
        indices: vec![0],
        payload: vec![0u8; 16],
        metadata: other_meta,
    };
    assert!(decoder.receive(wrong_meta).is_err());

    let wrong_len = FountainPacket {
        seed: 0,
        indices: vec![0],
        payload: vec![0u8; 3],
        metadata,
    };
    assert!(decoder.receive(wrong_len).is_err());

    let empty = FountainPacket {
        seed: 0,
        indices: vec![],
        payload: vec![0u8; 16],
        metadata,
    };
    assert!(decoder.receive(empty).is_err());

    let out_of_range = FountainPacket {
        seed: 0,
        indices: vec![99],
        payload: vec![0u8; 16],
        metadata,
    };
    assert!(decoder.receive(out_of_range).is_err());

    // A packet contradicting a recovered block is reported.
    decoder.receive(good.clone()).expect("ingest");
    let mut tampered = good;
    tampered.payload[0] ^= 0xff;
    assert!(decoder.receive(tampered).is_err());
}

#[test]
fn aead_round_trip_and_tamper() {
    let ks = KeySchedule::derive(&b"some input key material".to_vec(), &b"salt".to_vec())
        .expect("derive");
    let aad = b"header".to_vec();
    let plaintext = b"attack at dawn".to_vec();
    let (ciphertext, nonce) = ks.seal(&aad, &plaintext).expect("seal");
    assert_eq!(ciphertext.len(), plaintext.len() + 16);
    let opened = ks.open(&aad, &nonce, &ciphertext).expect("open");
    assert_eq!(opened, plaintext);

    let mut tampered_ct = ciphertext.clone();
    tampered_ct[0] ^= 1;
    assert!(ks.open(&aad, &nonce, &tampered_ct).is_err());

    let mut nonce_bytes = nonce.as_bytes().clone();
    nonce_bytes[0] ^= 1;
    let other_nonce = Nonce::from_slice(&nonce_bytes).expect("nonce");
    assert!(ks.open(&aad, &other_nonce, &ciphertext).is_err());

    let other_aad = b"other header".to_vec();
    assert!(ks.open(&other_aad, &nonce, &ciphertext).is_err());
}

#[test]
fn symmetric_key_round_trip() {
    let key = SymmetricKey::generate();
    let aad = b"aad".to_vec();
    let message = key
        .seal_random_nonce(&b"payload".to_vec(), &aad)
        .expect("seal");
    let opened = message.open(&key, &aad).expect("open");
    assert_eq!(opened, b"payload".to_vec());
}

#[test]
fn derived_nonces_differ_per_chunk() {
    let base = Nonce::from_slice(&vec![9u8; 24]).expect("nonce");
    let a = derive_nonce_from_base(&base, 0);
    let b = derive_nonce_from_base(&base, 1);
    let c = derive_nonce_from_base(&base, u64::MAX);
    assert_ne!(a.as_bytes(), b.as_bytes());
    assert_ne!(a.as_bytes(), c.as_bytes());
    assert_ne!(b.as_bytes(), c.as_bytes());
    assert_eq!(&a.as_bytes()[..16], &base.as_bytes()[..16]);
}

#[test]
fn hex_round_trip_and_errors() {
    let bytes = vec![0u8, 15u8, 16u8, 255u8];
    let encoded = hex_encode(&bytes);
    assert_eq!(encoded, "000f10ff");
    assert_eq!(hex_decode(&encoded).expect("decode"), bytes);
    assert!(hex_decode("abc").is_none());
    assert!(hex_decode("zz").is_none());
}

#[test]
fn merkle_root_known_relations() {
    let shard_a = b"shard a".to_vec();
    let shard_b = b"shard b".to_vec();
    let leaves = vec![leaf_hash(&shard_a), leaf_hash(&shard_b)];
    let root = merkle_root(leaves.clone()).expect("root");
    assert_eq!(root.len(), 32);
    // One leaf is its own root.
    let single = merkle_root(vec![leaf_hash(&shard_a)]).expect("single");
    assert_eq!(single, leaf_hash(&shard_a));
    // The empty set is rejected by the series root but committed by the
    // ledger sentinel.
    assert!(merkle_root(Vec::new()).is_err());
    let sentinel = build_merkle(Vec::new());
    assert_eq!(sentinel.len(), 32);
    // The ledger reduction agrees with the series reduction when nonempty.
    assert_eq!(build_merkle(leaves), root);
}

#[test]
fn little_endian_counters() {
    assert_eq!(u64_to_le_vec(0x0102030405060708), vec![8, 7, 6, 5, 4, 3, 2, 1]);
}

#[test]
fn nonce_and_shard_shape_errors() {
    assert!(matches!(
        Nonce::from_slice(&vec![1u8; 23]),
        Err(S3pError::InvalidNonce)
    ));

    let data = b"0123456789".repeat(5);
    let blob = encode(&data, 4, 2).expect("encode");

    // One slot per shard is required.
    let short: Vec<Option<Vec<u8>>> = blob.shards.iter().cloned().map(Some).take(5).collect();
    assert!(matches!(
        reconstruct(&blob.meta, short),
        Err(S3pError::ReedSolomon(RsError::TooFewShards))
    ));

    // A surviving shard of the wrong length is rejected.
    let mut wrong: Vec<Option<Vec<u8>>> = blob.shards.iter().cloned().map(Some).collect();
    wrong[0] = Some(vec![0u8; 1]);
    assert!(matches!(
        reconstruct(&blob.meta, wrong),
        Err(S3pError::ReedSolomon(RsError::IncorrectShardSize))
    ));

    // A committed shard length of zero cannot hold data.
    let mut meta = blob.meta.clone();
    meta.shard_len = 0;
    meta.original_len = 0;
    let empties: Vec<Option<Vec<u8>>> = vec![None; 6];
    assert!(matches!(
        reconstruct(&meta, empties),
        Err(S3pError::ReedSolomon(RsError::EmptyShard))
    ));
}
