use s3p::crypto::{KeySchedule, Nonce};
use s3p::fountain::{FountainDecoder, FountainEncoder};
use s3p::profiles::{
    pack_artifact, pack_fountain_core, peel_decode, unpack_artifact, unpack_stream_chunk,
    pack_stream_chunk, verify_pack_core, VerifyOutcome,
};

fn test_keys() -> KeySchedule {
    KeySchedule::derive(&vec![0x11u8; 32], &vec![0x22u8; 16]).expect("derive")
}

#[test]
fn whole_file_pack_survives_two_lost_shards() {
    let plain = b"blocknet rocks".repeat(32);
    let ks = test_keys();
    let aad = "s3p-cli".to_string();
    let name = "input.bin".to_string();
    let pack = pack_artifact(&plain, 4, 2, &ks, &aad, &name).expect("pack");

    assert_eq!(
        verify_pack_core(&pack.manifest.commit, &pack.manifest.scid, &pack.blob.shards),
        VerifyOutcome::Accepted
    );

    let mut shards: Vec<Option<Vec<u8>>> =
        pack.blob.shards.iter().cloned().map(Some).collect();
    shards[0] = None;
    shards[5] = None;
    let out = unpack_artifact(&pack.manifest, shards, &ks).expect("unpack");
    assert_eq!(out, plain);
}

#[test]
fn tampered_shard_fails_pack_verification() {
    let plain = b"some payload".repeat(10);
    let ks = test_keys();
    let pack = pack_artifact(&plain, 3, 2, &ks, &"aad".to_string(), &"f".to_string())
        .expect("pack");
    let mut shards = pack.blob.shards.clone();
    shards[0][0] ^= 0xff;
    assert_eq!(
        verify_pack_core(&pack.manifest.commit, &pack.manifest.scid, &shards),
        VerifyOutcome::RootMismatch
    );
    let mut commit = pack.manifest.commit.clone();
    commit.size_bytes += 1;
    assert_eq!(
        verify_pack_core(&commit, &pack.manifest.scid, &pack.blob.shards),
        VerifyOutcome::ScidMismatch
    );
}

#[test]
fn packing_is_deterministic_for_a_pinned_nonce() {
    let ks = test_keys();
    let aad = "stream".to_string();
    let base = Nonce::from_slice(&vec![5u8; 24]).expect("nonce");
    let chunk = b"deterministic chunk contents".to_vec();
    let one = pack_stream_chunk(&ks, &aad, &base, 7, &chunk, 3, 2).expect("pack");
    let two = pack_stream_chunk(&ks, &aad, &base, 7, &chunk, 3, 2).expect("pack");
    assert_eq!(one, two);

    let plain = b"stable".repeat(8);
    let a = {
        let p = pack_artifact(&plain, 2, 2, &ks, &aad, &"n".to_string()).expect("pack");
        (p.manifest.commit.merkle_root.clone(), p.manifest.scid.clone())
    };
    // Re-computing identifier over an equal commit gives the same text.
    let b = {
        let mut commit = s3p::series::SeriesCommit {
            version: 1,
            size_bytes: plain.len(),
            chunk_size: plain.len() + 16,
            erasure_data: 2,
            erasure_parity: 2,
            aead_alg: "XChaCha20-Poly1305".to_string(),
            merkle_root: a.0.clone(),
        };
        let scid1 = commit.scid();
        commit.aead_alg = "XChaCha20-Poly1305".to_string();
        let scid2 = commit.scid();
        assert_eq!(scid1, scid2);
        scid1
    };
    assert_eq!(a.1, b);
}

#[test]
fn stream_chunks_survive_a_deleted_shard_file() {
    let ks = test_keys();
    let aad = "s3p-stream".to_string();
    let base = Nonce::from_slice(&vec![3u8; 24]).expect("nonce");
    let chunk_size = 1024usize;
    let data_shards = 3usize;
    let parity_shards = 2usize;

    let mut payload = Vec::new();
    for i in 0..10_000usize {
        payload.push((i % 251) as u8);
    }

    let chunks = (payload.len() + chunk_size - 1) / chunk_size;
    let ct_len_per_chunk = chunk_size + 16;
    let mut recovered = Vec::new();
    for idx in 0..chunks {
        let mut chunk = vec![0u8; chunk_size];
        let start = idx * chunk_size;
        for j in 0..chunk_size {
            if start + j < payload.len() {
                chunk[j] = payload[start + j];
            }
        }
        let stripes = pack_stream_chunk(&ks, &aad, &base, idx as u64, &chunk, data_shards,
            parity_shards)
            .expect("pack chunk");
        let mut found: Vec<Option<Vec<u8>>> = stripes.into_iter().map(Some).collect();
        // Shard file 1 is gone entirely.
        found[1] = None;
        let plain = unpack_stream_chunk(
            &ks,
            &aad,
            &base,
            idx as u64,
            found,
            data_shards,
            parity_shards,
            ct_len_per_chunk,
        )
        .expect("unpack chunk");
        recovered.extend_from_slice(&plain);
    }
    recovered.truncate(payload.len());
    assert_eq!(recovered.len(), 10_000);
    assert_eq!(recovered, payload);
}

#[test]
fn fountain_profile_emits_systematic_then_coded() {
    let ks = test_keys();
    let plain = b"fountain payload".repeat(100);
    let (ciphertext, _nonce) = ks.seal(&b"aad".to_vec(), &plain).expect("seal");

    // An overhead factor of a quarter over 32 blocks gives exactly 40
    // packets, the first 32 systematic in order.
    let k = 32usize;
    let target = 40usize;
    let (meta, packets) = pack_fountain_core(&ciphertext, k, target, 42, None).expect("fountain");
    assert_eq!(packets.len(), 40);
    assert_eq!(meta.block_count, 32);
    for (i, p) in packets.iter().take(k).enumerate() {
        assert_eq!(p.indices, vec![i]);
    }
    for p in packets.iter().skip(k) {
        assert!(!p.indices.is_empty());
        assert!(p.indices.len() <= k);
    }

    let decoded = peel_decode(meta, packets).expect("decode");
    assert_eq!(decoded, ciphertext);
}

#[test]
fn fountain_decoder_converges_under_loss() {
    let ks = test_keys();
    let plain = vec![0xabu8; 1024];
    let (ciphertext, _nonce) = ks.seal(&b"x".to_vec(), &plain).expect("seal");
    let k = 16usize;
    let (meta, packets) = pack_fountain_core(&ciphertext, k, 3 * k, 42, None).expect("fountain");

    // Drop a fixed 15% of the stream (every seventh packet).
    let mut decoder = FountainDecoder::new(meta);
    let mut accepted = 0usize;
    for (i, p) in packets.into_iter().enumerate() {
        if i % 7 == 0 {
            continue;
        }
        accepted += 1;
        if let Some(out) = decoder.receive(p).expect("receive") {
            assert_eq!(out, ciphertext);
            assert!(accepted <= 2 * k);
            return;
        }
    }
    panic!("decoder failed to converge");
}

#[test]
fn fountain_degree_tables_are_validated() {
    let data = vec![5u8; 256];
    let mut enc = FountainEncoder::from_partition(&data, 8).expect("encoder");
    assert!(enc.set_degree_weights(vec![]).is_err());
    assert!(enc.set_degree_weights(vec![1; 9]).is_err());
    assert!(enc.set_degree_weights(vec![0, 0]).is_err());
    assert!(enc.set_degree_weights(vec![u64::MAX, u64::MAX]).is_err());
    assert!(enc.set_degree_weights(vec![3, 1]).is_ok());

    // A custom table caps the degrees it allows: with a one-entry table
    // every coded packet covers exactly one block.
    enc.set_seed(7);
    let k = 8usize;
    for _ in 0..k {
        let _ = enc.next_packet();
    }
    enc.set_degree_weights(vec![1]).expect("table");
    for _ in 0..20 {
        let p = enc.next_packet();
        assert_eq!(p.indices.len(), 1);
    }
}

#[test]
fn fountain_profile_accepts_a_shaped_table() {
    let ks = test_keys();
    let plain = vec![0x5au8; 2048];
    let (ciphertext, _nonce) = ks.seal(&b"aad".to_vec(), &plain).expect("seal");
    let k = 16usize;
    // A spike-shaped table in the robust-soliton style: heavy on low
    // degrees with one bump.
    let mut table = vec![0u64; k];
    table[0] = 500_000;
    table[1] = 250_000;
    table[2] = 83_000;
    table[3] = 150_000;
    for d in 4..k {
        table[d] = 10_000 / (d as u64);
    }
    let (meta, packets) =
        s3p::profiles::pack_fountain_core(&ciphertext, k, 3 * k, 9, Some(table)).expect("pack");
    let decoded = s3p::profiles::peel_decode(meta, packets).expect("decode");
    assert_eq!(decoded, ciphertext);
}
