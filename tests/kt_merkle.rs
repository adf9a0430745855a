use hardlock_snc::kt::{
    hash_leaf, inclusion_proof, merkle_root, root_from_hashes, sign_sth, sth_to_bytes, verify_inclusion, verify_sth, Leaf, Sth,
};
use ed25519_dalek::SigningKey;
use rand::rngs::OsRng;
use sha2::Digest;

fn mk_leaf(u: &str, d: &str, pk: &[u8], ts: u64, prev: [u8; 32]) -> Leaf {
    Leaf { user_id: u.into(), device_id: d.into(), pk: pk.to_vec(), ts_ms: ts, prev_hash: prev }
}

#[test]
fn merkle_inclusion_roundtrip() {
    let mut leaves = Vec::new();
    let mut prev = [0u8; 32];
    for i in 0..8 {
        let pk = vec![i as u8; 32];
        let l = mk_leaf("user", &format!("dev{}", i), &pk, 1000 + i, prev);
        prev = hash_leaf(&l);
        leaves.push(l);
    }
    let hashes: Vec<[u8; 32]> = leaves.iter().map(hash_leaf).collect();
    let root = root_from_hashes(hashes.clone());
    for idx in 0..hashes.len() {
        let proof = inclusion_proof(&hashes, idx);
        assert!(verify_inclusion(&root, &hashes[idx], idx, &proof));
    }
}

#[test]
fn merkle_odd_sizes_and_wrong_index() {
    for n in 1..12usize {
        let hashes: Vec<[u8; 32]> = (0..n).map(|i| [i as u8 + 1; 32]).collect();
        let root = root_from_hashes(hashes.clone());
        for idx in 0..n {
            let proof = inclusion_proof(&hashes, idx);
            assert!(verify_inclusion(&root, &hashes[idx], idx, &proof));
            if n > 1 {
                let other = (idx + 1) % n;
                if hashes[other] != hashes[idx] {
                    assert!(!verify_inclusion(&root, &hashes[other], idx, &proof));
                }
            }
        }
    }
}

#[test]
fn merkle_small_trees() {
    let empty: [u8; 32] = sha2::Sha256::digest(b"HL-KT-EMPTY").into();
    assert_eq!(root_from_hashes(Vec::new()), empty);
    assert_eq!(merkle_root(&[]), empty);
    assert_eq!(root_from_hashes(vec![[9u8; 32]]), [9u8; 32]);
    let mut h = sha2::Sha256::new();
    h.update([1u8]);
    h.update([1u8; 32]);
    h.update([2u8; 32]);
    let pair: [u8; 32] = h.finalize().into();
    assert_eq!(root_from_hashes(vec![[1u8; 32], [2u8; 32]]), pair);
    assert_eq!(inclusion_proof(&[[1u8; 32], [2u8; 32]], 1), vec![[1u8; 32]]);
    assert!(inclusion_proof(&[[1u8; 32], [2u8; 32], [3u8; 32]], 3).is_empty());
}

#[test]
fn leaf_hash_and_root_of_leaves() {
    let l = mk_leaf("u", "d", &[5, 6], 7, [8u8; 32]);
    let mut enc = vec![0u8];
    enc.extend_from_slice(&1u32.to_le_bytes());
    enc.extend_from_slice(b"u");
    enc.extend_from_slice(&1u32.to_le_bytes());
    enc.extend_from_slice(b"d");
    enc.extend_from_slice(&2u32.to_le_bytes());
    enc.extend_from_slice(&[5, 6]);
    enc.extend_from_slice(&7u64.to_le_bytes());
    enc.extend_from_slice(&[8u8; 32]);
    let expected: [u8; 32] = sha2::Sha256::digest(&enc).into();
    assert_eq!(hash_leaf(&l), expected);
    assert_eq!(merkle_root(&[l]), expected);
}

#[test]
fn sth_bytes_layout() {
    let sth = Sth { tree_size: 10, root: [7u8; 32], timestamp_ms: 123456789, sig: Vec::new() };
    let b = sth_to_bytes(&sth);
    assert_eq!(&b[..6], b"HL-STH");
    assert_eq!(&b[6..14], &10u64.to_le_bytes());
    assert_eq!(&b[14..46], &[7u8; 32]);
    assert_eq!(&b[46..], &123456789u64.to_le_bytes());
}

#[test]
fn sth_sign_verify() {
    let sk = SigningKey::generate(&mut OsRng);
    let vk = sk.verifying_key();
    let root = [7u8; 32];
    let sth = sign_sth(&sk.to_bytes(), 10, root, 123456789);
    assert!(verify_sth(&vk.to_bytes(), &sth));
}

#[test]
fn sth_tampering_is_rejected() {
    let sk = SigningKey::from_bytes(&[3u8; 32]);
    let vk = sk.verifying_key().to_bytes();
    let mut sth = sign_sth(&[3u8; 32], 4, [1u8; 32], 99);
    assert_eq!(sth.sig.len(), 64);
    let expected = ed25519_dalek::Signer::sign(&sk, &sth_to_bytes(&sth)).to_bytes();
    assert_eq!(sth.sig, expected.to_vec());
    sth.tree_size = 5;
    assert!(!verify_sth(&vk, &sth));
    sth.tree_size = 4;
    assert!(verify_sth(&vk, &sth));
    sth.sig.pop();
    assert!(!verify_sth(&vk, &sth));
    let other = SigningKey::from_bytes(&[4u8; 32]).verifying_key().to_bytes();
    let sth2 = sign_sth(&[3u8; 32], 4, [1u8; 32], 99);
    assert!(!verify_sth(&other, &sth2));
}
