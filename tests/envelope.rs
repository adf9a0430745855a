use hardlock_snc::envelope::{apply_padding, pad_bucket_for, PadProfile};

#[test]
fn padding_buckets() {
    let v = vec![1u8; 300];
    let s = apply_padding(v.clone(), PadProfile::Stealth);
    assert_eq!(s.len(), 512);
    let b = apply_padding(v.clone(), PadProfile::Balanced);
    assert_eq!(b.len(), 512);
    let t = apply_padding(v, PadProfile::Throughput);
    assert_eq!(t.len(), 1024);
}

#[test]
fn bucket_sizes() {
    assert_eq!(pad_bucket_for(0, PadProfile::Stealth), 256);
    assert_eq!(pad_bucket_for(256, PadProfile::Stealth), 256);
    assert_eq!(pad_bucket_for(1024, PadProfile::Stealth), 1024);
    assert_eq!(pad_bucket_for(1025, PadProfile::Stealth), 2048);
    assert_eq!(pad_bucket_for(2049, PadProfile::Balanced), 4096);
    assert_eq!(pad_bucket_for(4097, PadProfile::Throughput), 8192);
    assert_eq!(pad_bucket_for(usize::MAX, PadProfile::Throughput), usize::MAX);
}

#[test]
fn padding_keeps_content_and_adds_zeros() {
    let v = vec![7u8; 3000];
    let p = apply_padding(v, PadProfile::Stealth);
    assert_eq!(p.len(), 3072);
    assert!(p[..3000].iter().all(|b| *b == 7));
    assert!(p[3000..].iter().all(|b| *b == 0));
}

use hardlock_snc::envelope::{derive_k_s, token_build, token_verify};
use rand::RngCore;

#[test]
fn token_roundtrip() {
    let mut master = [0u8; 32];
    rand::thread_rng().fill_bytes(&mut master);
    let k_s = derive_k_s(&master, b"salt");
    let expiry = 4102444800u64;
    let sender_pub = [7u8; 32];
    let scope = b"chat";
    let t = token_build(&k_s, expiry, &sender_pub, scope);
    let out = token_verify(&k_s, &t, 4100000000).expect("verify");
    assert_eq!(out.0, expiry);
    assert_eq!(out.1, sender_pub);
    assert_eq!(out.2, scope);
}

#[test]
fn token_expired() {
    let mut master = [0u8; 32];
    rand::thread_rng().fill_bytes(&mut master);
    let k_s = derive_k_s(&master, b"salt");
    let t = token_build(&k_s, 1000, &[0u8; 32], b"s");
    assert!(token_verify(&k_s, &t, 2000).is_none());
}

#[test]
fn token_wrong_key_and_boundary() {
    let k_s = derive_k_s(&[1u8; 32], b"salt");
    let other = derive_k_s(&[2u8; 32], b"salt");
    assert_ne!(k_s, other);
    let t = token_build(&k_s, 500, &[3u8; 32], b"");
    assert_eq!(t.ct.len(), 42 + 16);
    assert!(token_verify(&other, &t, 0).is_none());
    assert_eq!(token_verify(&k_s, &t, 500).unwrap().2, Vec::<u8>::new());
    assert!(token_verify(&k_s, &t, 501).is_none());
}

#[test]
fn sealed_sender_key_matches_hkdf() {
    let k = derive_k_s(b"master secret", b"salt");
    let hk = hkdf::Hkdf::<sha2::Sha256>::new(Some(b"salt"), b"master secret");
    let mut expected = [0u8; 32];
    hk.expand(b"hardlock/sealed-sender/kS", &mut expected).unwrap();
    assert_eq!(k, expected);
}
