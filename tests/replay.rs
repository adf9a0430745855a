use hardlock_snc::crypto::x25519_public;
use hardlock_snc::ratchet;
use hardlock_snc::ratchet::RatchetError;

#[test]
fn reject_replay_same_header() {
    let a_sk = [0x61u8; 32];
    let b_sk = [0x62u8; 32];
    let secret = [0x63u8; 32];
    let mut ra = ratchet::init_initiator(secret, a_sk, x25519_public(&b_sk));
    let mut rb = ratchet::init_responder(secret, b_sk, x25519_public(&a_sk));
    let ad = b"ad";

    let (h, n, ct) = ratchet::encrypt(&mut ra, ad, b"m");
    let pt1 = ratchet::decrypt(&mut rb, ad, &h, &n, &ct).unwrap();
    assert_eq!(&pt1, b"m");
    let pt2 = ratchet::decrypt(&mut rb, ad, &h, &n, &ct);
    assert!(pt2.is_err());
}

#[test]
fn tampering_and_wrong_data_are_rejected() {
    let a_sk = [0x71u8; 32];
    let b_sk = [0x72u8; 32];
    let secret = [0x73u8; 32];
    let mut ra = ratchet::init_initiator(secret, a_sk, x25519_public(&b_sk));
    let mut rb = ratchet::init_responder(secret, b_sk, x25519_public(&a_sk));
    let (h, n, mut ct) = ratchet::encrypt(&mut ra, b"ad", b"payload");
    ct[0] ^= 1;
    assert_eq!(ratchet::decrypt(&mut rb, b"ad", &h, &n, &ct).unwrap_err(), RatchetError::Decrypt);
    let (h2, n2, ct2) = ratchet::encrypt(&mut ra, b"ad", b"second");
    assert_eq!(ratchet::decrypt(&mut rb, b"other", &h2, &n2, &ct2).unwrap_err(), RatchetError::Decrypt);
}
