use hardlock_snc::crypto::x25519_public;
use hardlock_snc::ratchet;

#[test]
fn handshake_and_roundtrip() {
    let alice_sk = [0x0au8; 32];
    let bob_sk = [0x0bu8; 32];
    let shared = [0x77u8; 32];
    let mut r_alice = ratchet::init_initiator(shared, alice_sk, x25519_public(&bob_sk));
    let mut r_bob = ratchet::init_responder(shared, bob_sk, x25519_public(&alice_sk));
    let ad = b"ad";
    let (h, n, ct) = ratchet::encrypt(&mut r_alice, ad, b"msg-1");
    let pt = ratchet::decrypt(&mut r_bob, ad, &h, &n, &ct).expect("decrypt");
    assert_eq!(&pt, b"msg-1");
}

#[test]
fn mismatched_shared_secret_fails() {
    let alice_sk = [0x0cu8; 32];
    let bob_sk = [0x0du8; 32];
    let mut r_alice = ratchet::init_initiator([1u8; 32], alice_sk, x25519_public(&bob_sk));
    let mut r_bob = ratchet::init_responder([2u8; 32], bob_sk, x25519_public(&alice_sk));
    let (h, n, ct) = ratchet::encrypt(&mut r_alice, b"", b"x");
    assert!(ratchet::decrypt(&mut r_bob, b"", &h, &n, &ct).is_err());
}
