use hardlock_snc::crypto::x25519_public;
use hardlock_snc::ratchet;
use hardlock_snc::wire::handshake::{decode_init_v2, encode_init_v2};
use rand::{rngs::StdRng, seq::SliceRandom, SeedableRng};

#[test]
fn sim_end_to_end_reorder() {
    let mut rng = StdRng::seed_from_u64(42);
    let alice_sk = [0xa1u8; 32];
    let bob_sk = [0xb0u8; 32];
    let shared = [0x5eu8; 32];

    let enc = x25519_public(&[0xe1u8; 32]);
    let binder = [0x42u8; 32];
    let frame = encode_init_v2(0x01, &enc, &binder);
    let (suite, enc2, binder2) = decode_init_v2(&frame).unwrap();
    assert_eq!(suite, 0x01);
    assert_eq!(enc2, enc.to_vec());
    assert_eq!(binder2, binder);

    let mut ra = ratchet::init_initiator(shared, alice_sk, x25519_public(&bob_sk));
    let mut rb = ratchet::init_responder(shared, bob_sk, x25519_public(&alice_sk));

    let ad = b"sim/e2e";
    let mut msgs = Vec::new();
    for i in 0..64u32 {
        let m = format!("m{}", i);
        let (h, n, ct) = ratchet::encrypt(&mut ra, ad, m.as_bytes());
        msgs.push((h, n, ct, m));
    }
    msgs.shuffle(&mut rng);
    for (h, n, ct, m) in msgs {
        let pt = ratchet::decrypt(&mut rb, ad, &h, &n, &ct).expect("decrypt");
        assert!(pt.starts_with(b"m"));
        assert_eq!(pt, m.into_bytes());
    }
}
