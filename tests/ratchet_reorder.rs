use hardlock_snc::crypto::x25519_public;
use hardlock_snc::ratchet;

#[test]
fn out_of_order_decrypt() {
    let a_sk = [0x11u8; 32];
    let b_sk = [0x22u8; 32];
    let secret = [0x33u8; 32];
    let mut ra = ratchet::init_initiator(secret, a_sk, x25519_public(&b_sk));
    let mut rb = ratchet::init_responder(secret, b_sk, x25519_public(&a_sk));
    let ad = b"ad";
    let (h1, n1, c1) = ratchet::encrypt(&mut ra, ad, b"m1");
    let (h2, n2, c2) = ratchet::encrypt(&mut ra, ad, b"m2");
    let pt2 = ratchet::decrypt(&mut rb, ad, &h2, &n2, &c2).unwrap();
    let pt1 = ratchet::decrypt(&mut rb, ad, &h1, &n1, &c1).unwrap();
    assert_eq!(&pt2, b"m2");
    assert_eq!(&pt1, b"m1");
}

#[test]
fn any_delivery_order_decrypts_each_message_once() {
    let a_sk = [0x41u8; 32];
    let b_sk = [0x42u8; 32];
    let secret = [0x43u8; 32];
    let mut ra = ratchet::init_initiator(secret, a_sk, x25519_public(&b_sk));
    let mut rb = ratchet::init_responder(secret, b_sk, x25519_public(&a_sk));
    let msgs: Vec<Vec<u8>> = (0..6u8).map(|i| vec![i; i as usize * 3]).collect();
    let sealed: Vec<_> = msgs.iter().map(|m| ratchet::encrypt(&mut ra, b"x", m)).collect();
    for idx in [3usize, 0, 5, 1, 4, 2] {
        let (h, n, c) = &sealed[idx];
        assert_eq!(ratchet::decrypt(&mut rb, b"x", h, n, c).unwrap(), msgs[idx]);
    }
    for (h, n, c) in &sealed {
        assert!(ratchet::decrypt(&mut rb, b"x", h, n, c).is_err());
    }
}

#[test]
fn empty_plaintext_and_long_plaintext_round_trip() {
    let a_sk = [0x51u8; 32];
    let b_sk = [0x52u8; 32];
    let secret = [0x53u8; 32];
    let mut ra = ratchet::init_initiator(secret, a_sk, x25519_public(&b_sk));
    let mut rb = ratchet::init_responder(secret, b_sk, x25519_public(&a_sk));
    let (h, n, c) = ratchet::encrypt(&mut ra, b"", b"");
    assert_eq!(c.len(), 16);
    assert_eq!(ratchet::decrypt(&mut rb, b"", &h, &n, &c).unwrap(), Vec::<u8>::new());
    let big = vec![0x5au8; 4096];
    let (h, n, c) = ratchet::encrypt(&mut ra, b"ad", &big);
    assert_eq!(c.len(), 4096 + 16);
    assert_ne!(&c[..4096], &big[..]);
    assert_eq!(ratchet::decrypt(&mut rb, b"ad", &h, &n, &c).unwrap(), big);
}
