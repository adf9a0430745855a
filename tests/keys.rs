use hardlock_snc::crypto::{derive_initial_secret, x25519_public, X25519KeyPair};

#[test]
fn key_pair_from_seed_matches_x25519_dalek() {
    let kp = X25519KeyPair::from_seed([0x21u8; 32]);
    let expected = x25519_dalek::PublicKey::from(&x25519_dalek::StaticSecret::from([0x21u8; 32])).to_bytes();
    assert_eq!(kp.public(), expected);
    assert_eq!(kp.sk, vec![0x21u8; 32]);
}

#[test]
fn generated_key_pairs_differ() {
    let a = X25519KeyPair::generate();
    let b = X25519KeyPair::generate();
    assert_eq!(a.sk.len(), 32);
    assert_ne!(a.sk, b.sk);
    let again = X25519KeyPair::from_seed(a.sk.clone().try_into().unwrap());
    assert_eq!(again.pk, a.pk);
}

#[test]
fn initial_secret_is_hkdf_of_dh_with_transcript() {
    let sk = [0x31u8; 32];
    let pk = x25519_public(&[0x32u8; 32]);
    let hs = derive_initial_secret(&sk, &pk);
    let mut t = b"HL1:".to_vec();
    t.extend_from_slice(&pk);
    assert_eq!(hs.transcript, t);
    let dh = x25519_dalek::x25519(sk, pk);
    let hk = hkdf::Hkdf::<sha2::Sha256>::new(None, &dh);
    let mut expected = [0u8; 32];
    hk.expand(&t, &mut expected).unwrap();
    assert_eq!(hs.secret, expected);
}
