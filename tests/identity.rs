use hardlock_snc::crypto::{x25519_public, Ed25519Identity};
use hardlock_snc::identity::DeviceIdentity;

#[test]
fn device_identity_signs_and_verifies() {
    let d = DeviceIdentity::generate("alice".into(), "phone".into());
    assert_eq!(d.user_id, "alice");
    assert_eq!(d.device_id, "phone");
    let sig = d.sign(b"hello");
    assert!(d.ed25519.verify(b"hello", &sig));
    assert!(!d.ed25519.verify(b"hellO", &sig));
    let vk = ed25519_dalek::VerifyingKey::from_bytes(&d.verifying_key()).unwrap();
    assert!(ed25519_dalek::Verifier::verify(&vk, b"hello", &ed25519_dalek::Signature::from_bytes(&sig)).is_ok());
    let sk: [u8; 32] = d.x25519.sk.clone().try_into().unwrap();
    assert_eq!(d.x25519.public(), x25519_public(&sk));
}

#[test]
fn ed25519_identity_matches_dalek() {
    let id = Ed25519Identity::generate();
    let sk: [u8; 32] = id.sk.clone().try_into().unwrap();
    let dalek = ed25519_dalek::SigningKey::from_bytes(&sk);
    assert_eq!(id.pk, dalek.verifying_key().to_bytes().to_vec());
    let sig = id.sign(b"m");
    assert_eq!(sig, ed25519_dalek::Signer::sign(&dalek, b"m").to_bytes());
    let bad = Ed25519Identity { pk: vec![0xffu8; 32], sk: id.sk.clone() };
    assert!(!bad.verify(b"m", &sig));
}
