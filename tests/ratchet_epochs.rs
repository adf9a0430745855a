use hardlock_snc::crypto::x25519_public;
use hardlock_snc::ratchet;
use hardlock_snc::ratchet::schedule::{kdf_ck, kdf_rk};
use hardlock_snc::ratchet::state::{DeliveredWindow, Header, RatchetState, SKIPPED_MAX};

#[test]
fn pipeline_scenario_with_reply_and_new_epoch() {
    let secret = [0x09u8; 32];
    let i_sk = [0x01u8; 32];
    let r_sk = [0x02u8; 32];
    let mut init = ratchet::init_initiator(secret, i_sk, x25519_public(&r_sk));
    let mut resp = ratchet::init_responder(secret, r_sk, x25519_public(&i_sk));
    let ad = b"env/pipeline";

    let (h, n, c) = ratchet::encrypt(&mut init, ad, b"hello");
    assert_eq!(h.n, 0);
    assert_eq!(h.pn, 0);
    assert_eq!(c.len(), 21);
    assert_eq!(init.ns, 1);
    assert_eq!(h.dh_pub, x25519_public(&i_sk));
    assert_eq!(ratchet::decrypt(&mut resp, ad, &h, &n, &c).unwrap(), b"hello".to_vec());

    let (rh, rn, rc) = ratchet::encrypt(&mut resp, ad, b"reply");
    assert_ne!(rh.dh_pub, x25519_public(&r_sk));
    assert_eq!(rh.n, 0);
    assert_eq!(ratchet::decrypt(&mut init, ad, &rh, &rn, &rc).unwrap(), b"reply".to_vec());

    let (h2, n2, c2) = ratchet::encrypt(&mut init, ad, b"again");
    assert_eq!(h2.n, 0);
    assert_eq!(h2.pn, 1);
    assert_ne!(h2.dh_pub, h.dh_pub);
    assert_eq!(ratchet::decrypt(&mut resp, ad, &h2, &n2, &c2).unwrap(), b"again".to_vec());
}

#[test]
fn late_message_from_previous_epoch_decrypts_once() {
    let secret = [0x19u8; 32];
    let a_sk = [0x0au8; 32];
    let b_sk = [0x0bu8; 32];
    let mut a = ratchet::init_initiator(secret, a_sk, x25519_public(&b_sk));
    let mut b = ratchet::init_responder(secret, b_sk, x25519_public(&a_sk));
    let m0 = ratchet::encrypt(&mut a, b"", b"zero");
    let m1 = ratchet::encrypt(&mut a, b"", b"one");
    let m2 = ratchet::encrypt(&mut a, b"", b"two");
    assert_eq!(ratchet::decrypt(&mut b, b"", &m1.0, &m1.1, &m1.2).unwrap(), b"one".to_vec());
    let r = ratchet::encrypt(&mut b, b"", b"back");
    assert_eq!(ratchet::decrypt(&mut a, b"", &r.0, &r.1, &r.2).unwrap(), b"back".to_vec());
    let m3 = ratchet::encrypt(&mut a, b"", b"three");
    assert_eq!(m3.0.pn, 3);
    assert_eq!(ratchet::decrypt(&mut b, b"", &m3.0, &m3.1, &m3.2).unwrap(), b"three".to_vec());
    assert_eq!(b.skipped.len(), 2);
    let epoch = b.dh_r_pub;
    let (rk, nr, ns) = (b.rk, b.nr, b.ns);
    assert_eq!(ratchet::decrypt(&mut b, b"", &m2.0, &m2.1, &m2.2).unwrap(), b"two".to_vec());
    assert_eq!(ratchet::decrypt(&mut b, b"", &m0.0, &m0.1, &m0.2).unwrap(), b"zero".to_vec());
    assert!(b.skipped.is_empty());
    // the late messages leave the receiving epoch and its window alone
    assert_eq!(b.dh_r_pub, epoch);
    assert_eq!(b.delivered_win.dh_pub, epoch);
    assert!(b.delivered_win.was_delivered(epoch, 0));
    assert_eq!((b.rk, b.nr, b.ns), (rk, nr, ns));
    assert!(ratchet::decrypt(&mut b, b"", &m0.0, &m0.1, &m0.2).is_err());
    assert!(ratchet::decrypt(&mut b, b"", &m2.0, &m2.1, &m2.2).is_err());
    assert!(ratchet::decrypt(&mut b, b"", &m3.0, &m3.1, &m3.2).is_err());
    // replays started no DH step: the conversation goes on
    assert_eq!(b.dh_r_pub, epoch);
    assert_eq!((b.rk, b.nr, b.ns), (rk, nr, ns));
    let m4 = ratchet::encrypt(&mut a, b"", b"four");
    assert_eq!(ratchet::decrypt(&mut b, b"", &m4.0, &m4.1, &m4.2).unwrap(), b"four".to_vec());
    assert_eq!(b.late_delivered.len(), 2);
    // a header of an earlier epoch that is neither cached nor recorded is a
    // key different from the receiving one: it starts a DH step
    let stale = Header { dh_pub: m0.0.dh_pub, pn: 0, n: 7 };
    assert!(ratchet::decrypt(&mut b, b"", &stale, &m0.1, &m0.2).is_err());
    assert_eq!(b.dh_r_pub, m0.0.dh_pub);
    assert_eq!((b.nr, b.ns), (8, 0));
    assert_ne!(b.rk, rk);
}

#[test]
fn oldest_skipped_key_is_evicted() {
    let secret = [0x29u8; 32];
    let a_sk = [0x1au8; 32];
    let b_sk = [0x1bu8; 32];
    let mut a = ratchet::init_initiator(secret, a_sk, x25519_public(&b_sk));
    let mut b = ratchet::init_responder(secret, b_sk, x25519_public(&a_sk));
    let total = SKIPPED_MAX + 2;
    let msgs: Vec<_> = (0..total).map(|_| ratchet::encrypt(&mut a, b"", b"m")).collect();
    let last = &msgs[total - 1];
    assert!(ratchet::decrypt(&mut b, b"", &last.0, &last.1, &last.2).is_ok());
    assert_eq!(b.skipped.len(), SKIPPED_MAX);
    assert_eq!(b.skipped[0].n, 1);
    assert!(b.skipped.iter().all(|e| e.n != 0));
    assert!(b.try_skipped(&msgs[0].0).is_none());
    assert!(b.try_skipped(&msgs[1].0).is_some());
    assert_eq!(b.skipped.len(), SKIPPED_MAX - 1);
    // counters below the replay window's base count as delivered
    assert!(ratchet::decrypt(&mut b, b"", &msgs[2].0, &msgs[2].1, &msgs[2].2).is_err());
}

#[test]
fn state_counters_follow_the_protocol() {
    let secret = [0x39u8; 32];
    let a_sk = [0x2au8; 32];
    let b_sk = [0x2bu8; 32];
    let mut a = RatchetState::init_initiator(secret, a_sk, x25519_public(&b_sk));
    assert!(a.ck_r.is_none());
    assert!(a.ck_s.is_some());
    let (mk0, h0) = a.next_sending_key();
    let (mk1, h1) = a.next_sending_key();
    assert_eq!((h0.n, h1.n, a.ns), (0, 1, 2));
    assert_ne!(mk0, mk1);
    let mut b = RatchetState::init_responder(secret, b_sk, x25519_public(&a_sk));
    assert!(b.ck_s.is_none());
    b.skip_recv_until(1);
    assert_eq!(b.nr, 1);
    assert_eq!(b.skipped.len(), 1);
    assert_eq!(b.next_recv_key(), Some(mk1));
    assert_eq!(b.try_skipped(&h0), Some(mk0));
    assert_eq!(b.try_skipped(&h0), None);
    assert!(!b.maybe_step(&h0));
    let other = Header { dh_pub: [5u8; 32], pn: 4, n: 0 };
    assert!(b.maybe_step(&other));
    assert_eq!((b.nr, b.ns, b.pn), (0, 0, 0));
    assert_eq!(b.skipped.len(), 2);
    assert_eq!(b.dh_r_pub, [5u8; 32]);
}

#[test]
fn kdf_outputs_match_hkdf() {
    let ck = [0x44u8; 32];
    let (next, mk) = kdf_ck(&ck);
    let hk = hkdf::Hkdf::<sha2::Sha256>::new(None, &ck);
    let mut okm = [0u8; 64];
    hk.expand(b"hardlock/ratchet/kdf_ck", &mut okm).unwrap();
    assert_eq!(&next[..], &okm[..32]);
    assert_eq!(&mk[..], &okm[32..]);
    let rk = [0x55u8; 32];
    let (rk2, ck2) = kdf_rk(&rk, &ck);
    let hk = hkdf::Hkdf::<sha2::Sha256>::new(Some(&rk), &ck);
    hk.expand(b"hardlock/ratchet/kdf_rk", &mut okm).unwrap();
    assert_eq!(&rk2[..], &okm[..32]);
    assert_eq!(&ck2[..], &okm[32..]);
    assert_ne!(rk2, rk);
}

#[test]
fn public_key_matches_x25519_dalek() {
    let sk = [0x66u8; 32];
    let expected = x25519_dalek::PublicKey::from(&x25519_dalek::StaticSecret::from(sk)).to_bytes();
    assert_eq!(x25519_public(&sk), expected);
}

#[test]
fn replay_window_marks_slides_and_resets() {
    let pk = [1u8; 32];
    let mut w = DeliveredWindow::new(pk);
    assert!(!w.was_delivered(pk, 0));
    w.mark(pk, 5);
    assert!(w.was_delivered(pk, 5));
    assert!(!w.was_delivered(pk, 4));
    assert!(!w.was_delivered([2u8; 32], 5));
    w.mark(pk, 2000);
    assert_eq!(w.base, 2000 - 1023);
    assert!(w.was_delivered(pk, 2000));
    assert!(w.was_delivered(pk, 5));
    assert!(!w.was_delivered(pk, 1999));
    assert!(!w.was_delivered(pk, 3000));
    w.mark([2u8; 32], 7);
    assert_eq!(w.base, 0);
    assert!(w.was_delivered([2u8; 32], 7));
    assert!(!w.was_delivered([2u8; 32], 8));
    assert!(!w.was_delivered(pk, 2000));
}

#[test]
fn replay_window_slide_keeps_flags_in_range() {
    let pk = [4u8; 32];
    let mut w = DeliveredWindow::new(pk);
    w.mark(pk, 1000);
    w.mark(pk, 300);
    w.mark(pk, 1500);
    assert_eq!(w.base, 477);
    assert!(w.was_delivered(pk, 1000));
    assert!(w.was_delivered(pk, 1500));
    assert!(w.was_delivered(pk, 300));
    assert!(!w.was_delivered(pk, 1001));
    assert!(!w.was_delivered(pk, 477));
    w.mark(pk, 1000 + 1023);
    assert_eq!(w.base, 1000);
    assert!(w.was_delivered(pk, 1000));
    assert!(!w.was_delivered(pk, 1001));
    w.mark(pk, 1000 + 1024);
    assert!(w.was_delivered(pk, 1000));
    assert!(!w.was_delivered(pk, 1002));
    assert!(w.was_delivered(pk, 1500));
}
