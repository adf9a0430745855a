use hardlock_snc::ratchet::state::Header;
use hardlock_snc::wire::{header_from_bytes, header_to_bytes, pack_message, unpack_message, WireError};

#[test]
fn pack_unpack_roundtrip() {
    let h = Header {
        dh_pub: [7u8; 32],
        pn: 3,
        n: 9,
    };
    let nonce = [5u8; 24];
    let ct = vec![1, 2, 3, 4, 5, 6, 7, 8, 9];
    let frame = pack_message(0x0110, &h, &nonce, &ct, 64);
    let (ver, h2, n2, ct2) = unpack_message(&frame).expect("unpack");
    assert_eq!(ver, 0x0110);
    assert_eq!(h2.dh_pub, h.dh_pub);
    assert_eq!(h2.pn, h.pn);
    assert_eq!(h2.n, h.n);
    assert_eq!(n2, nonce);
    assert_eq!(ct2, ct);
}

#[test]
fn header_bytes_layout() {
    let h = Header { dh_pub: [0xab; 32], pn: 0x0102_0304, n: 0x0a0b_0c0d };
    let b = header_to_bytes(&h);
    assert_eq!(&b[0..32], &[0xab; 32][..]);
    assert_eq!(&b[32..36], &[4, 3, 2, 1]);
    assert_eq!(&b[36..40], &[0x0d, 0x0c, 0x0b, 0x0a]);
    let back = header_from_bytes(&b).expect("decode");
    assert_eq!(back.dh_pub, h.dh_pub);
    assert_eq!(back.pn, h.pn);
    assert_eq!(back.n, h.n);
}

#[test]
fn header_decode_rejects_short_input() {
    for len in 0..40 {
        let b = vec![1u8; len];
        assert_eq!(header_from_bytes(&b).unwrap_err(), WireError::ShortHeader);
    }
    assert!(header_from_bytes(&[1u8; 41]).is_ok());
}

#[test]
fn frame_round_trip_for_pad_targets_and_lengths() {
    let h = Header { dh_pub: [3u8; 32], pn: 17, n: 4 };
    let nonce = [9u8; 24];
    for pad_to in [0usize, 1, 64] {
        for len in [0usize, 1, 63, 5000] {
            let ct: Vec<u8> = (0..len).map(|i| (i % 251) as u8).collect();
            let frame = pack_message(7, &h, &nonce, &ct, pad_to);
            if pad_to > 0 {
                assert_eq!(frame.len() % pad_to, 0);
            } else {
                assert_eq!(frame.len(), 74 + len);
            }
            let (ver, h2, n2, ct2) = unpack_message(&frame).expect("unpack");
            assert_eq!(ver, 7);
            assert_eq!(h2.dh_pub, h.dh_pub);
            assert_eq!(h2.pn, h.pn);
            assert_eq!(h2.n, h.n);
            assert_eq!(n2, nonce);
            assert_eq!(ct2, ct);
        }
    }
}

#[test]
fn frame_layout_is_exact() {
    let h = Header { dh_pub: [1u8; 32], pn: 2, n: 3 };
    let frame = pack_message(0x0110, &h, &[4u8; 24], &[5, 6], 0);
    assert_eq!(frame.len(), 76);
    assert_eq!(&frame[0..2], &[0x10, 0x01]);
    assert_eq!(&frame[66..70], &[2, 0, 0, 0]);
    assert_eq!(&frame[70..72], &[5, 6]);
    assert_eq!(&frame[72..76], &[0, 0, 0, 0]);
    let padded = pack_message(0x0110, &h, &[4u8; 24], &[5, 6], 64);
    assert_eq!(padded.len(), 128);
    assert_eq!(&padded[72..76], &[52, 0, 0, 0]);
    assert!(padded[76..].iter().all(|b| *b == 0));
}

#[test]
fn unpack_rejects_truncated_frames() {
    let h = Header { dh_pub: [1u8; 32], pn: 0, n: 0 };
    let frame = pack_message(1, &h, &[0u8; 24], &[7u8; 10], 64);
    assert_eq!(unpack_message(&frame[..73]).unwrap_err(), WireError::ShortFrame);
    assert_eq!(unpack_message(&frame[..80]).unwrap_err(), WireError::TruncatedCiphertext);
    assert_eq!(unpack_message(&frame[..84]).unwrap_err(), WireError::TruncatedPadding);
    assert_eq!(unpack_message(&frame[..127]).unwrap_err(), WireError::TruncatedPadding);
    assert!(unpack_message(&frame).is_ok());
    let mut huge = frame.clone();
    huge[66..70].copy_from_slice(&u32::MAX.to_le_bytes());
    assert_eq!(unpack_message(&huge).unwrap_err(), WireError::TruncatedCiphertext);
}
