use hardlock_snc::wire::handshake::{decode_init, encode_init, TYPE_INIT};
use hardlock_snc::wire::WireError;

#[test]
fn handshake_encode_decode_roundtrip() {
    let enc = vec![1, 2, 3, 4, 5, 6, 7, 8, 9];
    let f = encode_init(&enc);
    let back = decode_init(&f).expect("decode");
    assert_eq!(back, enc);
}

#[test]
fn handshake_layout_and_errors() {
    let f = encode_init(&[0xaa, 0xbb]);
    assert_eq!(f, vec![TYPE_INIT, 2, 0, 0, 0, 0xaa, 0xbb]);
    assert_eq!(decode_init(&f[..4]).unwrap_err(), WireError::ShortFrame);
    assert_eq!(decode_init(&f[..6]).unwrap_err(), WireError::TruncatedPayload);
    let mut other = f.clone();
    other[0] = 0x02;
    assert_eq!(decode_init(&other).unwrap_err(), WireError::BadType);
    assert_eq!(decode_init(&encode_init(&[])).unwrap(), Vec::<u8>::new());
}
