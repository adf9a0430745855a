//! Wire codec: the fixed 40-byte message header and the message frame
//! `version ‖ header ‖ nonce ‖ ct_len ‖ ct ‖ pad_len ‖ zero padding`.

pub mod handshake;

use vstd::prelude::*;
use vstd::bytes::{
    spec_u16_from_le_bytes, spec_u16_to_le_bytes, spec_u32_from_le_bytes, spec_u32_to_le_bytes,
    u16_from_le_bytes, u16_to_le_bytes, u32_from_le_bytes, u32_to_le_bytes,
};
use crate::ratchet::state::Header;

verus! {

/// Protocol version written in front of frames.
pub const HL_VERSION: u16 = 0x0110;

/// Length of an encoded header.
pub const HEADER_LEN: usize = 40;

/// Length of a frame's fixed prefix: version, header, nonce and the
/// ciphertext length.
pub const FRAME_PREFIX_LEN: usize = 70;

/// Length of a frame carrying an empty ciphertext and no padding.
pub const FRAME_MIN_LEN: usize = 74;

/// Why a header or a frame was rejected.
#[derive(Clone, Copy, Debug, PartialEq, Eq)]
pub enum WireError {
    /// Fewer than 40 bytes of header.
    ShortHeader,
    /// Fewer bytes than the fixed part of a frame.
    ShortFrame,
    /// The ciphertext or the padding length field runs past the end.
    TruncatedCiphertext,
    /// The padding runs past the end.
    TruncatedPadding,
    /// A handshake message of another type.
    BadType,
    /// A handshake payload runs past the end.
    TruncatedPayload,
}

/// The 40 bytes of a header: public key, then `pn` and `n` little-endian.
pub open spec fn header_bytes(h: Header) -> Seq<u8> {
    h.dh_pub@ + spec_u32_to_le_bytes(h.pn) + spec_u32_to_le_bytes(h.n)
}

/// `h` is the header that the first 40 bytes of `b` encode.
pub open spec fn header_decodes(b: Seq<u8>, h: Header) -> bool {
    &&& h.dh_pub@ == b.subrange(0, 32)
    &&& h.pn == spec_u32_from_le_bytes(b.subrange(32, 36))
    &&& h.n == spec_u32_from_le_bytes(b.subrange(36, 40))
}

/// Copies `len` bytes of `b` from `start` into a new vector.
pub fn copy_range(b: &[u8], start: usize, len: usize) -> (r: Vec<u8>)
    requires
        start + len <= b@.len(),
    ensures
        r@ == b@.subrange(start as int, start + len),
{
    let blen = b.len();
    let mut r: Vec<u8> = Vec::with_capacity(len);
    let mut i: usize = 0;
    while i < len
        invariant
            0 <= i <= len,
            blen == b@.len(),
            start + len <= b@.len(),
            r@ == b@.subrange(start as int, start + i),
        decreases len - i,
    {
        r.push(b[start + i]);
        i = i + 1;
        assert(r@ =~= b@.subrange(start as int, start + i));
    }
    r
}

/// Copies 32 bytes of `b` from `start` into an array.
pub fn copy32(b: &[u8], start: usize) -> (r: [u8; 32])
    requires
        start + 32 <= b@.len(),
    ensures
        r@ == b@.subrange(start as int, start + 32),
{
    let blen = b.len();
    let mut r = [0u8; 32];
    let mut i: usize = 0;
    while i < 32
        invariant
            0 <= i <= 32,
            blen == b@.len(),
            start + 32 <= b@.len(),
            forall|j: int| 0 <= j < i ==> r@[j] == b@[start + j],
        decreases 32 - i,
    {
        r[i] = b[start + i];
        i = i + 1;
    }
    assert(r@ =~= b@.subrange(start as int, start + 32));
    r
}

/// Copies 24 bytes of `b` from `start` into an array.
pub fn copy24(b: &[u8], start: usize) -> (r: [u8; 24])
    requires
        start + 24 <= b@.len(),
    ensures
        r@ == b@.subrange(start as int, start + 24),
{
    let blen = b.len();
    let mut r = [0u8; 24];
    let mut i: usize = 0;
    while i < 24
        invariant
            0 <= i <= 24,
            blen == b@.len(),
            start + 24 <= b@.len(),
            forall|j: int| 0 <= j < i ==> r@[j] == b@[start + j],
        decreases 24 - i,
    {
        r[i] = b[start + i];
        i = i + 1;
    }
    assert(r@ =~= b@.subrange(start as int, start + 24));
    r
}

/// Encodes a header into its 40 bytes.
pub fn header_to_bytes(h: &Header) -> (r: [u8; HEADER_LEN])
    ensures
        r@ == header_bytes(*h),
{
    let pn = u32_to_le_bytes(h.pn);
    let n = u32_to_le_bytes(h.n);
    proof {
        vstd::bytes::lemma_auto_spec_u32_to_from_le_bytes();
    }
    let mut b = [0u8; HEADER_LEN];
    let mut i: usize = 0;
    while i < HEADER_LEN
        invariant
            0 <= i <= HEADER_LEN,
            pn@ == spec_u32_to_le_bytes(h.pn),
            n@ == spec_u32_to_le_bytes(h.n),
            pn@.len() == 4,
            n@.len() == 4,
            forall|j: int| 0 <= j < i ==> b@[j] == header_bytes(*h)[j],
        decreases HEADER_LEN - i,
    {
        if i < 32 {
            b[i] = h.dh_pub[i];
        } else if i < 36 {
            b[i] = pn[i - 32];
        } else {
            b[i] = n[i - 36];
        }
        i = i + 1;
    }
    assert(b@ =~= header_bytes(*h));
    b
}

/// Decodes the header held by the first 40 bytes of `b`.
pub fn header_from_bytes(b: &[u8]) -> (r: Result<Header, WireError>)
    ensures
        match r {
            Ok(h) => b@.len() >= HEADER_LEN && header_decodes(b@, h),
            Err(e) => b@.len() < HEADER_LEN && e == WireError::ShortHeader,
        },
{
    if b.len() < HEADER_LEN {
        return Err(WireError::ShortHeader);
    }
    let dh = copy32(b, 0);
    let pn = u32_from_le_bytes(&b[32..36]);
    let n = u32_from_le_bytes(&b[36..40]);
    Ok(Header { dh_pub: dh, pn, n })
}

/// Decoding an encoded header gives the header back.
pub proof fn lemma_header_round_trip(h: Header)
    ensures
        header_bytes(h).len() == HEADER_LEN,
        header_decodes(header_bytes(h), h),
{
    vstd::bytes::lemma_auto_spec_u32_to_from_le_bytes();
    let b = header_bytes(h);
    assert(b.subrange(0, 32) =~= h.dh_pub@);
    assert(b.subrange(32, 36) =~= spec_u32_to_le_bytes(h.pn));
    assert(b.subrange(36, 40) =~= spec_u32_to_le_bytes(h.n));
}

/// Appends the bytes of `src` to `out`.
pub fn append_bytes(out: &mut Vec<u8>, src: &[u8])
    ensures
        final(out)@ == old(out)@ + src@,
{
    let n = src.len();
    let mut i: usize = 0;
    while i < n
        invariant
            0 <= i <= n,
            n == src@.len(),
            out@ == old(out)@ + src@.subrange(0, i as int),
        decreases n - i,
    {
        out.push(src[i]);
        i = i + 1;
        assert(out@ =~= old(out)@ + src@.subrange(0, i as int));
    }
    assert(src@.subrange(0, n as int) =~= src@);
}

/// Zero bytes of padding needed to bring `cur` bytes to a multiple of
/// `pad_to` (none when `pad_to` is zero).
pub open spec fn pad_len_for(pad_to: nat, cur: nat) -> nat {
    if pad_to == 0 {
        0
    } else {
        ((pad_to as int - (cur % pad_to) as int) % (pad_to as int)) as nat
    }
}

/// The bytes of a frame.
pub open spec fn frame_bytes(ver: u16, h: Header, nonce: Seq<u8>, ct: Seq<u8>, pad_to: nat) -> Seq<u8> {
    let pad = pad_len_for(pad_to, (FRAME_MIN_LEN + ct.len()) as nat);
    spec_u16_to_le_bytes(ver) + header_bytes(h) + nonce + spec_u32_to_le_bytes(ct.len() as u32) + ct
        + spec_u32_to_le_bytes(pad as u32) + Seq::new(pad, |i: int| 0u8)
}

/// The ciphertext length a frame declares.
pub open spec fn frame_ct_len(b: Seq<u8>) -> int {
    spec_u32_from_le_bytes(b.subrange(66, 70)) as int
}

/// The padding length a frame declares.
pub open spec fn frame_pad_len(b: Seq<u8>) -> int {
    let l = frame_ct_len(b);
    spec_u32_from_le_bytes(b.subrange(70 + l, 74 + l)) as int
}

/// Why a frame is rejected, checking each length boundary in turn; `None`
/// for a well-formed frame.
pub open spec fn frame_error(b: Seq<u8>) -> Option<WireError> {
    if b.len() < FRAME_MIN_LEN {
        Some(WireError::ShortFrame)
    } else if b.len() < FRAME_MIN_LEN + frame_ct_len(b) {
        Some(WireError::TruncatedCiphertext)
    } else if b.len() < FRAME_MIN_LEN + frame_ct_len(b) + frame_pad_len(b) {
        Some(WireError::TruncatedPadding)
    } else {
        None
    }
}

/// Builds the frame of a message, padded with zeros so that its length is a
/// multiple of `pad_to` (no padding when `pad_to` is zero).
pub fn pack_message(ver: u16, header: &Header, nonce: &[u8; 24], ct: &[u8], pad_to: usize) -> (r: Vec<u8>)
    requires
        ct@.len() <= u32::MAX,
        pad_to <= u32::MAX + 1,
        FRAME_MIN_LEN + ct@.len() + pad_to <= usize::MAX,
    ensures
        r@ == frame_bytes(ver, *header, nonce@, ct@, pad_to as nat),
{
    let hb = header_to_bytes(header);
    let mut out: Vec<u8> = Vec::new();
    let vb = u16_to_le_bytes(ver);
    append_bytes(&mut out, vb.as_slice());
    append_bytes(&mut out, hb.as_slice());
    append_bytes(&mut out, nonce.as_slice());
    let lb = u32_to_le_bytes(ct.len() as u32);
    append_bytes(&mut out, lb.as_slice());
    append_bytes(&mut out, ct);
    let cur = out.len() + 4;
    let pad_len: usize = if pad_to == 0 {
        0
    } else {
        (pad_to - (cur % pad_to)) % pad_to
    };
    let pb = u32_to_le_bytes(pad_len as u32);
    append_bytes(&mut out, pb.as_slice());
    let ghost before = out@;
    let mut i: usize = 0;
    while i < pad_len
        invariant
            0 <= i <= pad_len,
            out@ == before + Seq::new(i as nat, |k: int| 0u8),
        decreases pad_len - i,
    {
        out.push(0u8);
        i = i + 1;
        assert(out@ =~= before + Seq::new(i as nat, |k: int| 0u8));
    }
    assert(out@ =~= frame_bytes(ver, *header, nonce@, ct@, pad_to as nat));
    out
}

/// Reads a frame back into `(version, header, nonce, ciphertext)`, checking
/// every length against the input before reading past it.
pub fn unpack_message(b: &[u8]) -> (r: Result<(u16, Header, [u8; 24], Vec<u8>), WireError>)
    ensures
        match r {
            Ok((ver, h, nonce, ct)) => {
                &&& frame_error(b@) is None
                &&& ver == spec_u16_from_le_bytes(b@.subrange(0, 2))
                &&& header_decodes(b@.subrange(2, 42), h)
                &&& nonce@ == b@.subrange(42, 66)
                &&& ct@ == b@.subrange(70, 70 + frame_ct_len(b@))
            },
            Err(e) => frame_error(b@) == Some(e),
        },
{
    let blen = b.len();
    if blen < FRAME_MIN_LEN {
        return Err(WireError::ShortFrame);
    }
    let ver = u16_from_le_bytes(&b[0..2]);
    let hdr = match header_from_bytes(&b[2..42]) {
        Ok(h) => h,
        Err(e) => return Err(e),
    };
    assert(b@.subrange(2, 42).subrange(0, 32) =~= b@.subrange(2, 34));
    assert(b@.subrange(2, 42) =~= b@.subrange(2, 42).subrange(0, 40));
    let nonce = copy24(b, 42);
    let ct_len = u32_from_le_bytes(&b[66..70]) as usize;
    let start: usize = FRAME_PREFIX_LEN;
    if blen - start < 4 || blen - start - 4 < ct_len {
        return Err(WireError::TruncatedCiphertext);
    }
    let ct = copy_range(b, start, ct_len);
    let pad_len = u32_from_le_bytes(&b[start + ct_len..start + ct_len + 4]) as usize;
    if blen - (start + ct_len + 4) < pad_len {
        return Err(WireError::TruncatedPadding);
    }
    Ok((ver, hdr, nonce, ct))
}

/// Unpacking a packed frame gives back its version, header, nonce and
/// ciphertext, whatever the padding target.
pub proof fn lemma_frame_round_trip(ver: u16, h: Header, nonce: Seq<u8>, ct: Seq<u8>, pad_to: nat)
    requires
        nonce.len() == 24,
        ct.len() <= u32::MAX,
        pad_to <= u32::MAX + 1,
    ensures
        ({
            let b = frame_bytes(ver, h, nonce, ct, pad_to);
            &&& frame_error(b) is None
            &&& spec_u16_from_le_bytes(b.subrange(0, 2)) == ver
            &&& header_decodes(b.subrange(2, 42), h)
            &&& b.subrange(42, 66) == nonce
            &&& frame_ct_len(b) == ct.len()
            &&& b.subrange(70, 70 + frame_ct_len(b)) == ct
        }),
{
    vstd::bytes::lemma_auto_spec_u16_to_from_le_bytes();
    vstd::bytes::lemma_auto_spec_u32_to_from_le_bytes();
    lemma_header_round_trip(h);
    let b = frame_bytes(ver, h, nonce, ct, pad_to);
    let l = ct.len() as int;
    let pad = pad_len_for(pad_to, (FRAME_MIN_LEN + ct.len()) as nat);
    assert(pad < pad_to || pad == 0);
    assert(b.subrange(0, 2) =~= spec_u16_to_le_bytes(ver));
    assert(b.subrange(2, 42) =~= header_bytes(h));
    assert(b.subrange(42, 66) =~= nonce);
    assert(b.subrange(66, 70) =~= spec_u32_to_le_bytes(ct.len() as u32));
    assert(b.subrange(70, 70 + l) =~= ct);
    assert(b.subrange(70 + l, 74 + l) =~= spec_u32_to_le_bytes(pad as u32));
    assert(b.len() == 74 + l + pad);
}

} // verus!
