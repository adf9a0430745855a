//! Handshake message framing: `type ‖ len:4B-LE ‖ enc`, and the second
//! version `type ‖ suite ‖ len:4B-LE ‖ enc ‖ binder:32B`.

use vstd::prelude::*;
use vstd::bytes::{spec_u32_from_le_bytes, spec_u32_to_le_bytes, u32_from_le_bytes, u32_to_le_bytes};
use crate::wire::{append_bytes, copy32, copy_range, WireError};

verus! {

/// Type byte of a handshake initiation.
pub const TYPE_INIT: u8 = 0x01;

/// Type byte of an authenticated handshake initiation.
pub const TYPE_INIT_AUTH: u8 = 0x02;

/// Bytes of a typed handshake message.
pub open spec fn typed_bytes(ty: u8, enc: Seq<u8>) -> Seq<u8> {
    seq![ty] + spec_u32_to_le_bytes(enc.len() as u32) + enc
}

/// Payload length a typed handshake message declares.
pub open spec fn typed_len(b: Seq<u8>) -> int {
    spec_u32_from_le_bytes(b.subrange(1, 5)) as int
}

/// Why a typed handshake message is rejected; `None` when it is well formed.
pub open spec fn typed_error(b: Seq<u8>, ty: u8) -> Option<WireError> {
    if b.len() < 5 {
        Some(WireError::ShortFrame)
    } else if b[0] != ty {
        Some(WireError::BadType)
    } else if b.len() < 5 + typed_len(b) {
        Some(WireError::TruncatedPayload)
    } else {
        None
    }
}

/// Bytes of a second-version initiation.
pub open spec fn v2_bytes(suite: u8, enc: Seq<u8>, binder: Seq<u8>) -> Seq<u8> {
    seq![TYPE_INIT, suite] + spec_u32_to_le_bytes(enc.len() as u32) + enc + binder
}

/// Payload length a second-version initiation declares.
pub open spec fn v2_len(b: Seq<u8>) -> int {
    spec_u32_from_le_bytes(b.subrange(2, 6)) as int
}

/// Why a second-version initiation is rejected; `None` when it is well formed.
pub open spec fn v2_error(b: Seq<u8>) -> Option<WireError> {
    if b.len() < 38 {
        Some(WireError::ShortFrame)
    } else if b[0] != TYPE_INIT {
        Some(WireError::BadType)
    } else if b.len() < 38 + v2_len(b) {
        Some(WireError::TruncatedPayload)
    } else {
        None
    }
}

/// Frames `enc` behind a type byte and its length.
fn encode_typed(ty: u8, enc: &[u8]) -> (r: Vec<u8>)
    requires
        enc@.len() <= u32::MAX,
    ensures
        r@ == typed_bytes(ty, enc@),
{
    let mut out: Vec<u8> = Vec::new();
    out.push(ty);
    let lb = u32_to_le_bytes(enc.len() as u32);
    append_bytes(&mut out, lb.as_slice());
    append_bytes(&mut out, enc);
    assert(out@ =~= typed_bytes(ty, enc@));
    out
}

/// Reads the payload of a message framed behind type byte `ty`.
fn decode_typed(b: &[u8], ty: u8) -> (r: Result<Vec<u8>, WireError>)
    ensures
        match r {
            Ok(v) => typed_error(b@, ty) is None && v@ == b@.subrange(5, 5 + typed_len(b@)),
            Err(e) => typed_error(b@, ty) == Some(e),
        },
{
    let blen = b.len();
    if blen < 5 {
        return Err(WireError::ShortFrame);
    }
    if b[0] != ty {
        return Err(WireError::BadType);
    }
    let len = u32_from_le_bytes(&b[1..5]) as usize;
    if blen - 5 < len {
        return Err(WireError::TruncatedPayload);
    }
    Ok(copy_range(b, 5, len))
}

/// Frames a handshake initiation around the encapsulated key `enc`.
pub fn encode_init(enc: &[u8]) -> (r: Vec<u8>)
    requires
        enc@.len() <= u32::MAX,
    ensures
        r@ == typed_bytes(TYPE_INIT, enc@),
{
    encode_typed(TYPE_INIT, enc)
}

/// Reads the encapsulated key of a handshake initiation.
pub fn decode_init(b: &[u8]) -> (r: Result<Vec<u8>, WireError>)
    ensures
        match r {
            Ok(v) => typed_error(b@, TYPE_INIT) is None && v@ == b@.subrange(5, 5 + typed_len(b@)),
            Err(e) => typed_error(b@, TYPE_INIT) == Some(e),
        },
{
    decode_typed(b, TYPE_INIT)
}

/// Frames an authenticated handshake initiation around `enc`.
pub fn encode_init_auth(enc: &[u8]) -> (r: Vec<u8>)
    requires
        enc@.len() <= u32::MAX,
    ensures
        r@ == typed_bytes(TYPE_INIT_AUTH, enc@),
{
    encode_typed(TYPE_INIT_AUTH, enc)
}

/// Reads the encapsulated key of an authenticated handshake initiation.
pub fn decode_init_auth(b: &[u8]) -> (r: Result<Vec<u8>, WireError>)
    ensures
        match r {
            Ok(v) => typed_error(b@, TYPE_INIT_AUTH) is None && v@ == b@.subrange(5, 5 + typed_len(b@)),
            Err(e) => typed_error(b@, TYPE_INIT_AUTH) == Some(e),
        },
{
    decode_typed(b, TYPE_INIT_AUTH)
}

/// Frames a second-version initiation: suite, `enc` and a 32-byte binder.
pub fn encode_init_v2(suite: u8, enc: &[u8], binder32: &[u8; 32]) -> (r: Vec<u8>)
    requires
        enc@.len() <= u32::MAX,
    ensures
        r@ == v2_bytes(suite, enc@, binder32@),
{
    let mut out: Vec<u8> = Vec::new();
    out.push(TYPE_INIT);
    out.push(suite);
    let lb = u32_to_le_bytes(enc.len() as u32);
    append_bytes(&mut out, lb.as_slice());
    append_bytes(&mut out, enc);
    append_bytes(&mut out, binder32.as_slice());
    assert(out@ =~= v2_bytes(suite, enc@, binder32@));
    out
}

/// Reads `(suite, enc, binder)` from a second-version initiation.
pub fn decode_init_v2(b: &[u8]) -> (r: Result<(u8, Vec<u8>, [u8; 32]), WireError>)
    ensures
        match r {
            Ok((suite, enc, binder)) => {
                &&& v2_error(b@) is None
                &&& suite == b@[1]
                &&& enc@ == b@.subrange(6, 6 + v2_len(b@))
                &&& binder@ == b@.subrange(6 + v2_len(b@), 38 + v2_len(b@))
            },
            Err(e) => v2_error(b@) == Some(e),
        },
{
    let blen = b.len();
    if blen < 38 {
        return Err(WireError::ShortFrame);
    }
    if b[0] != TYPE_INIT {
        return Err(WireError::BadType);
    }
    let suite = b[1];
    let len = u32_from_le_bytes(&b[2..6]) as usize;
    if blen - 38 < len {
        return Err(WireError::TruncatedPayload);
    }
    let enc = copy_range(b, 6, len);
    let binder = copy32(b, 6 + len);
    Ok((suite, enc, binder))
}

/// Decoding an encoded initiation of either type gives `enc` back.
pub proof fn lemma_typed_round_trip(ty: u8, enc: Seq<u8>)
    requires
        enc.len() <= u32::MAX,
    ensures
        typed_error(typed_bytes(ty, enc), ty) is None,
        typed_bytes(ty, enc).subrange(5, 5 + typed_len(typed_bytes(ty, enc))) == enc,
{
    vstd::bytes::lemma_auto_spec_u32_to_from_le_bytes();
    let b = typed_bytes(ty, enc);
    assert(b.subrange(1, 5) =~= spec_u32_to_le_bytes(enc.len() as u32));
    assert(b.subrange(5, 5 + enc.len() as int) =~= enc);
}

/// Decoding an encoded second-version initiation gives its parts back.
pub proof fn lemma_v2_round_trip(suite: u8, enc: Seq<u8>, binder: Seq<u8>)
    requires
        enc.len() <= u32::MAX,
        binder.len() == 32,
    ensures
        ({
            let b = v2_bytes(suite, enc, binder);
            &&& v2_error(b) is None
            &&& b[1] == suite
            &&& b.subrange(6, 6 + v2_len(b)) == enc
            &&& b.subrange(6 + v2_len(b), 38 + v2_len(b)) == binder
        }),
{
    vstd::bytes::lemma_auto_spec_u32_to_from_le_bytes();
    let b = v2_bytes(suite, enc, binder);
    assert(b.subrange(2, 6) =~= spec_u32_to_le_bytes(enc.len() as u32));
    assert(b.subrange(6, 6 + enc.len() as int) =~= enc);
    assert(b.subrange(6 + enc.len() as int, 38 + enc.len() as int) =~= binder);
}

} // verus!
