//! Transport header: `ts:8B-LE ‖ token_len:4B-LE ‖ profile:1B ‖ token`.

use vstd::prelude::*;
use vstd::bytes::{
    spec_u32_from_le_bytes, spec_u32_to_le_bytes, spec_u64_from_le_bytes, spec_u64_to_le_bytes,
    u32_from_le_bytes, u32_to_le_bytes, u64_from_le_bytes, u64_to_le_bytes,
};
use crate::envelope::PadProfile;
use crate::wire::{append_bytes, copy_range};

verus! {

/// Metadata in front of a sealed-sender token.
#[derive(Clone, Copy, Debug, PartialEq, Eq)]
pub struct TransportHeader {
    pub ts_unix_s: u64,
    pub token_len: u32,
    pub profile: PadProfile,
}

/// The byte of a padding profile.
pub open spec fn profile_byte(p: PadProfile) -> u8 {
    match p {
        PadProfile::Stealth => 0,
        PadProfile::Balanced => 1,
        PadProfile::Throughput => 2,
    }
}

/// The profile of a byte; every byte past 1 reads as `Throughput`.
pub open spec fn profile_of(x: u8) -> PadProfile {
    if x == 0 {
        PadProfile::Stealth
    } else if x == 1 {
        PadProfile::Balanced
    } else {
        PadProfile::Throughput
    }
}

/// The byte that encodes a profile.
fn profile_to_u8(p: PadProfile) -> (r: u8)
    ensures
        r == profile_byte(p),
{
    match p {
        PadProfile::Stealth => 0,
        PadProfile::Balanced => 1,
        PadProfile::Throughput => 2,
    }
}

/// The profile a byte encodes.
fn u8_to_profile(x: u8) -> (r: PadProfile)
    ensures
        r == profile_of(x),
{
    match x {
        0 => PadProfile::Stealth,
        1 => PadProfile::Balanced,
        _ => PadProfile::Throughput,
    }
}

/// The bytes of a transport header followed by its token.
pub open spec fn transport_bytes(h: TransportHeader, token: Seq<u8>) -> Seq<u8> {
    spec_u64_to_le_bytes(h.ts_unix_s) + spec_u32_to_le_bytes(h.token_len) + seq![profile_byte(h.profile)] + token
}

/// Encodes a transport header and appends the token.
pub fn encode_transport_header(h: &TransportHeader, token: &[u8]) -> (r: Vec<u8>)
    ensures
        r@ == transport_bytes(*h, token@),
{
    let mut out: Vec<u8> = Vec::new();
    let tb = u64_to_le_bytes(h.ts_unix_s);
    append_bytes(&mut out, tb.as_slice());
    let lb = u32_to_le_bytes(h.token_len);
    append_bytes(&mut out, lb.as_slice());
    out.push(profile_to_u8(h.profile));
    append_bytes(&mut out, token);
    assert(out@ =~= transport_bytes(*h, token@));
    out
}

/// Token length a transport header declares.
pub open spec fn transport_token_len(b: Seq<u8>) -> u32 {
    spec_u32_from_le_bytes(b.subrange(8, 12))
}

/// Decodes a transport header and its token; `None` when the input is
/// shorter than the header or than the token it declares.
pub fn decode_transport_header(b: &[u8]) -> (r: Option<(TransportHeader, Vec<u8>)>)
    ensures
        match r {
            Some((h, tok)) => {
                &&& b@.len() >= 13 + transport_token_len(b@)
                &&& h.ts_unix_s == spec_u64_from_le_bytes(b@.subrange(0, 8))
                &&& h.token_len == transport_token_len(b@)
                &&& h.profile == profile_of(b@[12])
                &&& tok@ == b@.subrange(13, 13 + transport_token_len(b@))
            },
            None => b@.len() < 13 || b@.len() < 13 + transport_token_len(b@),
        },
{
    let blen = b.len();
    if blen < 13 {
        return None;
    }
    let ts = u64_from_le_bytes(&b[0..8]);
    let token_len_u32 = u32_from_le_bytes(&b[8..12]);
    let token_len = token_len_u32 as usize;
    let prof = u8_to_profile(b[12]);
    if blen - 13 < token_len {
        return None;
    }
    let tok = copy_range(b, 13, token_len);
    Some((TransportHeader { ts_unix_s: ts, token_len: token_len_u32, profile: prof }, tok))
}

/// Decoding an encoded transport header whose token length field matches its
/// token gives both back.
pub proof fn lemma_transport_round_trip(h: TransportHeader, token: Seq<u8>)
    requires
        h.token_len == token.len(),
    ensures
        ({
            let b = transport_bytes(h, token);
            &&& b.len() >= 13 + transport_token_len(b)
            &&& spec_u64_from_le_bytes(b.subrange(0, 8)) == h.ts_unix_s
            &&& transport_token_len(b) == h.token_len
            &&& profile_of(b[12]) == h.profile
            &&& b.subrange(13, 13 + transport_token_len(b)) == token
        }),
{
    vstd::bytes::lemma_auto_spec_u64_to_from_le_bytes();
    vstd::bytes::lemma_auto_spec_u32_to_from_le_bytes();
    let b = transport_bytes(h, token);
    assert(b.subrange(0, 8) =~= spec_u64_to_le_bytes(h.ts_unix_s));
    assert(b.subrange(8, 12) =~= spec_u32_to_le_bytes(h.token_len));
    assert(b.subrange(13, 13 + token.len() as int) =~= token);
}

} // verus!
