//! Length padding of frames to fixed buckets.

pub mod transport;

use vstd::prelude::*;
use vstd::bytes::{
    spec_u16_from_le_bytes, spec_u16_to_le_bytes, spec_u64_from_le_bytes, spec_u64_to_le_bytes,
    u16_from_le_bytes, u16_to_le_bytes, u64_from_le_bytes, u64_to_le_bytes,
};
use vstd::utf8::encode_utf8;
use crate::crypto::{
    aead_len_ok, aead_open, hkdf_sha256, hkdf_sha256_okm, open_xchacha, opened, rand_nonce,
    seal_xchacha, xchacha_seal, KEY_LEN, XNONCE_LEN,
};
use crate::wire::{append_bytes, copy32, copy_range};

verus! {

/// How coarsely frames are padded.
#[derive(Clone, Copy, Debug, PartialEq, Eq)]
pub enum PadProfile {
    /// Buckets of 256, 512 and 1024 bytes.
    Stealth,
    /// Buckets of 512, 1024 and 2048 bytes.
    Balanced,
    /// Buckets of 1024, 2048 and 4096 bytes.
    Throughput,
}

/// The three bucket sizes of a profile, smallest first.
pub open spec fn buckets(p: PadProfile) -> (nat, nat, nat) {
    match p {
        PadProfile::Stealth => (256, 512, 1024),
        PadProfile::Balanced => (512, 1024, 2048),
        PadProfile::Throughput => (1024, 2048, 4096),
    }
}

/// The padded length of `len` bytes: the smallest bucket that holds them, or
/// past the largest, the next multiple of it (at most `usize::MAX`).
pub open spec fn padded_len(len: nat, p: PadProfile) -> nat {
    let (b0, b1, b2) = buckets(p);
    if len <= b0 {
        b0
    } else if len <= b1 {
        b1
    } else if len <= b2 {
        b2
    } else {
        let m = (len as int + b2 as int - 1) / (b2 as int) * (b2 as int);
        if m > usize::MAX {
            usize::MAX as nat
        } else {
            m as nat
        }
    }
}

/// The bucket a frame of `len` bytes is padded to.
pub fn pad_bucket_for(len: usize, profile: PadProfile) -> (r: usize)
    ensures
        r == padded_len(len as nat, profile),
{
    let (b0, b1, b2): (usize, usize, usize) = match profile {
        PadProfile::Stealth => (256, 512, 1024),
        PadProfile::Balanced => (512, 1024, 2048),
        PadProfile::Throughput => (1024, 2048, 4096),
    };
    if len <= b0 {
        return b0;
    }
    if len <= b1 {
        return b1;
    }
    if len <= b2 {
        return b2;
    }
    let q = len / b2 + if len % b2 != 0 { 1usize } else { 0usize };
    proof {
        assert((len as int + b2 as int - 1) / (b2 as int) == (len as int) / (b2 as int) + if (len as int) % (b2 as int) != 0 { 1int } else { 0int })
            by (nonlinear_arith)
            requires
                b2 > 0,
                len > b2,
        ;
    }
    if q > usize::MAX / b2 {
        proof {
            assert(q * b2 > usize::MAX) by (nonlinear_arith)
                requires
                    q > usize::MAX / b2,
                    b2 > 0,
            ;
        }
        usize::MAX
    } else {
        proof {
            assert(q * b2 <= usize::MAX) by (nonlinear_arith)
                requires
                    q <= usize::MAX / b2,
                    b2 > 0,
            ;
        }
        q * b2
    }
}

/// Pads a frame with zeros up to its bucket.
pub fn apply_padding(frame: Vec<u8>, profile: PadProfile) -> (r: Vec<u8>)
    ensures
        padded_len(frame@.len(), profile) > frame@.len() ==> r@ == frame@ + Seq::new(
            (padded_len(frame@.len(), profile) - frame@.len()) as nat,
            |i: int| 0u8,
        ),
        padded_len(frame@.len(), profile) <= frame@.len() ==> r@ == frame@,
{
    let target = pad_bucket_for(frame.len(), profile);
    let mut out = frame;
    let len = out.len();
    if target > len {
        let mut i: usize = len;
        while i < target
            invariant
                len <= i <= target,
                out@ == frame@ + Seq::new((i - len) as nat, |k: int| 0u8),
            decreases target - i,
        {
            out.push(0u8);
            i = i + 1;
            assert(out@ =~= frame@ + Seq::new((i - len) as nat, |k: int| 0u8));
        }
    }
    out
}

/// HKDF info string of the sealed-sender key.
pub const KS_INFO: &'static str = "hardlock/sealed-sender/kS";

/// Associated data of every sealed-sender token.
pub const TOKEN_AD: &'static str = "hardlock/sealed-sender";

/// The associated data of tokens as bytes.
pub open spec fn token_ad() -> Seq<u8> {
    encode_utf8(TOKEN_AD@)
}

/// A sealed-sender token: the sender's key, the expiry and a scope, sealed
/// under the sealed-sender key.
pub struct SenderToken {
    pub nonce: [u8; XNONCE_LEN],
    pub ct: Vec<u8>,
}

/// The plaintext of a token: expiry, sender key, scope length and scope.
pub open spec fn token_plain(expiry: u64, sender: Seq<u8>, scope: Seq<u8>) -> Seq<u8> {
    spec_u64_to_le_bytes(expiry) + sender + spec_u16_to_le_bytes(scope.len() as u16) + scope
}

/// What a token's plaintext yields at time `now`: `(expiry, sender, scope)`,
/// or nothing when it is short, expired or truncated.
pub open spec fn token_fields(pt: Seq<u8>, now: u64) -> Option<(u64, Seq<u8>, Seq<u8>)> {
    if pt.len() < 42 {
        None
    } else if now > spec_u64_from_le_bytes(pt.subrange(0, 8)) {
        None
    } else if pt.len() < 42 + spec_u16_from_le_bytes(pt.subrange(40, 42)) {
        None
    } else {
        Some(
            (
                spec_u64_from_le_bytes(pt.subrange(0, 8)),
                pt.subrange(8, 40),
                pt.subrange(42, 42 + spec_u16_from_le_bytes(pt.subrange(40, 42))),
            ),
        )
    }
}

/// A verified token's fields as values.
pub open spec fn token_view(r: Option<(u64, [u8; 32], Vec<u8>)>) -> Option<(u64, Seq<u8>, Seq<u8>)> {
    match r {
        Some((e, pk, scope)) => Some((e, pk@, scope@)),
        None => None,
    }
}

/// The sealed-sender key derived from a master secret and a salt.
pub fn derive_k_s(master: &[u8], salt: &[u8]) -> (r: [u8; KEY_LEN])
    ensures
        r@ == hkdf_sha256_okm(salt@, master@, encode_utf8(KS_INFO@), 32),
{
    let k = hkdf_sha256(Some(salt), master, KS_INFO.as_bytes(), 32);
    let r = copy32(k.as_slice(), 0);
    assert(k@.subrange(0, 32) =~= k@);
    r
}

/// Seals a token for `sender_pub32` valid until `expiry_unix_s` in `scope`,
/// under a fresh nonce.
pub fn token_build(k_s: &[u8; KEY_LEN], expiry_unix_s: u64, sender_pub32: &[u8; 32], scope: &[u8]) -> (r: SenderToken)
    requires
        scope@.len() <= u16::MAX,
    ensures
        r.ct@ == xchacha_seal(k_s@, r.nonce@, token_plain(expiry_unix_s, sender_pub32@, scope@), token_ad()),
        forall|p: Seq<u8>|
            #[trigger] xchacha_seal(k_s@, r.nonce@, p, token_ad()) == r.ct@ ==> p == token_plain(
                expiry_unix_s,
                sender_pub32@,
                scope@,
            ),
{
    let mut pt: Vec<u8> = Vec::new();
    let eb = u64_to_le_bytes(expiry_unix_s);
    append_bytes(&mut pt, eb.as_slice());
    append_bytes(&mut pt, sender_pub32.as_slice());
    let sb = u16_to_le_bytes(scope.len() as u16);
    append_bytes(&mut pt, sb.as_slice());
    append_bytes(&mut pt, scope);
    assert(pt@ =~= token_plain(expiry_unix_s, sender_pub32@, scope@));
    let nonce = rand_nonce();
    let ad = TOKEN_AD.as_bytes();
    let ct = seal_xchacha(k_s, &nonce, pt.as_slice(), ad);
    SenderToken { nonce, ct }
}

/// Opens a token and reads its fields; `None` when it does not open, is
/// malformed, or has expired at `now_unix_s`.
pub fn token_verify(k_s: &[u8; KEY_LEN], token: &SenderToken, now_unix_s: u64) -> (r: Option<(u64, [u8; 32], Vec<u8>)>)
    ensures
        token_view(r) == match aead_open(k_s@, token.nonce@, token.ct@, token_ad()) {
            Some(pt) => token_fields(pt, now_unix_s),
            None => None,
        },
{
    let ad = TOKEN_AD.as_bytes();
    let pt = match open_xchacha(k_s, &token.nonce, token.ct.as_slice(), ad) {
        Some(p) => p,
        None => return None,
    };
    let plen = pt.len();
    if plen < 42 {
        return None;
    }
    let expiry = u64_from_le_bytes(&pt.as_slice()[0..8]);
    if now_unix_s > expiry {
        return None;
    }
    let pk = copy32(pt.as_slice(), 8);
    let sl = u16_from_le_bytes(&pt.as_slice()[40..42]) as usize;
    if plen - 42 < sl {
        return None;
    }
    let scope = copy_range(pt.as_slice(), 42, sl);
    Some((expiry, pk, scope))
}

/// A token built for a sender and scope yields them back until it expires,
/// and nothing after.
pub proof fn lemma_token_round_trip(
    k: Seq<u8>,
    nonce: Seq<u8>,
    ct: Seq<u8>,
    expiry: u64,
    sender: Seq<u8>,
    scope: Seq<u8>,
    now: u64,
)
    requires
        sender.len() == 32,
        scope.len() <= u16::MAX,
        ct == xchacha_seal(k, nonce, token_plain(expiry, sender, scope), token_ad()),
        forall|p: Seq<u8>| #[trigger] xchacha_seal(k, nonce, p, token_ad()) == ct ==> p == token_plain(expiry, sender, scope),
    ensures
        aead_open(k, nonce, ct, token_ad()) == Some(token_plain(expiry, sender, scope)),
        token_fields(token_plain(expiry, sender, scope), now) == if now <= expiry {
            Some((expiry, sender, scope))
        } else {
            None
        },
{
    vstd::bytes::lemma_auto_spec_u64_to_from_le_bytes();
    vstd::bytes::lemma_auto_spec_u16_to_from_le_bytes();
    let pt = token_plain(expiry, sender, scope);
    let q = choose|p: Seq<u8>| #[trigger] xchacha_seal(k, nonce, p, token_ad()) == ct;
    assert(xchacha_seal(k, nonce, pt, token_ad()) == ct);
    assert(q == pt);
    assert(pt.subrange(0, 8) =~= spec_u64_to_le_bytes(expiry));
    assert(pt.subrange(8, 40) =~= sender);
    assert(pt.subrange(40, 42) =~= spec_u16_to_le_bytes(scope.len() as u16));
    assert(pt.subrange(42, 42 + scope.len() as int) =~= scope);
}

} // verus!
