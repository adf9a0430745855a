//! Message key schedule: the root-key step, run on every DH ratchet step, and
//! the chain-key step, run on every message.

use vstd::prelude::*;
use crate::crypto::{hkdf_sha256, hkdf_sha256_okm, str_bytes, zero_salt};
use crate::wire::copy32;

verus! {

/// HKDF info string of the root-key step.
pub const KDF_RK_INFO: &'static str = "hardlock/ratchet/kdf_rk";

/// HKDF info string of the chain-key step.
pub const KDF_CK_INFO: &'static str = "hardlock/ratchet/kdf_ck";

/// First half of a 64-byte block.
pub open spec fn first_half(okm: Seq<u8>) -> Seq<u8> {
    okm.subrange(0, 32)
}

/// Second half of a 64-byte block.
pub open spec fn second_half(okm: Seq<u8>) -> Seq<u8> {
    okm.subrange(32, 64)
}

/// The 64 bytes expanded from a root key and a DH output.
pub open spec fn rk_okm(root_key: Seq<u8>, dh_out: Seq<u8>) -> Seq<u8> {
    hkdf_sha256_okm(root_key, dh_out, str_bytes(KDF_RK_INFO), 64)
}

/// The 64 bytes expanded from a chain key, with no salt.
pub open spec fn ck_okm(chain_key: Seq<u8>) -> Seq<u8> {
    hkdf_sha256_okm(zero_salt(), chain_key, str_bytes(KDF_CK_INFO), 64)
}

/// New root key of the root-key step.
pub open spec fn next_root(root_key: Seq<u8>, dh_out: Seq<u8>) -> Seq<u8> {
    first_half(rk_okm(root_key, dh_out))
}

/// New chain key of the root-key step.
pub open spec fn root_chain(root_key: Seq<u8>, dh_out: Seq<u8>) -> Seq<u8> {
    second_half(rk_okm(root_key, dh_out))
}

/// Next chain key of the chain-key step.
pub open spec fn next_chain(chain_key: Seq<u8>) -> Seq<u8> {
    first_half(ck_okm(chain_key))
}

/// Message key of the chain-key step.
pub open spec fn message_key(chain_key: Seq<u8>) -> Seq<u8> {
    second_half(ck_okm(chain_key))
}

/// The chain key after `k` chain-key steps.
pub open spec fn chain_at(chain_key: Seq<u8>, k: nat) -> Seq<u8>
    decreases k,
{
    if k == 0 {
        chain_key
    } else {
        next_chain(chain_at(chain_key, (k - 1) as nat))
    }
}

/// The message key of the `k`-th message of a chain (counted from zero).
pub open spec fn message_key_at(chain_key: Seq<u8>, k: nat) -> Seq<u8> {
    message_key(chain_at(chain_key, k))
}

/// Splits 64 bytes into two halves of 32.
fn split_halves(okm: &Vec<u8>) -> (r: ([u8; 32], [u8; 32]))
    requires
        okm@.len() == 64,
    ensures
        r.0@ == first_half(okm@),
        r.1@ == second_half(okm@),
{
    (copy32(okm.as_slice(), 0), copy32(okm.as_slice(), 32))
}

/// Root-key step: `(new_root_key, new_chain_key)` from a root key and a DH
/// output, the two halves of an HKDF expansion salted with the root key.
pub fn kdf_rk(root_key: &[u8; 32], dh_out: &[u8; 32]) -> (r: ([u8; 32], [u8; 32]))
    ensures
        r.0@ == next_root(root_key@, dh_out@),
        r.1@ == root_chain(root_key@, dh_out@),
{
    let okm = hkdf_sha256(Some(root_key.as_slice()), dh_out.as_slice(), KDF_RK_INFO.as_bytes(), 64);
    split_halves(&okm)
}

/// Chain-key step: `(new_chain_key, message_key)` from a chain key, the two
/// halves of an unsalted HKDF expansion.
pub fn kdf_ck(chain_key: &[u8; 32]) -> (r: ([u8; 32], [u8; 32]))
    ensures
        r.0@ == next_chain(chain_key@),
        r.1@ == message_key(chain_key@),
{
    let okm = hkdf_sha256(None, chain_key.as_slice(), KDF_CK_INFO.as_bytes(), 64);
    split_halves(&okm)
}

/// `k + 1` steps from a chain key are `k` steps from its successor.
pub proof fn lemma_chain_at_shift(ck: Seq<u8>, k: nat)
    ensures
        chain_at(next_chain(ck), k) == chain_at(ck, k + 1),
    decreases k,
{
    if k > 0 {
        lemma_chain_at_shift(ck, (k - 1) as nat);
        assert(chain_at(next_chain(ck), k) == next_chain(chain_at(next_chain(ck), (k - 1) as nat)));
        assert(chain_at(ck, k + 1) == next_chain(chain_at(ck, k)));
    } else {
        assert(chain_at(ck, 1) == next_chain(chain_at(ck, 0)));
        assert(chain_at(ck, 0) == ck);
    }
}

/// `b` more steps after `a` steps are `a + b` steps.
pub proof fn lemma_chain_at_add(ck: Seq<u8>, a: nat, b: nat)
    ensures
        chain_at(chain_at(ck, a), b) == chain_at(ck, a + b),
    decreases b,
{
    if b > 0 {
        lemma_chain_at_add(ck, a, (b - 1) as nat);
        assert(chain_at(chain_at(ck, a), b) == next_chain(chain_at(chain_at(ck, a), (b - 1) as nat)));
        assert(chain_at(ck, a + b) == next_chain(chain_at(ck, (a + b - 1) as nat)));
    } else {
        assert(chain_at(chain_at(ck, a), 0) == chain_at(ck, a));
    }
}

} // verus!
