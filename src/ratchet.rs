//! The ratchet engine: initial states, `encrypt` and `decrypt`.

pub mod schedule;
pub mod window;
pub mod skipped;
pub mod state;
pub mod reorder;

use vstd::prelude::*;
use crate::crypto::{
    public_of,
    aead_len_ok, aead_open, open_xchacha, opened, rand_nonce, seal_xchacha, x25519_mult, xchacha_seal,
    XNONCE_LEN,
};
use crate::ratchet::schedule::{chain_at, message_key, next_root, root_chain};
use crate::crypto::{bytes32_eq, wipe32};
use crate::ratchet::state::{
    already_delivered, record_late_keys,
    cache_has, cache_take, chain_view, is_step, next_counter, no_bits, recv_base, recv_cache,
    recv_chain, recv_key, recv_offset, send_chain, sent, skipped_key, step_dh, window_delivered,
    window_mark, Header, RatchetState, WindowView, WINDOW_BITS,
};
use crate::wire::{append_bytes, header_bytes, header_to_bytes};

verus! {

/// Why a message was not delivered.
#[derive(Clone, Copy, Debug, PartialEq, Eq)]
pub enum RatchetError {
    /// Authentication failed, or the message was already delivered.
    Decrypt,
    /// Reserved for a state inconsistent with a correct run of the
    /// protocol; no operation of this library returns it.
    Desync,
}

/// The associated data a message is sealed with: the caller's data followed
/// by the encoded header.
pub open spec fn message_aad(ad: Seq<u8>, h: Header) -> Seq<u8> {
    ad + header_bytes(h)
}

/// Whether the cached key for a header's message opens it.
pub open spec fn skipped_opens(s: RatchetState, aad: Seq<u8>, h: Header, nonce: Seq<u8>, ct: Seq<u8>) -> bool {
    &&& skipped_key(s, h) is Some
    &&& aead_open(skipped_key(s, h)->0, nonce, ct, aad) is Some
}

/// What `decrypt` returns: a replay fails at once; a cached key that opens
/// the message gives its plaintext; else the key the receiving chain gives
/// must open it.
pub open spec fn decrypt_result(s: RatchetState, aad: Seq<u8>, h: Header, nonce: Seq<u8>, ct: Seq<u8>) -> Result<Seq<u8>, RatchetError> {
    if already_delivered(s, h) {
        Err(RatchetError::Decrypt)
    } else if skipped_opens(s, aad, h, nonce, ct) {
        Ok(aead_open(skipped_key(s, h)->0, nonce, ct, aad)->0)
    } else {
        match recv_key(s, h) {
            Some(mk) => match aead_open(mk, nonce, ct, aad) {
                Some(p) => Ok(p),
                None => Err(RatchetError::Decrypt),
            },
            None => Err(RatchetError::Decrypt),
        }
    }
}

/// The result of `decrypt` as values.
pub open spec fn decrypted(r: Result<Vec<u8>, RatchetError>) -> Result<Seq<u8>, RatchetError> {
    match r {
        Ok(p) => Ok(p@),
        Err(e) => Err(e),
    }
}

/// The sending fields of two states agree.
pub open spec fn same_sending(a: RatchetState, b: RatchetState) -> bool {
    &&& a.dh_s_priv == b.dh_s_priv
    &&& a.dh_s_pub == b.dh_s_pub
    &&& a.rk == b.rk
    &&& a.ck_s == b.ck_s
    &&& a.ns == b.ns
    &&& a.pn == b.pn
}

/// `new` is `old` after `decrypt` of a header's message returned `r`.
pub open spec fn decrypt_post(old: RatchetState, new: RatchetState, aad: Seq<u8>, h: Header, nonce: Seq<u8>, ct: Seq<u8>, r: Result<Seq<u8>, RatchetError>) -> bool {
    &&& r == decrypt_result(old, aad, h, nonce, ct)
    &&& if already_delivered(old, h) {
        new == old
    } else if skipped_opens(old, aad, h, nonce, ct) {
        &&& new.cache() == cache_take(old.cache(), h.dh_pub@, h.n)
        &&& new.delivered_win@ == if h.dh_pub@ == old.dh_r_pub@ {
            window_mark(old.delivered_win@, h.dh_pub@, h.n)
        } else {
            old.delivered_win@
        }
        &&& new.late_keys() == if h.dh_pub@ == old.dh_r_pub@ {
            old.late_keys()
        } else {
            record_late_keys(old.late_keys(), h.dh_pub@, h.n)
        }
        &&& same_sending(old, new)
        &&& new.dh_r_pub == old.dh_r_pub
        &&& new.ck_r == old.ck_r
        &&& new.nr == old.nr
    } else {
        let w0 = if is_step(old, h) {
            WindowView { anchor: h.dh_pub@, base: 0, bits: no_bits() }
        } else {
            old.delivered_win@
        };
        &&& new.cache() == recv_cache(old, h)
        &&& new.delivered_win@ == if r is Ok { window_mark(w0, h.dh_pub@, h.n) } else { w0 }
        &&& is_step(old, h) ==> {
            &&& new.dh_r_pub == h.dh_pub
            &&& new.pn == old.ns
            &&& new.ns == 0
            &&& new.rk@ == next_root(next_root(old.rk@, step_dh(old, h)), x25519_mult(new.dh_s_priv@, h.dh_pub@))
            &&& chain_view(new.ck_s) == Some(
                root_chain(next_root(old.rk@, step_dh(old, h)), x25519_mult(new.dh_s_priv@, h.dh_pub@)),
            )
        }
        &&& new.late_delivered == old.late_delivered
        &&& !is_step(old, h) ==> new.dh_r_pub == old.dh_r_pub && same_sending(old, new)
        &&& match recv_chain(old, h) {
            Some(c) => {
                &&& chain_view(new.ck_r) == Some(chain_at(c, recv_offset(old, h) + 1))
                &&& new.nr == next_counter((recv_base(old, h) + recv_offset(old, h)) as u32)
            },
            None => new.ck_r is None && new.nr == old.nr,
        }
    }
}

/// `new` is `old` after `encrypt` of `pt` with `ad` returned `(h, nonce, ct)`:
/// one key was taken from the sending chain and `ct` seals `pt` under it.
pub open spec fn encrypt_post(old: RatchetState, new: RatchetState, ad: Seq<u8>, pt: Seq<u8>, h: Header, nonce: Seq<u8>, ct: Seq<u8>) -> bool {
    let mk = message_key(send_chain(old, new));
    &&& sent(old, new, mk, h)
    &&& ct == xchacha_seal(mk, nonce, pt, message_aad(ad, h))
    &&& ct.len() == pt.len() + 16
    &&& forall|p: Seq<u8>| #[trigger] xchacha_seal(mk, nonce, p, message_aad(ad, h)) == ct ==> p == pt
}

/// The receiver stands where the sender does: it tracks the sender's epoch
/// key, its receiving chain key and counter equal the sender's sending chain
/// key and counter, and that counter is neither delivered nor cached.
pub open spec fn paired(snd: RatchetState, rcv: RatchetState) -> bool {
    &&& snd.ck_s is Some
    &&& chain_view(rcv.ck_r) == chain_view(snd.ck_s)
    &&& rcv.dh_r_pub@ == snd.dh_s_pub@
    &&& rcv.nr == snd.ns
    &&& !window_delivered(rcv.delivered_win@, snd.dh_s_pub@, snd.ns)
    &&& !rcv.late_keys().contains((snd.dh_s_pub@, snd.ns))
    &&& !cache_has(rcv.cache(), snd.dh_s_pub@, snd.ns)
}

/// Round trip: what `encrypt` produced on a sender paired with a receiver
/// decrypts there to the plaintext, whatever the plaintext and data.
pub proof fn lemma_round_trip(
    snd0: RatchetState,
    snd1: RatchetState,
    rcv0: RatchetState,
    rcv1: RatchetState,
    ad: Seq<u8>,
    pt: Seq<u8>,
    h: Header,
    nonce: Seq<u8>,
    ct: Seq<u8>,
    r: Result<Seq<u8>, RatchetError>,
)
    requires
        paired(snd0, rcv0),
        encrypt_post(snd0, snd1, ad, pt, h, nonce, ct),
        decrypt_post(rcv0, rcv1, message_aad(ad, h), h, nonce, ct, r),
    ensures
        r == Ok::<Seq<u8>, RatchetError>(pt),
{
    let c = snd0.ck_s->0@;
    let mk = message_key(c);
    let aad = message_aad(ad, h);
    assert(h.dh_pub == snd0.dh_s_pub);
    assert(!is_step(rcv0, h));
    assert(recv_offset(rcv0, h) == 0);
    assert(chain_at(c, 0) == c);
    assert(recv_key(rcv0, h) == Some(mk));
    assert(xchacha_seal(mk, nonce, pt, aad) == ct);
    let q = choose|p: Seq<u8>| #[trigger] xchacha_seal(mk, nonce, p, aad) == ct;
    assert(q == pt);
    assert(aead_open(mk, nonce, ct, aad) == Some(pt));
}

/// Round trip across a DH step: the first message of a sender's new
/// epoch, whose sending chain is the one the receiver's DH step derives from
/// its root key (given X25519 agreement between the two private keys),
/// decrypts at the receiver to the plaintext.
pub proof fn lemma_round_trip_with_step(
    snd0: RatchetState,
    snd1: RatchetState,
    rcv0: RatchetState,
    rcv1: RatchetState,
    ad: Seq<u8>,
    pt: Seq<u8>,
    h: Header,
    nonce: Seq<u8>,
    ct: Seq<u8>,
    r: Result<Seq<u8>, RatchetError>,
)
    requires
        snd1.wf(),
        rcv0.wf(),
        encrypt_post(snd0, snd1, ad, pt, h, nonce, ct),
        h.n == 0,
        x25519_mult(rcv0.dh_s_priv@, public_of(snd1.dh_s_priv@)) == x25519_mult(
            snd1.dh_s_priv@,
            public_of(rcv0.dh_s_priv@),
        ),
        send_chain(snd0, snd1) == root_chain(rcv0.rk@, x25519_mult(snd1.dh_s_priv@, public_of(rcv0.dh_s_priv@))),
        h.dh_pub@ != rcv0.dh_r_pub@,
        !already_delivered(rcv0, h),
        !cache_has(rcv0.cache(), h.dh_pub@, h.n),
        decrypt_post(rcv0, rcv1, message_aad(ad, h), h, nonce, ct, r),
    ensures
        r == Ok::<Seq<u8>, RatchetError>(pt),
{
    let c = send_chain(snd0, snd1);
    let mk = message_key(c);
    let aad = message_aad(ad, h);
    assert(is_step(rcv0, h));
    assert(h.dh_pub@ == public_of(snd1.dh_s_priv@));
    assert(recv_offset(rcv0, h) == 0);
    assert(chain_at(c, 0) == c);
    assert(recv_key(rcv0, h) == Some(mk));
    let q = choose|p: Seq<u8>| #[trigger] xchacha_seal(mk, nonce, p, aad) == ct;
    assert(xchacha_seal(mk, nonce, pt, aad) == ct);
    assert(q == pt);
}

/// The states `init_initiator` and `init_responder` build from one shared
/// secret and each other's public keys are paired, given that the two
/// parties agree on their X25519 output (as `x25519` promises for every call).
pub proof fn lemma_initial_pairing(
    ini: RatchetState,
    rsp: RatchetState,
    ss: Seq<u8>,
    a: Seq<u8>,
    b: Seq<u8>,
)
    requires
        a.len() == 32,
        b.len() == 32,
        x25519_mult(a, public_of(b)) == x25519_mult(b, public_of(a)),
        ini.wf(),
        ini.dh_s_priv@ == a,
        ini.dh_r_pub@ == public_of(b),
        chain_view(ini.ck_s) == Some(root_chain(ss, x25519_mult(a, public_of(b)))),
        ini.ns == 0,
        rsp.wf(),
        rsp.dh_s_priv@ == b,
        rsp.dh_r_pub@ == public_of(a),
        chain_view(rsp.ck_r) == Some(root_chain(ss, x25519_mult(b, public_of(a)))),
        rsp.nr == 0,
        rsp.skipped@.len() == 0,
        rsp.late_delivered@.len() == 0,
        rsp.delivered_win@ == (WindowView { anchor: public_of(a), base: 0, bits: no_bits() }),
    ensures
        paired(ini, rsp),
{
    assert(rsp.cache().len() == 0);
    assert(rsp.late_keys().len() == 0);
}

/// Marking a counter makes it count as delivered.
pub proof fn lemma_mark_delivers(w: WindowView, pk: Seq<u8>, n: u32)
    requires
        w.bits.len() == WINDOW_BITS,
    ensures
        window_delivered(window_mark(w, pk, n), pk, n),
{
}

/// Marking a counter of the window's own epoch forgets no delivered
/// counter of that epoch.
pub proof fn lemma_mark_keeps(w: WindowView, pk: Seq<u8>, n: u32, m: u32)
    requires
        w.bits.len() == WINDOW_BITS,
        w.anchor == pk,
        window_delivered(w, pk, m),
    ensures
        window_delivered(window_mark(w, pk, n), pk, m),
{
}

/// The replay window keeps tracking the receiving epoch: after `decrypt`
/// its anchor is the receiving epoch key, and when no DH step took place
/// every counter of that epoch delivered before is still delivered.
pub proof fn lemma_window_tracks_epoch(
    s0: RatchetState,
    s1: RatchetState,
    aad: Seq<u8>,
    h: Header,
    nonce: Seq<u8>,
    ct: Seq<u8>,
    r: Result<Seq<u8>, RatchetError>,
    m: u32,
)
    requires
        s0.wf(),
        s1.wf(),
        decrypt_post(s0, s1, aad, h, nonce, ct, r),
        !is_step(s0, h),
        window_delivered(s0.delivered_win@, s0.dh_r_pub@, m),
    ensures
        s1.delivered_win@.anchor == s1.dh_r_pub@,
        s1.dh_r_pub == s0.dh_r_pub,
        window_delivered(s1.delivered_win@, s1.dh_r_pub@, m),
{
    lemma_mark_keeps(s0.delivered_win@, s0.dh_r_pub@, h.n, m);
}

/// Replay rejection: once `decrypt` has delivered a message, the same
/// header, nonce and ciphertext are rejected by the resulting state.
pub proof fn lemma_replay_rejected(
    s0: RatchetState,
    s1: RatchetState,
    aad: Seq<u8>,
    h: Header,
    nonce: Seq<u8>,
    ct: Seq<u8>,
    p: Seq<u8>,
)
    requires
        s0.wf(),
        decrypt_post(s0, s1, aad, h, nonce, ct, Ok(p)),
    ensures
        decrypt_result(s1, aad, h, nonce, ct) == Err::<Seq<u8>, RatchetError>(RatchetError::Decrypt),
{
    lemma_mark_delivers(s0.delivered_win@, h.dh_pub@, h.n);
    lemma_mark_delivers(WindowView { anchor: h.dh_pub@, base: 0, bits: no_bits() }, h.dh_pub@, h.n);
    if skipped_opens(s0, aad, h, nonce, ct) && h.dh_pub@ != s0.dh_r_pub@ {
        crate::ratchet::state::lemma_cache_take(s0.cache(), h.dh_pub@, h.n);
        crate::ratchet::state::lemma_late_recorded(s0.late_keys(), h.dh_pub@, h.n);
        assert(already_delivered(s1, h));
    }
}

/// A skipped key is used once: when it opens its late message, `decrypt`
/// delivers it and the key leaves the cache.
pub proof fn lemma_skipped_key_used_once(
    s0: RatchetState,
    s1: RatchetState,
    aad: Seq<u8>,
    h: Header,
    nonce: Seq<u8>,
    ct: Seq<u8>,
    r: Result<Seq<u8>, RatchetError>,
)
    requires
        s0.wf(),
        !already_delivered(s0, h),
        skipped_opens(s0, aad, h, nonce, ct),
        decrypt_post(s0, s1, aad, h, nonce, ct, r),
    ensures
        r == Ok::<Seq<u8>, RatchetError>(aead_open(skipped_key(s0, h)->0, nonce, ct, aad)->0),
        !cache_has(s1.cache(), h.dh_pub@, h.n),
{
    crate::ratchet::state::lemma_cache_take(s0.cache(), h.dh_pub@, h.n);
}

/// Initial state of the initiator (see `RatchetState::init_initiator`).
pub fn init_initiator(root_key: [u8; 32], dh_s_priv: [u8; 32], dh_r_pub: [u8; 32]) -> (r: RatchetState)
    ensures
        r.wf(),
        r.dh_s_priv == dh_s_priv,
        r.dh_r_pub == dh_r_pub,
        r.rk@ == next_root(root_key@, x25519_mult(dh_s_priv@, dh_r_pub@)),
        chain_view(r.ck_s) == Some(root_chain(root_key@, x25519_mult(dh_s_priv@, dh_r_pub@))),
        r.ck_r is None,
        r.ns == 0 && r.nr == 0 && r.pn == 0,
        r.skipped@.len() == 0,
        r.late_delivered@.len() == 0,
        r.delivered_win@ == (WindowView { anchor: dh_r_pub@, base: 0, bits: no_bits() }),
{
    RatchetState::init_initiator(root_key, dh_s_priv, dh_r_pub)
}

/// Initial state of the responder (see `RatchetState::init_responder`).
pub fn init_responder(root_key: [u8; 32], dh_s_priv: [u8; 32], dh_r_pub: [u8; 32]) -> (r: RatchetState)
    ensures
        r.wf(),
        r.dh_s_priv == dh_s_priv,
        r.dh_r_pub == dh_r_pub,
        r.rk@ == next_root(root_key@, x25519_mult(dh_s_priv@, dh_r_pub@)),
        r.ck_s is None,
        chain_view(r.ck_r) == Some(root_chain(root_key@, x25519_mult(dh_s_priv@, dh_r_pub@))),
        r.ns == 0 && r.nr == 0 && r.pn == 0,
        r.skipped@.len() == 0,
        r.late_delivered@.len() == 0,
        r.delivered_win@ == (WindowView { anchor: dh_r_pub@, base: 0, bits: no_bits() }),
{
    RatchetState::init_responder(root_key, dh_s_priv, dh_r_pub)
}

/// The caller's associated data followed by the encoded header.
fn make_aad(user_ad: &[u8], header: &Header) -> (r: Vec<u8>)
    ensures
        r@ == message_aad(user_ad@, *header),
{
    let hb = header_to_bytes(header);
    let mut aad: Vec<u8> = Vec::new();
    append_bytes(&mut aad, user_ad);
    append_bytes(&mut aad, hb.as_slice());
    aad
}

/// Encrypts a message: derives the next sending key (stepping first when no
/// sending chain exists), draws a fresh nonce and seals the plaintext with
/// `ad ‖ encode(header)` as associated data.
pub fn encrypt(state: &mut RatchetState, ad: &[u8], plaintext: &[u8]) -> (r: (Header, [u8; XNONCE_LEN], Vec<u8>))
    requires
        old(state).wf(),
        aead_len_ok(plaintext@.len()),
    ensures
        final(state).wf(),
        encrypt_post(*old(state), *final(state), ad@, plaintext@, r.0, r.1@, r.2@),
{
    let (mut mk, header) = state.next_sending_key();
    let nonce = rand_nonce();
    let aad = make_aad(ad, &header);
    let ct = seal_xchacha(&mk, &nonce, plaintext, aad.as_slice());
    wipe32(&mut mk);
    (header, nonce, ct)
}

/// Decrypts a message, rejecting replays. A late message of an earlier
/// epoch, delivered through its cached key, leaves the window of the
/// receiving epoch as it is and is recorded instead, so that it cannot be
/// delivered again. Any header key other than the receiving epoch's starts a
/// DH step. Chain advancement is kept when authentication fails: a consumed
/// or cached key is not restored. Message keys are wiped after use.
pub fn decrypt(state: &mut RatchetState, ad: &[u8], header: &Header, nonce: &[u8; XNONCE_LEN], ct: &[u8]) -> (r: Result<Vec<u8>, RatchetError>)
    requires
        old(state).wf(),
    ensures
        final(state).wf(),
        decrypt_post(*old(state), *final(state), message_aad(ad@, *header), *header, nonce@, ct@, decrypted(r)),
{
    if state.was_delivered(header) {
        return Err(RatchetError::Decrypt);
    }
    let aad = make_aad(ad, header);
    match state.try_skipped(header) {
        Some(k) => {
            let mut mk = k;
            let opened = open_xchacha(&mk, nonce, ct, aad.as_slice());
            wipe32(&mut mk);
            match opened {
                Some(pt) => {
                    state.mark_delivered(header);
                    if !bytes32_eq(&header.dh_pub, &state.dh_r_pub) {
                        state.record_late(header.dh_pub, header.n);
                    }
                    return Ok(pt);
                },
                None => {},
            }
        },
        None => {},
    }
    let _ = state.maybe_step(header);
    if header.n > state.nr {
        state.skip_recv_until(header.n);
    }
    let mut mk = match state.next_recv_key() {
        Some(k) => k,
        None => return Err(RatchetError::Decrypt),
    };
    let opened = open_xchacha(&mk, nonce, ct, aad.as_slice());
    wipe32(&mut mk);
    match opened {
        Some(out) => {
            state.mark_delivered(header);
            Ok(out)
        },
        None => Err(RatchetError::Decrypt),
    }
}

} // verus!
