//! Out-of-order delivery: every message of a batch sealed on one sending
//! chain decrypts to its plaintext, whatever the order in which the batch
//! arrives; and late messages of a previous epoch decrypt through the keys a
//! DH step cached.

use vstd::prelude::*;
use crate::crypto::{aead_open, xchacha_seal};
use crate::ratchet::{decrypt_post, encrypt_post, message_aad, skipped_opens, RatchetError};
use crate::ratchet::schedule::{chain_at, lemma_chain_at_add, message_key, message_key_at, root_chain};
use crate::ratchet::state::{
    cache_fill, cache_get, cache_has, cache_take, chain_view, is_step, lemma_cache_fill_get,
    lemma_cache_take, lemma_cache_take_get, next_counter, old_chain_cache, recv_cache, recv_key,
    recv_offset, send_chain, step_dh, window_delivered, window_mark, Header, RatchetState,
    SKIPPED_MAX, WINDOW_BITS, already_delivered,
};

verus! {

/// One message as it travels: header, nonce and ciphertext, with the
/// plaintext and the associated data it was sealed with.
pub struct SealedMessage {
    pub header: Header,
    pub nonce: Seq<u8>,
    pub ct: Seq<u8>,
    pub pt: Seq<u8>,
    pub aad: Seq<u8>,
}

/// `m` is the `i`-th message of a batch sealed on chain key `c` of epoch
/// `pk`, the first at counter `k0`.
pub open spec fn sealed_at(m: SealedMessage, pk: Seq<u8>, c: Seq<u8>, k0: u32, i: nat) -> bool {
    &&& m.header.dh_pub@ == pk
    &&& m.header.n == k0 + i
    &&& m.ct == xchacha_seal(message_key_at(c, i), m.nonce, m.pt, m.aad)
    &&& forall|p: Seq<u8>| #[trigger] xchacha_seal(message_key_at(c, i), m.nonce, p, m.aad) == m.ct ==> p == m.pt
}

/// The receiver is in the batch's epoch, its replay window covers the batch
/// without sliding, its chain stands within the batch, and its cache has
/// room for every key the batch may still skip.
pub open spec fn in_batch(r: RatchetState, pk: Seq<u8>, k0: u32, k: nat) -> bool {
    &&& r.dh_r_pub@ == pk
    &&& r.delivered_win@.anchor == pk
    &&& r.delivered_win@.base <= k0
    &&& k0 + k <= r.delivered_win@.base + WINDOW_BITS
    &&& k0 + k <= u32::MAX
    &&& k0 <= r.nr <= k0 + k
    &&& r.cache().len() + (k0 + k - r.nr) <= SKIPPED_MAX
}

/// Message `i` of the batch can still be received: it is not delivered, and
/// either its key is cached or the receiving chain has not passed it.
pub open spec fn receivable(r: RatchetState, pk: Seq<u8>, c: Seq<u8>, k0: u32, i: nat) -> bool {
    let n = (k0 + i) as u32;
    &&& !window_delivered(r.delivered_win@, pk, n)
    &&& !r.late_keys().contains((pk, n))
    &&& (cache_get(r.cache(), pk, n) == Some(message_key_at(c, i)) || (r.nr <= n && !cache_has(
        r.cache(),
        pk,
        n,
    ) && chain_view(r.ck_r) == Some(chain_at(c, (r.nr - k0) as nat))))
}

/// Marking one counter of the window's range leaves the others as they were.
proof fn lemma_mark_in_range(r: RatchetState, pk: Seq<u8>, k0: u32, k: nat, nj: u32, ni: u32)
    requires
        r.wf(),
        in_batch(r, pk, k0, k),
        k0 <= nj < k0 + k,
        k0 <= ni < k0 + k,
        ni != nj,
    ensures
        window_mark(r.delivered_win@, pk, nj).base == r.delivered_win@.base,
        window_mark(r.delivered_win@, pk, nj).anchor == pk,
        window_delivered(window_mark(r.delivered_win@, pk, nj), pk, ni) == window_delivered(r.delivered_win@, pk, ni),
{
}

/// A ciphertext sealed under `mk` opens to its plaintext.
proof fn lemma_opens(m: SealedMessage, mk: Seq<u8>)
    requires
        m.ct == xchacha_seal(mk, m.nonce, m.pt, m.aad),
        forall|p: Seq<u8>| #[trigger] xchacha_seal(mk, m.nonce, p, m.aad) == m.ct ==> p == m.pt,
    ensures
        aead_open(mk, m.nonce, m.ct, m.aad) == Some(m.pt),
{
    let q = choose|p: Seq<u8>| #[trigger] xchacha_seal(mk, m.nonce, p, m.aad) == m.ct;
    assert(xchacha_seal(mk, m.nonce, m.pt, m.aad) == m.ct);
    assert(q == m.pt);
}

/// Delivering one receivable message of the batch gives its plaintext, marks
/// it delivered and keeps every other receivable message receivable.
pub proof fn lemma_deliver_one(
    r0: RatchetState,
    r1: RatchetState,
    pk: Seq<u8>,
    c: Seq<u8>,
    k0: u32,
    k: nat,
    m: SealedMessage,
    j: nat,
    res: Result<Seq<u8>, RatchetError>,
)
    requires
        r0.wf(),
        in_batch(r0, pk, k0, k),
        j < k,
        sealed_at(m, pk, c, k0, j),
        receivable(r0, pk, c, k0, j),
        decrypt_post(r0, r1, m.aad, m.header, m.nonce, m.ct, res),
    ensures
        res == Ok::<Seq<u8>, RatchetError>(m.pt),
        in_batch(r1, pk, k0, k),
        window_delivered(r1.delivered_win@, pk, m.header.n),
        forall|i: nat| i < k && i != j && #[trigger] receivable(r0, pk, c, k0, i) ==> receivable(r1, pk, c, k0, i),
{
    let h = m.header;
    let nj = h.n;
    let mk = message_key_at(c, j);
    lemma_opens(m, mk);
    assert(h.dh_pub@ == r0.dh_r_pub@);
    if cache_get(r0.cache(), pk, nj) == Some(mk) {
        assert(skipped_opens(r0, m.aad, h, m.nonce, m.ct));
        assert(r1.cache() == cache_take(r0.cache(), pk, nj));
        lemma_cache_take(r0.cache(), pk, nj);
        assert forall|i: nat| i < k && i != j && #[trigger] receivable(r0, pk, c, k0, i) implies receivable(r1, pk, c, k0, i) by {
            let ni = (k0 + i) as u32;
            lemma_mark_in_range(r0, pk, k0, k, nj, ni);
            lemma_cache_take_get(r0.cache(), pk, nj, pk, ni);
        }
    } else {
        let base = r0.nr;
        let off = (nj - base) as nat;
        let ck = chain_at(c, (base - k0) as nat);
        assert(!cache_has(r0.cache(), pk, nj));
        assert(!skipped_opens(r0, m.aad, h, m.nonce, m.ct));
        lemma_chain_at_add(c, (base - k0) as nat, off);
        lemma_chain_at_add(c, (base - k0) as nat, off + 1);
        assert(recv_key(r0, h) == Some(message_key_at(ck, off)));
        assert(message_key_at(ck, off) == mk);
        assert(cache_take(r0.cache(), pk, nj) == r0.cache());
        assert(r1.cache() == recv_cache(r0, h));
        assert(r1.nr == nj + 1);
        assert(chain_view(r1.ck_r) == Some(chain_at(c, (r1.nr - k0) as nat)));
        assert(r1.cache() == cache_fill(r0.cache(), pk, ck, base as int, off));
        lemma_cache_fill_get(r0.cache(), pk, ck, base as int, off, pk, nj);
        assert forall|i: nat| i < k && i != j && #[trigger] receivable(r0, pk, c, k0, i) implies receivable(r1, pk, c, k0, i) by {
            let ni = (k0 + i) as u32;
            lemma_mark_in_range(r0, pk, k0, k, nj, ni);
            lemma_cache_fill_get(r0.cache(), pk, ck, base as int, off, pk, ni);
            if base <= ni < nj {
                lemma_chain_at_add(c, (base - k0) as nat, (ni - base) as nat);
            }
        }
    }
    crate::ratchet::lemma_mark_delivers(r0.delivered_win@, pk, nj);
}

/// Whether message `i` is among the first `t` delivered.
pub open spec fn delivered_before(order: Seq<nat>, t: int, i: nat) -> bool {
    exists|u: int| 0 <= u < t && order[u] == i
}

/// The receiver stands at the start of a batch of `k` messages from counter
/// `k0` on chain key `c` of epoch `pk`: none of them delivered or cached,
/// with room in the window and the cache for all of them.
pub open spec fn batch_start(r: RatchetState, pk: Seq<u8>, c: Seq<u8>, k0: u32, k: nat) -> bool {
    &&& r.wf()
    &&& r.dh_r_pub@ == pk
    &&& chain_view(r.ck_r) == Some(c)
    &&& r.nr == k0
    &&& r.delivered_win@.anchor == pk
    &&& r.delivered_win@.base <= k0
    &&& k0 + k <= r.delivered_win@.base + WINDOW_BITS
    &&& k0 + k <= u32::MAX
    &&& r.cache().len() + k <= SKIPPED_MAX
    &&& forall|n: u32| k0 <= n < k0 + k ==> !#[trigger] window_delivered(r.delivered_win@, pk, n)
    &&& forall|n: u32| k0 <= n < k0 + k ==> !#[trigger] cache_has(r.cache(), pk, n)
    &&& forall|n: u32| k0 <= n < k0 + k ==> !r.late_keys().contains((pk, #[trigger] (n as u32)))
}

/// `states` is the receiver through the deliveries of `order`, each one a
/// `decrypt` of that message of the batch returning `results`.
pub open spec fn delivery_run(states: Seq<RatchetState>, msgs: Seq<SealedMessage>, order: Seq<nat>, results: Seq<Result<Seq<u8>, RatchetError>>) -> bool {
    &&& states.len() == order.len() + 1
    &&& results.len() == order.len()
    &&& forall|t: int| 0 <= t < order.len() ==> #[trigger] order[t] < msgs.len()
    &&& forall|t1: int, t2: int| 0 <= t1 < t2 < order.len() ==> #[trigger] order[t1] != #[trigger] order[t2]
    &&& forall|t: int| 0 <= t < states.len() ==> #[trigger] states[t].wf()
    &&& forall|t: int|
        0 <= t < order.len() ==> decrypt_post(
            #[trigger] states[t],
            states[t + 1],
            msgs[order[t] as int].aad,
            msgs[order[t] as int].header,
            msgs[order[t] as int].nonce,
            msgs[order[t] as int].ct,
            results[t],
        )
}

/// After the first `t` deliveries: the receiver is still within the batch,
/// every message not yet delivered is receivable, and each delivery so far
/// gave its plaintext.
proof fn lemma_run_prefix(
    states: Seq<RatchetState>,
    pk: Seq<u8>,
    c: Seq<u8>,
    k0: u32,
    msgs: Seq<SealedMessage>,
    order: Seq<nat>,
    results: Seq<Result<Seq<u8>, RatchetError>>,
    t: int,
)
    requires
        batch_start(states[0], pk, c, k0, msgs.len()),
        forall|i: int| 0 <= i < msgs.len() ==> sealed_at(#[trigger] msgs[i], pk, c, k0, i as nat),
        delivery_run(states, msgs, order, results),
        0 <= t <= order.len(),
    ensures
        in_batch(states[t], pk, k0, msgs.len()),
        forall|i: nat| i < msgs.len() && !delivered_before(order, t, i) ==> #[trigger] receivable(states[t], pk, c, k0, i),
        forall|u: int| 0 <= u < t ==> #[trigger] results[u] == Ok::<Seq<u8>, RatchetError>(msgs[order[u] as int].pt),
    decreases t,
{
    let k = msgs.len();
    if t == 0 {
        assert(chain_at(c, 0) == c);
        assert forall|i: nat| i < k && !delivered_before(order, t, i) implies #[trigger] receivable(states[t], pk, c, k0, i) by {}
    } else {
        lemma_run_prefix(states, pk, c, k0, msgs, order, results, t - 1);
        let j = order[t - 1];
        assert(j < k);
        assert(!delivered_before(order, t - 1, j)) by {
            if delivered_before(order, t - 1, j) {
                let u = choose|u: int| 0 <= u < t - 1 && order[u] == j;
                assert(order[u] != order[t - 1]);
            }
        }
        assert(states[t - 1].wf());
        assert(sealed_at(msgs[j as int], pk, c, k0, j));
        lemma_deliver_one(states[t - 1], states[t], pk, c, k0, k, msgs[j as int], j, results[t - 1]);
        assert forall|i: nat| i < k && !delivered_before(order, t, i) implies #[trigger] receivable(states[t], pk, c, k0, i) by {
            assert(i != j);
            assert(!delivered_before(order, t - 1, i)) by {
                if delivered_before(order, t - 1, i) {
                    let u = choose|u: int| 0 <= u < t - 1 && order[u] == i;
                    assert(0 <= u < t && order[u] == i);
                }
            }
            assert(receivable(states[t - 1], pk, c, k0, i));
        }
    }
}

/// Out-of-order delivery: the messages of a batch sealed on one sending
/// chain, delivered to a receiver standing at the batch's start in any order
/// without repeats, each decrypt to their plaintext. Batches fit in the
/// replay window (at most 1024 counters) and in the skipped-key cache.
pub proof fn lemma_out_of_order_delivery(
    states: Seq<RatchetState>,
    pk: Seq<u8>,
    c: Seq<u8>,
    k0: u32,
    msgs: Seq<SealedMessage>,
    order: Seq<nat>,
    results: Seq<Result<Seq<u8>, RatchetError>>,
)
    requires
        batch_start(states[0], pk, c, k0, msgs.len()),
        forall|i: int| 0 <= i < msgs.len() ==> sealed_at(#[trigger] msgs[i], pk, c, k0, i as nat),
        delivery_run(states, msgs, order, results),
    ensures
        forall|t: int| 0 <= t < order.len() ==> #[trigger] results[t] == Ok::<Seq<u8>, RatchetError>(msgs[order[t] as int].pt),
{
    lemma_run_prefix(states, pk, c, k0, msgs, order, results, order.len() as int);
}

/// What consecutive calls of `encrypt` within one sending epoch produce:
/// the `i`-th message is sealed with the `i`-th key of the chain the epoch
/// stood at, under counter `ns + i`.
pub proof fn lemma_sender_batch(
    senders: Seq<RatchetState>,
    ads: Seq<Seq<u8>>,
    msgs: Seq<SealedMessage>,
)
    requires
        senders.len() == msgs.len() + 1,
        ads.len() == msgs.len(),
        senders[0].ck_s is Some,
        senders[0].ns + msgs.len() <= u32::MAX,
        forall|i: int|
            0 <= i < msgs.len() ==> encrypt_post(
                #[trigger] senders[i],
                senders[i + 1],
                ads[i],
                msgs[i].pt,
                msgs[i].header,
                msgs[i].nonce,
                msgs[i].ct,
            ) && msgs[i].aad == message_aad(ads[i], msgs[i].header),
    ensures
        forall|i: int|
            0 <= i < msgs.len() ==> sealed_at(
                #[trigger] msgs[i],
                senders[0].dh_s_pub@,
                senders[0].ck_s->0@,
                senders[0].ns,
                i as nat,
            ),
{
    lemma_sender_prefix(senders, ads, msgs, msgs.len() as int);
}

/// After the first `t` sends: the chain stands `t` steps on, the counter `t`
/// further, the epoch key unchanged, and each message so far is sealed at
/// its place.
proof fn lemma_sender_prefix(senders: Seq<RatchetState>, ads: Seq<Seq<u8>>, msgs: Seq<SealedMessage>, t: int)
    requires
        senders.len() == msgs.len() + 1,
        ads.len() == msgs.len(),
        senders[0].ck_s is Some,
        senders[0].ns + msgs.len() <= u32::MAX,
        forall|i: int|
            0 <= i < msgs.len() ==> encrypt_post(
                #[trigger] senders[i],
                senders[i + 1],
                ads[i],
                msgs[i].pt,
                msgs[i].header,
                msgs[i].nonce,
                msgs[i].ct,
            ) && msgs[i].aad == message_aad(ads[i], msgs[i].header),
        0 <= t <= msgs.len(),
    ensures
        chain_view(senders[t].ck_s) == Some(chain_at(senders[0].ck_s->0@, t as nat)),
        senders[t].ns == senders[0].ns + t,
        senders[t].dh_s_pub == senders[0].dh_s_pub,
        forall|i: int|
            0 <= i < t ==> sealed_at(
                #[trigger] msgs[i],
                senders[0].dh_s_pub@,
                senders[0].ck_s->0@,
                senders[0].ns,
                i as nat,
            ),
    decreases t,
{
    let c = senders[0].ck_s->0@;
    if t == 0 {
        assert(chain_at(c, 0) == c);
    } else {
        lemma_sender_prefix(senders, ads, msgs, t - 1);
        let i = t - 1;
        assert(encrypt_post(senders[i], senders[i + 1], ads[i], msgs[i].pt, msgs[i].header, msgs[i].nonce, msgs[i].ct));
        assert(send_chain(senders[i], senders[i + 1]) == chain_at(c, i as nat));
        assert(chain_at(c, t as nat) == crate::ratchet::schedule::next_chain(chain_at(c, i as nat)));
        assert(message_key(chain_at(c, i as nat)) == message_key_at(c, i as nat));
    }
}

/// A DH step on receipt stores the rest of the old receiving chain: after
/// `decrypt` moves to a new epoch, every counter of the old epoch from the
/// old chain's position up to the header's `pn` has its key cached (when
/// the cache has room for all the keys the step stores).
pub proof fn lemma_step_keeps_old_keys(
    s0: RatchetState,
    s1: RatchetState,
    aad: Seq<u8>,
    h: Header,
    nonce: Seq<u8>,
    ct: Seq<u8>,
    r: Result<Seq<u8>, RatchetError>,
    n: u32,
)
    requires
        s0.wf(),
        decrypt_post(s0, s1, aad, h, nonce, ct, r),
        is_step(s0, h),
        !already_delivered(s0, h),
        !skipped_opens(s0, aad, h, nonce, ct),
        s0.ck_r is Some,
        s0.nr <= n < h.pn,
        s0.cache().len() + (h.pn - s0.nr) + h.n <= SKIPPED_MAX,
    ensures
        cache_get(s1.cache(), s0.dh_r_pub@, n) == Some(message_key_at(s0.ck_r->0@, (n - s0.nr) as nat)),
        !window_delivered(s1.delivered_win@, s0.dh_r_pub@, n),
        s1.late_delivered == s0.late_delivered,
{
    let c = s0.ck_r->0@;
    let old_pk = s0.dh_r_pub@;
    let c1 = cache_take(s0.cache(), h.dh_pub@, h.n);
    lemma_cache_take(s0.cache(), h.dh_pub@, h.n);
    lemma_cache_take_get(s0.cache(), h.dh_pub@, h.n, old_pk, n);
    let k1 = (h.pn - s0.nr) as nat;
    let c2 = old_chain_cache(s0, c1, h.pn);
    assert(c2 == cache_fill(c1, old_pk, c, s0.nr as int, k1));
    lemma_cache_fill_get(c1, old_pk, c, s0.nr as int, k1, old_pk, n);
    lemma_cache_fill_get(c1, old_pk, c, s0.nr as int, k1, h.dh_pub@, h.n);
    let newck = root_chain(s0.rk@, step_dh(s0, h));
    assert(recv_offset(s0, h) <= h.n);
    lemma_cache_fill_get(c2, h.dh_pub@, newck, 0, recv_offset(s0, h), old_pk, n);
}

/// A late message of the previous epoch, sealed with a key the step cached,
/// decrypts through the cache to its plaintext, and its key leaves the
/// cache, so it is delivered once.
pub proof fn lemma_late_message_after_step(
    s1: RatchetState,
    s2: RatchetState,
    old_pk: Seq<u8>,
    mk: Seq<u8>,
    m: SealedMessage,
    r: Result<Seq<u8>, RatchetError>,
)
    requires
        s1.wf(),
        m.header.dh_pub@ == old_pk,
        cache_get(s1.cache(), old_pk, m.header.n) == Some(mk),
        !window_delivered(s1.delivered_win@, old_pk, m.header.n),
        !s1.late_keys().contains((old_pk, m.header.n)),
        m.ct == xchacha_seal(mk, m.nonce, m.pt, m.aad),
        forall|p: Seq<u8>| #[trigger] xchacha_seal(mk, m.nonce, p, m.aad) == m.ct ==> p == m.pt,
        decrypt_post(s1, s2, m.aad, m.header, m.nonce, m.ct, r),
    ensures
        r == Ok::<Seq<u8>, RatchetError>(m.pt),
        !cache_has(s2.cache(), old_pk, m.header.n),
{
    lemma_opens(m, mk);
    assert(skipped_opens(s1, m.aad, m.header, m.nonce, m.ct));
    lemma_cache_take(s1.cache(), old_pk, m.header.n);
}

} // verus!
