//! Ratchet state: the per-message header and the state machine that owns the
//! chains, the replay window and the skipped-key cache.

use vstd::prelude::*;
use crate::crypto::{bytes32_eq, fresh_secret, public_of, wipe32, x25519_mult, x25519_public, x25519_shared};
use crate::ratchet::schedule::{
    chain_at, kdf_ck, kdf_rk, message_key, message_key_at, next_chain, next_root, root_chain,
};
pub use crate::ratchet::skipped::{
    cache_fill, cache_get, cache_has, cache_insert, cache_pos, cache_take, cache_unique, cache_view,
    lemma_cache_fill_get, lemma_cache_fill_step, lemma_cache_insert, lemma_cache_insert_get,
    lemma_cache_take, lemma_cache_take_get, lemma_oldest_evicted, CacheEntry, SkippedEntry, SkippedKey,
    SKIPPED_MAX,
};
pub use crate::ratchet::window::{
    no_bits, window_delivered, window_mark, DeliveredWindow, WindowView, WINDOW_BITS, WINDOW_BYTES,
};

verus! {

/// Metadata of one message: the sender's epoch public key, the length of the
/// sender's previous sending chain, and the message's counter.
#[derive(Clone, Copy, Debug)]
pub struct Header {
    pub dh_pub: [u8; 32],
    pub pn: u32,
    pub n: u32,
}

/// The counter after `n`, wrapping to zero past `u32::MAX`.
pub open spec fn next_counter(n: u32) -> u32 {
    if n == u32::MAX {
        0
    } else {
        (n + 1) as u32
    }
}

/// The counter after `n`, wrapping past `u32::MAX`.
fn counter_after(n: u32) -> (r: u32)
    ensures
        r == next_counter(n),
{
    if n == u32::MAX {
        0
    } else {
        n + 1
    }
}

/// A chain key as values: `None` while no chain has been derived.
pub open spec fn chain_view(c: Option<[u8; 32]>) -> Option<Seq<u8>> {
    match c {
        Some(k) => Some(k@),
        None => None,
    }
}

/// The state of one side of a conversation.
pub struct RatchetState {
    /// Current local DH private key.
    pub dh_s_priv: [u8; 32],
    /// Its public key, sent in every header.
    pub dh_s_pub: [u8; 32],
    /// The remote public key of the current receiving epoch.
    pub dh_r_pub: [u8; 32],
    /// Root key.
    pub rk: [u8; 32],
    /// Sending chain key, absent until a sending epoch starts.
    pub ck_s: Option<[u8; 32]>,
    /// Receiving chain key, absent until a receiving epoch starts.
    pub ck_r: Option<[u8; 32]>,
    /// Messages sent in the current sending epoch.
    pub ns: u32,
    /// Messages received in the current receiving epoch.
    pub nr: u32,
    /// Length of the previous sending chain.
    pub pn: u32,
    /// Skipped message keys, oldest first.
    pub skipped: Vec<SkippedEntry>,
    /// Messages of earlier epochs delivered through their cached keys, as
    /// (epoch key, counter), oldest first: a replay of one is refused.
    pub late_delivered: Vec<([u8; 32], u32)>,
    /// Counters already delivered in the receiving epoch.
    pub delivered_win: DeliveredWindow,
}

/// The sending chain key a send starts from: the current one, or the one a
/// DH step with the new private key of `new` derives.
pub open spec fn send_chain(old: RatchetState, new: RatchetState) -> Seq<u8> {
    match old.ck_s {
        Some(c) => c@,
        None => root_chain(old.rk@, x25519_mult(new.dh_s_priv@, old.dh_r_pub@)),
    }
}

/// `new` is `old` after deriving the key of one outgoing message, which is
/// `mk`, with header `h`.
pub open spec fn sent(old: RatchetState, new: RatchetState, mk: Seq<u8>, h: Header) -> bool {
    &&& new.dh_r_pub == old.dh_r_pub
    &&& new.ck_r == old.ck_r
    &&& new.nr == old.nr
    &&& new.skipped@ == old.skipped@
    &&& new.delivered_win == old.delivered_win
    &&& new.late_delivered == old.late_delivered
    &&& old.ck_s is Some ==> {
        &&& new.dh_s_priv == old.dh_s_priv
        &&& new.dh_s_pub == old.dh_s_pub
        &&& new.rk == old.rk
        &&& new.pn == old.pn
        &&& h.n == old.ns
    }
    &&& old.ck_s is None ==> {
        &&& new.rk@ == next_root(old.rk@, x25519_mult(new.dh_s_priv@, old.dh_r_pub@))
        &&& new.pn == old.ns
        &&& h.n == 0
    }
    &&& mk == message_key(send_chain(old, new))
    &&& chain_view(new.ck_s) == Some(next_chain(send_chain(old, new)))
    &&& h.dh_pub == new.dh_s_pub
    &&& h.pn == new.pn
    &&& new.ns == next_counter(h.n)
}

impl RatchetState {
    /// The skipped-key cache as values.
    pub open spec fn cache(&self) -> Seq<CacheEntry> {
        cache_view(self.skipped@)
    }

    /// The late deliveries recorded, as values.
    pub open spec fn late_keys(&self) -> Seq<(Seq<u8>, u32)> {
        self.late_delivered@.map_values(|e: ([u8; 32], u32)| (e.0@, e.1))
    }

    /// The window is well formed and tracks the receiving epoch, the cache
    /// and the record of late deliveries are bounded, the cache's keys are
    /// unique, and the public key is that of the private key.
    pub open spec fn wf(&self) -> bool {
        &&& self.delivered_win.wf()
        &&& self.delivered_win.dh_pub@ == self.dh_r_pub@
        &&& self.late_delivered@.len() <= LATE_MAX
        &&& self.skipped@.len() <= SKIPPED_MAX
        &&& cache_unique(self.cache())
        &&& self.dh_s_pub@ == public_of(self.dh_s_priv@)
    }

    /// Initial state of the initiator: the sending chain comes from the shared
    /// secret and one DH between `dh_s_priv` and `dh_r_pub`.
    pub fn init_initiator(root_key: [u8; 32], dh_s_priv: [u8; 32], dh_r_pub: [u8; 32]) -> (r: Self)
        ensures
            r.wf(),
            r.dh_s_priv == dh_s_priv,
            r.dh_r_pub == dh_r_pub,
            r.rk@ == next_root(root_key@, x25519_mult(dh_s_priv@, dh_r_pub@)),
            chain_view(r.ck_s) == Some(root_chain(root_key@, x25519_mult(dh_s_priv@, dh_r_pub@))),
            r.ck_r is None,
            r.ns == 0 && r.nr == 0 && r.pn == 0,
            r.skipped@.len() == 0,
            r.late_delivered@.len() == 0,
            r.delivered_win@ == (WindowView { anchor: dh_r_pub@, base: 0, bits: no_bits() }),
    {
        let dh_s_pub = x25519_public(&dh_s_priv);
        let dh_out = x25519_shared(&dh_s_priv, &dh_r_pub);
        let (rk, ck_s) = kdf_rk(&root_key, &dh_out);
        let r = RatchetState {
            dh_s_priv,
            dh_s_pub,
            dh_r_pub,
            rk,
            ck_s: Some(ck_s),
            ck_r: None,
            ns: 0,
            nr: 0,
            pn: 0,
            skipped: Vec::new(),
            late_delivered: Vec::new(),
            delivered_win: DeliveredWindow::new(dh_r_pub),
        };
        assert(r.cache() =~= Seq::<CacheEntry>::empty());
        r
    }

    /// Initial state of the responder: as for the initiator, but the derived
    /// chain is the receiving one.
    pub fn init_responder(root_key: [u8; 32], dh_s_priv: [u8; 32], dh_r_pub: [u8; 32]) -> (r: Self)
        ensures
            r.wf(),
            r.dh_s_priv == dh_s_priv,
            r.dh_r_pub == dh_r_pub,
            r.rk@ == next_root(root_key@, x25519_mult(dh_s_priv@, dh_r_pub@)),
            r.ck_s is None,
            chain_view(r.ck_r) == Some(root_chain(root_key@, x25519_mult(dh_s_priv@, dh_r_pub@))),
            r.ns == 0 && r.nr == 0 && r.pn == 0,
            r.skipped@.len() == 0,
            r.late_delivered@.len() == 0,
            r.delivered_win@ == (WindowView { anchor: dh_r_pub@, base: 0, bits: no_bits() }),
    {
        let dh_s_pub = x25519_public(&dh_s_priv);
        let dh_out = x25519_shared(&dh_s_priv, &dh_r_pub);
        let (rk, ck_r) = kdf_rk(&root_key, &dh_out);
        let r = RatchetState {
            dh_s_priv,
            dh_s_pub,
            dh_r_pub,
            rk,
            ck_s: None,
            ck_r: Some(ck_r),
            ns: 0,
            nr: 0,
            pn: 0,
            skipped: Vec::new(),
            late_delivered: Vec::new(),
            delivered_win: DeliveredWindow::new(dh_r_pub),
        };
        assert(r.cache() =~= Seq::<CacheEntry>::empty());
        r
    }

    /// Sending DH step: a fresh local key pair, a new root key and sending
    /// chain from its DH with the remote key; `pn := ns`, `ns := 0`.
    fn dh_ratchet_send(&mut self)
        requires
            old(self).wf(),
        ensures
            final(self).wf(),
            final(self).dh_r_pub == old(self).dh_r_pub,
            final(self).ck_r == old(self).ck_r,
            final(self).nr == old(self).nr,
            final(self).skipped@ == old(self).skipped@,
            final(self).delivered_win == old(self).delivered_win,
            final(self).late_delivered == old(self).late_delivered,
            final(self).rk@ == next_root(old(self).rk@, x25519_mult(final(self).dh_s_priv@, old(self).dh_r_pub@)),
            chain_view(final(self).ck_s) == Some(
                root_chain(old(self).rk@, x25519_mult(final(self).dh_s_priv@, old(self).dh_r_pub@)),
            ),
            final(self).pn == old(self).ns,
            final(self).ns == 0,
    {
        let new_s = fresh_secret();
        self.dh_s_priv = new_s;
        self.dh_s_pub = x25519_public(&new_s);
        let dh_out = x25519_shared(&new_s, &self.dh_r_pub);
        let (rk_next, ck_s) = kdf_rk(&self.rk, &dh_out);
        self.rk = rk_next;
        self.ck_s = Some(ck_s);
        self.pn = self.ns;
        self.ns = 0;
    }

    /// Key and header of the next outgoing message; starts a sending epoch
    /// with a DH step first when there is no sending chain.
    pub fn next_sending_key(&mut self) -> (r: ([u8; 32], Header))
        requires
            old(self).wf(),
        ensures
            final(self).wf(),
            sent(*old(self), *final(self), r.0@, r.1),
    {
        if self.ck_s.is_none() {
            self.dh_ratchet_send();
        }
        let ck = match self.ck_s {
            Some(c) => c,
            None => [0u8; 32],
        };
        let (ck_next, mk) = kdf_ck(&ck);
        self.ck_s = Some(ck_next);
        let h = Header { dh_pub: self.dh_s_pub, pn: self.pn, n: self.ns };
        self.ns = counter_after(self.ns);
        (mk, h)
    }
}

impl RatchetState {
    /// Whether the header's message was delivered already: marked in the
    /// replay window, or recorded as delivered late.
    pub fn was_delivered(&self, header: &Header) -> (r: bool)
        requires
            self.wf(),
        ensures
            r == already_delivered(*self, *header),
    {
        self.delivered_win.was_delivered(header.dh_pub, header.n) || self.is_late_delivered(&header.dh_pub, header.n)
    }

    /// Marks the header's counter delivered in the replay window when the
    /// header belongs to the receiving epoch; the window of that epoch is
    /// left as it is for a header of another epoch.
    pub fn mark_delivered(&mut self, header: &Header)
        requires
            old(self).wf(),
        ensures
            final(self).wf(),
            final(self).delivered_win@ == if header.dh_pub@ == old(self).dh_r_pub@ {
                window_mark(old(self).delivered_win@, header.dh_pub@, header.n)
            } else {
                old(self).delivered_win@
            },
            final(self).late_delivered == old(self).late_delivered,
            final(self).dh_s_priv == old(self).dh_s_priv,
            final(self).dh_s_pub == old(self).dh_s_pub,
            final(self).dh_r_pub == old(self).dh_r_pub,
            final(self).rk == old(self).rk,
            final(self).ck_s == old(self).ck_s,
            final(self).ck_r == old(self).ck_r,
            final(self).ns == old(self).ns,
            final(self).nr == old(self).nr,
            final(self).pn == old(self).pn,
            final(self).skipped@ == old(self).skipped@,
    {
        if bytes32_eq(&header.dh_pub, &self.dh_r_pub) {
            self.delivered_win.mark(header.dh_pub, header.n);
        }
    }

    /// Whether counter `n` of epoch `pk` is recorded as delivered late.
    pub fn is_late_delivered(&self, pk: &[u8; 32], n: u32) -> (r: bool)
        ensures
            r == self.late_keys().contains((pk@, n)),
    {
        let len = self.late_delivered.len();
        let mut i: usize = 0;
        while i < len
            invariant
                i <= len,
                len == self.late_delivered@.len(),
                forall|j: int| 0 <= j < i ==> self.late_keys()[j] != (pk@, n),
            decreases len - i,
        {
            let e = &self.late_delivered[i];
            if e.1 == n && bytes32_eq(&e.0, pk) {
                assert(self.late_keys()[i as int] == (pk@, n));
                return true;
            }
            i = i + 1;
        }
        assert(!self.late_keys().contains((pk@, n))) by {
            if self.late_keys().contains((pk@, n)) {
                let j = choose|j: int| 0 <= j < self.late_keys().len() && self.late_keys()[j] == (pk@, n);
                assert(self.late_keys()[j] != (pk@, n));
            }
        }
        false
    }

    /// Records counter `n` of epoch `pk` as delivered late, dropping the
    /// oldest record when full.
    pub fn record_late(&mut self, pk: [u8; 32], n: u32)
        requires
            old(self).wf(),
        ensures
            final(self).wf(),
            final(self).late_keys() == record_late_keys(old(self).late_keys(), pk@, n),
            final(self).dh_s_priv == old(self).dh_s_priv,
            final(self).dh_s_pub == old(self).dh_s_pub,
            final(self).dh_r_pub == old(self).dh_r_pub,
            final(self).rk == old(self).rk,
            final(self).ck_s == old(self).ck_s,
            final(self).ck_r == old(self).ck_r,
            final(self).ns == old(self).ns,
            final(self).nr == old(self).nr,
            final(self).pn == old(self).pn,
            final(self).skipped@ == old(self).skipped@,
            final(self).delivered_win == old(self).delivered_win,
    {
        if self.is_late_delivered(&pk, n) {
            return;
        }
        let ghost k0 = self.late_keys();
        if self.late_delivered.len() >= LATE_MAX {
            let _ = self.late_delivered.remove(0);
            assert(self.late_keys() =~= k0.subrange(1, k0.len() as int));
        }
        let ghost k1 = self.late_keys();
        self.late_delivered.push((pk, n));
        assert(self.late_keys() =~= k1.push((pk@, n)));
    }

    /// Removes and returns the cached key for counter `n` of epoch `dh_pub`.
    fn take_skipped(&mut self, dh_pub: &[u8; 32], n: u32) -> (r: Option<[u8; 32]>)
        requires
            old(self).wf(),
        ensures
            final(self).wf(),
            final(self).cache() == cache_take(old(self).cache(), dh_pub@, n),
            match r {
                Some(mk) => cache_has(old(self).cache(), dh_pub@, n) && mk@ == old(self).cache()[cache_pos(
                    old(self).cache(),
                    dh_pub@,
                    n,
                )].2,
                None => !cache_has(old(self).cache(), dh_pub@, n),
            },
            final(self).dh_s_priv == old(self).dh_s_priv,
            final(self).dh_s_pub == old(self).dh_s_pub,
            final(self).dh_r_pub == old(self).dh_r_pub,
            final(self).rk == old(self).rk,
            final(self).ck_s == old(self).ck_s,
            final(self).ck_r == old(self).ck_r,
            final(self).ns == old(self).ns,
            final(self).nr == old(self).nr,
            final(self).pn == old(self).pn,
            final(self).delivered_win == old(self).delivered_win,
            final(self).late_delivered == old(self).late_delivered,
    {
        let ghost c = self.cache();
        let len = self.skipped.len();
        let mut i: usize = 0;
        while i < len
            invariant
                0 <= i <= len,
                len == self.skipped@.len(),
                *self == *old(self),
                old(self).wf(),
                c == old(self).cache(),
                self.cache() == c,
                c.len() == len,
                forall|j: int| 0 <= j < i ==> !(#[trigger] c[j].0 == dh_pub@ && c[j].1 == n),
            decreases len - i,
        {
            let e = &self.skipped[i];
            assert(c[i as int] == (e.dh_pub@, e.n, e.key.mk@));
            if e.n == n && bytes32_eq(&e.dh_pub, dh_pub) {
                proof {
                    assert(c[i as int].0 == dh_pub@ && c[i as int].1 == n);
                    assert(cache_has(c, dh_pub@, n));
                    let p = cache_pos(c, dh_pub@, n);
                    assert(c[p].0 == c[i as int].0 && c[p].1 == c[i as int].1);
                }
                let removed = self.skipped.remove(i);
                proof {
                    lemma_cache_take(c, dh_pub@, n);
                    assert(self.cache() =~= c.remove(i as int));
                }
                return Some(removed.key.mk);
            }
            i = i + 1;
        }
        proof {
            lemma_cache_take(c, dh_pub@, n);
            if cache_has(c, dh_pub@, n) {
                let p = cache_pos(c, dh_pub@, n);
                assert(c[p].0 == dh_pub@ && c[p].1 == n);
            }
        }
        None
    }

    /// Removes and returns the cached key for the header's epoch and counter;
    /// each key is handed out once.
    pub fn try_skipped(&mut self, header: &Header) -> (r: Option<[u8; 32]>)
        requires
            old(self).wf(),
        ensures
            final(self).wf(),
            final(self).cache() == cache_take(old(self).cache(), header.dh_pub@, header.n),
            match r {
                Some(mk) => cache_has(old(self).cache(), header.dh_pub@, header.n) && mk@ == old(
                    self,
                ).cache()[cache_pos(old(self).cache(), header.dh_pub@, header.n)].2,
                None => !cache_has(old(self).cache(), header.dh_pub@, header.n),
            },
            final(self).dh_s_priv == old(self).dh_s_priv,
            final(self).dh_s_pub == old(self).dh_s_pub,
            final(self).dh_r_pub == old(self).dh_r_pub,
            final(self).rk == old(self).rk,
            final(self).ck_s == old(self).ck_s,
            final(self).ck_r == old(self).ck_r,
            final(self).ns == old(self).ns,
            final(self).nr == old(self).nr,
            final(self).pn == old(self).pn,
            final(self).delivered_win == old(self).delivered_win,
            final(self).late_delivered == old(self).late_delivered,
    {
        self.take_skipped(&header.dh_pub, header.n)
    }

    /// Stores a skipped key, evicting the oldest entry when the cache is full.
    fn add_skipped(&mut self, dh_pub: [u8; 32], n: u32, mk: [u8; 32])
        requires
            old(self).wf(),
        ensures
            final(self).wf(),
            final(self).cache() == cache_insert(old(self).cache(), dh_pub@, n, mk@),
            final(self).dh_s_priv == old(self).dh_s_priv,
            final(self).dh_s_pub == old(self).dh_s_pub,
            final(self).dh_r_pub == old(self).dh_r_pub,
            final(self).rk == old(self).rk,
            final(self).ck_s == old(self).ck_s,
            final(self).ck_r == old(self).ck_r,
            final(self).ns == old(self).ns,
            final(self).nr == old(self).nr,
            final(self).pn == old(self).pn,
            final(self).delivered_win == old(self).delivered_win,
            final(self).late_delivered == old(self).late_delivered,
    {
        let ghost c = self.cache();
        let _ = self.take_skipped(&dh_pub, n);
        let ghost c1 = self.cache();
        proof {
            lemma_cache_take(c, dh_pub@, n);
            lemma_cache_insert(c, dh_pub@, n, mk@);
        }
        if self.skipped.len() >= SKIPPED_MAX {
            let _ = self.skipped.remove(0);
            assert(self.cache() =~= c1.subrange(1, c1.len() as int));
        }
        self.skipped.push(SkippedEntry { dh_pub, n, key: SkippedKey { mk } });
        assert(self.cache() =~= cache_insert(c, dh_pub@, n, mk@));
    }

    /// Next message key of the receiving chain, advancing it; `None` when no
    /// receiving chain has been derived.
    pub fn next_recv_key(&mut self) -> (r: Option<[u8; 32]>)
        requires
            old(self).wf(),
        ensures
            final(self).wf(),
            match old(self).ck_r {
                Some(c) => {
                    &&& r matches Some(mk) && mk@ == message_key(c@)
                    &&& chain_view(final(self).ck_r) == Some(next_chain(c@))
                    &&& final(self).nr == next_counter(old(self).nr)
                },
                None => r is None && final(self).ck_r is None && final(self).nr == old(self).nr,
            },
            final(self).dh_s_priv == old(self).dh_s_priv,
            final(self).dh_s_pub == old(self).dh_s_pub,
            final(self).dh_r_pub == old(self).dh_r_pub,
            final(self).rk == old(self).rk,
            final(self).ck_s == old(self).ck_s,
            final(self).ns == old(self).ns,
            final(self).pn == old(self).pn,
            final(self).skipped@ == old(self).skipped@,
            final(self).delivered_win == old(self).delivered_win,
            final(self).late_delivered == old(self).late_delivered,
    {
        match self.ck_r {
            Some(c) => {
                let (ck_next, mk) = kdf_ck(&c);
                self.ck_r = Some(ck_next);
                self.nr = counter_after(self.nr);
                Some(mk)
            },
            None => None,
        }
    }

    /// Derives and caches the keys of the receiving chain up to counter
    /// `target_n`, so that the chain stands at `target_n`.
    pub fn skip_recv_until(&mut self, target_n: u32)
        requires
            old(self).wf(),
        ensures
            final(self).wf(),
            match old(self).ck_r {
                Some(c) => old(self).nr < target_n ==> {
                    &&& final(self).cache() == cache_fill(
                        old(self).cache(),
                        old(self).dh_r_pub@,
                        c@,
                        old(self).nr as int,
                        (target_n - old(self).nr) as nat,
                    )
                    &&& chain_view(final(self).ck_r) == Some(chain_at(c@, (target_n - old(self).nr) as nat))
                    &&& final(self).nr == target_n
                },
                None => true,
            },
            (old(self).ck_r is None || old(self).nr >= target_n) ==> *final(self) == *old(self),
            final(self).dh_s_priv == old(self).dh_s_priv,
            final(self).dh_s_pub == old(self).dh_s_pub,
            final(self).dh_r_pub == old(self).dh_r_pub,
            final(self).rk == old(self).rk,
            final(self).ck_s == old(self).ck_s,
            final(self).ns == old(self).ns,
            final(self).pn == old(self).pn,
            final(self).delivered_win == old(self).delivered_win,
            final(self).late_delivered == old(self).late_delivered,
    {
        let ck0 = match self.ck_r {
            Some(c) => c,
            None => return,
        };
        if self.nr >= target_n {
            return;
        }
        let ghost c0 = self.cache();
        let ghost nr0 = self.nr;
        let mut ck = ck0;
        while self.nr < target_n
            invariant
                self.wf(),
                nr0 <= self.nr <= target_n,
                nr0 == old(self).nr,
                c0 == old(self).cache(),
                ck@ == chain_at(ck0@, (self.nr - nr0) as nat),
                self.cache() == cache_fill(c0, self.dh_r_pub@, ck0@, nr0 as int, (self.nr - nr0) as nat),
                old(self).ck_r == Some(ck0),
                self.ck_r == old(self).ck_r,
                self.dh_s_priv == old(self).dh_s_priv,
                self.dh_s_pub == old(self).dh_s_pub,
                self.dh_r_pub == old(self).dh_r_pub,
                self.rk == old(self).rk,
                self.ck_s == old(self).ck_s,
                self.ns == old(self).ns,
                self.pn == old(self).pn,
                self.delivered_win == old(self).delivered_win,
                self.late_delivered == old(self).late_delivered,
            decreases target_n - self.nr,
        {
            let (ck_next, mk) = kdf_ck(&ck);
            let pk = self.dh_r_pub;
            let nr = self.nr;
            self.add_skipped(pk, nr, mk);
            proof {
                lemma_cache_fill_step(c0, pk@, ck0@, nr0 as int, (nr - nr0) as nat);
                assert(chain_at(ck0@, (nr - nr0 + 1) as nat) == next_chain(chain_at(ck0@, (nr - nr0) as nat)));
            }
            ck = ck_next;
            self.nr = nr + 1;
        }
        self.ck_r = Some(ck);
    }

    /// Receiving DH step: a new root key and receiving chain from the current
    /// private key and the new remote key, then a fresh local key pair and a
    /// new root key and sending chain from it.
    fn dh_ratchet_recv(&mut self)
        requires
            old(self).wf(),
        ensures
            final(self).wf(),
            final(self).dh_r_pub == old(self).dh_r_pub,
            chain_view(final(self).ck_r) == Some(
                root_chain(old(self).rk@, x25519_mult(old(self).dh_s_priv@, old(self).dh_r_pub@)),
            ),
            final(self).rk@ == next_root(
                next_root(old(self).rk@, x25519_mult(old(self).dh_s_priv@, old(self).dh_r_pub@)),
                x25519_mult(final(self).dh_s_priv@, old(self).dh_r_pub@),
            ),
            chain_view(final(self).ck_s) == Some(
                root_chain(
                    next_root(old(self).rk@, x25519_mult(old(self).dh_s_priv@, old(self).dh_r_pub@)),
                    x25519_mult(final(self).dh_s_priv@, old(self).dh_r_pub@),
                ),
            ),
            final(self).ns == old(self).ns,
            final(self).nr == old(self).nr,
            final(self).pn == old(self).pn,
            final(self).skipped@ == old(self).skipped@,
            final(self).delivered_win == old(self).delivered_win,
            final(self).late_delivered == old(self).late_delivered,
    {
        let dh_out = x25519_shared(&self.dh_s_priv, &self.dh_r_pub);
        let (rk_next, ck_r) = kdf_rk(&self.rk, &dh_out);
        self.rk = rk_next;
        self.ck_r = Some(ck_r);
        let new_s = fresh_secret();
        self.dh_s_priv = new_s;
        self.dh_s_pub = x25519_public(&new_s);
        let dh_out2 = x25519_shared(&new_s, &self.dh_r_pub);
        let (rk_next2, ck_s) = kdf_rk(&self.rk, &dh_out2);
        self.rk = rk_next2;
        self.ck_s = Some(ck_s);
    }
}

/// Most late deliveries recorded.
pub const LATE_MAX: usize = 2048;

/// The record of late deliveries after adding `(pk, n)`: unchanged when it
/// is there already, else it goes last and, when full, the oldest goes.
pub open spec fn record_late_keys(r: Seq<(Seq<u8>, u32)>, pk: Seq<u8>, n: u32) -> Seq<(Seq<u8>, u32)> {
    if r.contains((pk, n)) {
        r
    } else if r.len() >= LATE_MAX {
        r.subrange(1, r.len() as int).push((pk, n))
    } else {
        r.push((pk, n))
    }
}

/// A late delivery just recorded is in the record.
pub proof fn lemma_late_recorded(r: Seq<(Seq<u8>, u32)>, pk: Seq<u8>, n: u32)
    ensures
        record_late_keys(r, pk, n).contains((pk, n)),
{
    let r2 = record_late_keys(r, pk, n);
    if !r.contains((pk, n)) {
        assert(r2[r2.len() - 1] == (pk, n));
    }
}

/// Whether a header's message counts as delivered already: its counter is
/// marked in the window, or it is recorded as delivered late.
pub open spec fn already_delivered(s: RatchetState, h: Header) -> bool {
    window_delivered(s.delivered_win@, h.dh_pub@, h.n) || s.late_keys().contains((h.dh_pub@, h.n))
}

/// Whether a header starts a new receiving epoch.
pub open spec fn is_step(s: RatchetState, h: Header) -> bool {
    h.dh_pub@ != s.dh_r_pub@
}

/// The DH output of the receiving step a header calls for.
pub open spec fn step_dh(s: RatchetState, h: Header) -> Seq<u8> {
    x25519_mult(s.dh_s_priv@, h.dh_pub@)
}

/// The receiving chain key a header's message is derived from, standing at
/// counter `recv_base(s, h)`.
pub open spec fn recv_chain(s: RatchetState, h: Header) -> Option<Seq<u8>> {
    if is_step(s, h) {
        Some(root_chain(s.rk@, step_dh(s, h)))
    } else {
        chain_view(s.ck_r)
    }
}

/// The counter at which `recv_chain(s, h)` stands.
pub open spec fn recv_base(s: RatchetState, h: Header) -> u32 {
    if is_step(s, h) {
        0
    } else {
        s.nr
    }
}

/// How many keys of the receiving chain are skipped before the header's
/// message: none when its counter is not ahead of the chain.
pub open spec fn recv_offset(s: RatchetState, h: Header) -> nat {
    if h.n > recv_base(s, h) {
        (h.n - recv_base(s, h)) as nat
    } else {
        0
    }
}

/// The message key the receiving chain gives a header's message.
pub open spec fn recv_key(s: RatchetState, h: Header) -> Option<Seq<u8>> {
    match recv_chain(s, h) {
        Some(c) => Some(message_key_at(c, recv_offset(s, h))),
        None => None,
    }
}

/// The cached key for a header's epoch and counter, if any.
pub open spec fn skipped_key(s: RatchetState, h: Header) -> Option<Seq<u8>> {
    cache_get(s.cache(), h.dh_pub@, h.n)
}

/// The cache after the old receiving chain is stored up to `pn`.
pub open spec fn old_chain_cache(s: RatchetState, c0: Seq<CacheEntry>, pn: u32) -> Seq<CacheEntry> {
    match s.ck_r {
        Some(c) => if s.nr < pn {
            cache_fill(c0, s.dh_r_pub@, c@, s.nr as int, (pn - s.nr) as nat)
        } else {
            c0
        },
        None => c0,
    }
}

/// The cache after receiving a header's message through the chains: its own
/// cached key gone, the keys of the old chain (on a new epoch) and those
/// skipped before the message stored.
pub open spec fn recv_cache(s: RatchetState, h: Header) -> Seq<CacheEntry> {
    let c1 = cache_take(s.cache(), h.dh_pub@, h.n);
    if is_step(s, h) {
        cache_fill(old_chain_cache(s, c1, h.pn), h.dh_pub@, root_chain(s.rk@, step_dh(s, h)), 0, recv_offset(s, h))
    } else {
        match s.ck_r {
            Some(c) => cache_fill(c1, h.dh_pub@, c@, s.nr as int, recv_offset(s, h)),
            None => c1,
        }
    }
}

impl RatchetState {
    /// On a header with a new epoch key: stores the rest of the old receiving
    /// chain up to the header's `pn`, moves to the new epoch (`pn := ns`,
    /// `ns := nr := 0`, fresh replay window) and performs the double DH step.
    /// Returns whether it stepped.
    pub fn maybe_step(&mut self, header: &Header) -> (r: bool)
        requires
            old(self).wf(),
        ensures
            final(self).wf(),
            r == is_step(*old(self), *header),
            !r ==> *final(self) == *old(self),
            r ==> {
                &&& final(self).cache() == old_chain_cache(*old(self), old(self).cache(), header.pn)
                &&& final(self).dh_r_pub == header.dh_pub
                &&& final(self).late_delivered == old(self).late_delivered
                &&& final(self).delivered_win@ == (WindowView { anchor: header.dh_pub@, base: 0, bits: no_bits() })
                &&& final(self).pn == old(self).ns
                &&& final(self).ns == 0
                &&& final(self).nr == 0
                &&& chain_view(final(self).ck_r) == Some(root_chain(old(self).rk@, step_dh(*old(self), *header)))
                &&& final(self).rk@ == next_root(
                    next_root(old(self).rk@, step_dh(*old(self), *header)),
                    x25519_mult(final(self).dh_s_priv@, header.dh_pub@),
                )
                &&& chain_view(final(self).ck_s) == Some(
                    root_chain(
                        next_root(old(self).rk@, step_dh(*old(self), *header)),
                        x25519_mult(final(self).dh_s_priv@, header.dh_pub@),
                    ),
                )
            },
    {
        if bytes32_eq(&header.dh_pub, &self.dh_r_pub) {
            return false;
        }
        self.skip_recv_until(header.pn);
        self.pn = self.ns;
        self.ns = 0;
        self.nr = 0;
        self.dh_r_pub = header.dh_pub;
        self.delivered_win = DeliveredWindow::new(header.dh_pub);
        self.dh_ratchet_recv();
        true
    }
}

/// Thirty-two zero bytes.
pub open spec fn zeros32() -> Seq<u8> {
    Seq::new(32, |i: int| 0u8)
}

impl RatchetState {
    /// Overwrites the DH keys, the root key and the chain keys with zeros
    /// (each skipped key wipes itself when the cache drops it).
    pub fn wipe(&mut self)
        ensures
            final(self).dh_s_priv@ == zeros32(),
            final(self).dh_s_pub@ == zeros32(),
            final(self).dh_r_pub@ == zeros32(),
            final(self).rk@ == zeros32(),
            final(self).ck_s matches Some(c) ==> c@ == zeros32(),
            final(self).ck_r matches Some(c) ==> c@ == zeros32(),
        opens_invariants none
        no_unwind
    {
        wipe32(&mut self.dh_s_priv);
        wipe32(&mut self.dh_s_pub);
        wipe32(&mut self.dh_r_pub);
        wipe32(&mut self.rk);
        if let Some(c) = &mut self.ck_s {
            wipe32(c);
        }
        if let Some(c) = &mut self.ck_r {
            wipe32(c);
        }
    }
}

impl Drop for RatchetState {
    /// Wipes the state's keys before its memory is released.
    fn drop(&mut self)
        opens_invariants none
        no_unwind
    {
        self.wipe();
    }
}

} // verus!
