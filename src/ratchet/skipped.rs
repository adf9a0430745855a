//! The skipped-key cache: message keys derived ahead of their messages, in
//! insertion order, bounded, and each handed out once.

use vstd::prelude::*;
use crate::crypto::wipe32;
use crate::ratchet::schedule::{chain_at, lemma_chain_at_shift, message_key, message_key_at, next_chain};

verus! {

/// Most skipped keys the cache holds.
pub const SKIPPED_MAX: usize = 2048;

/// A message key derived ahead of its message; wiped when dropped.
#[derive(Debug, Default)]
pub struct SkippedKey {
    pub mk: [u8; 32],
}

impl Drop for SkippedKey {
    /// Wipes the key before its memory is released.
    fn drop(&mut self)
        opens_invariants none
        no_unwind
    {
        wipe32(&mut self.mk);
    }
}

/// One skipped key with the epoch key and counter of its message.
#[derive(Debug)]
pub struct SkippedEntry {
    pub dh_pub: [u8; 32],
    pub n: u32,
    pub key: SkippedKey,
}

/// A cache entry as values: epoch key, counter, message key.
pub type CacheEntry = (Seq<u8>, u32, Seq<u8>);

/// The entries of a cache, oldest first.
pub open spec fn cache_view(v: Seq<SkippedEntry>) -> Seq<CacheEntry> {
    v.map_values(|e: SkippedEntry| (e.dh_pub@, e.n, e.key.mk@))
}

/// Whether the cache holds a key for counter `n` of epoch `pk`.
pub open spec fn cache_has(c: Seq<CacheEntry>, pk: Seq<u8>, n: u32) -> bool {
    exists|i: int| 0 <= i < c.len() && #[trigger] c[i].0 == pk && c[i].1 == n
}

/// Where the cache holds the key for counter `n` of epoch `pk`.
pub open spec fn cache_pos(c: Seq<CacheEntry>, pk: Seq<u8>, n: u32) -> int {
    choose|i: int| 0 <= i < c.len() && #[trigger] c[i].0 == pk && c[i].1 == n
}

/// No two entries share an epoch key and a counter.
pub open spec fn cache_unique(c: Seq<CacheEntry>) -> bool {
    forall|i: int, j: int|
        0 <= i < c.len() && 0 <= j < c.len() && #[trigger] c[i].0 == #[trigger] c[j].0 && c[i].1 == c[j].1
            ==> i == j
}

/// The cache without the entry for `(pk, n)`, if it holds one.
pub open spec fn cache_take(c: Seq<CacheEntry>, pk: Seq<u8>, n: u32) -> Seq<CacheEntry> {
    if cache_has(c, pk, n) {
        c.remove(cache_pos(c, pk, n))
    } else {
        c
    }
}

/// The cache after storing `mk` for `(pk, n)`: any older entry for the same
/// key goes, then, when the cache is full, the oldest entry.
pub open spec fn cache_insert(c: Seq<CacheEntry>, pk: Seq<u8>, n: u32, mk: Seq<u8>) -> Seq<CacheEntry> {
    let c1 = cache_take(c, pk, n);
    if c1.len() >= SKIPPED_MAX {
        c1.subrange(1, c1.len() as int).push((pk, n, mk))
    } else {
        c1.push((pk, n, mk))
    }
}

/// The cache after storing the keys of `k` messages of epoch `pk`, from
/// counter `n` on, derived from chain key `ck`.
pub open spec fn cache_fill(c: Seq<CacheEntry>, pk: Seq<u8>, ck: Seq<u8>, n: int, k: nat) -> Seq<CacheEntry>
    decreases k,
{
    if k == 0 {
        c
    } else {
        cache_fill(
            cache_insert(c, pk, n as u32, message_key(ck)),
            pk,
            next_chain(ck),
            n + 1,
            (k - 1) as nat,
        )
    }
}

/// Storing keys one message further is one more insertion at the end.
pub proof fn lemma_cache_fill_step(c: Seq<CacheEntry>, pk: Seq<u8>, ck: Seq<u8>, n: int, k: nat)
    ensures
        cache_fill(c, pk, ck, n, k + 1) == cache_insert(
            cache_fill(c, pk, ck, n, k),
            pk,
            (n + k) as u32,
            message_key_at(ck, k),
        ),
    decreases k,
{
    let c1 = cache_insert(c, pk, n as u32, message_key(ck));
    assert(cache_fill(c, pk, ck, n, k + 1) == cache_fill(c1, pk, next_chain(ck), n + 1, k));
    if k > 0 {
        lemma_cache_fill_step(c1, pk, next_chain(ck), n + 1, (k - 1) as nat);
        lemma_chain_at_shift(ck, (k - 1) as nat);
        assert(cache_fill(c, pk, ck, n, k) == cache_fill(c1, pk, next_chain(ck), n + 1, (k - 1) as nat));
        assert(n + 1 + (k - 1) == n + k);
    } else {
        assert(chain_at(ck, 0) == ck);
    }
}

/// Taking an entry out keeps the keys unique and leaves none for `(pk, n)`.
pub proof fn lemma_cache_take(c: Seq<CacheEntry>, pk: Seq<u8>, n: u32)
    requires
        cache_unique(c),
    ensures
        cache_unique(cache_take(c, pk, n)),
        !cache_has(cache_take(c, pk, n), pk, n),
        cache_take(c, pk, n).len() == if cache_has(c, pk, n) { c.len() - 1 } else { c.len() as int },
        forall|pk2: Seq<u8>, n2: u32|
            !(pk2 == pk && n2 == n) ==> (cache_has(cache_take(c, pk, n), pk2, n2) == cache_has(c, pk2, n2)),
{
    if cache_has(c, pk, n) {
        let p = cache_pos(c, pk, n);
        let c1 = c.remove(p);
        assert forall|i: int| 0 <= i < c1.len() implies c1[i] == (if i < p { c[i] } else { c[i + 1] }) by {}
        assert forall|pk2: Seq<u8>, n2: u32| !(pk2 == pk && n2 == n) implies (cache_has(c1, pk2, n2) == cache_has(c, pk2, n2)) by {
            if cache_has(c, pk2, n2) {
                let j = choose|j: int| 0 <= j < c.len() && #[trigger] c[j].0 == pk2 && c[j].1 == n2;
                if j < p {
                    assert(c1[j].0 == pk2);
                } else {
                    assert(j != p);
                    assert(c1[j - 1].0 == pk2);
                }
            }
            if cache_has(c1, pk2, n2) {
                let j = choose|j: int| 0 <= j < c1.len() && #[trigger] c1[j].0 == pk2 && c1[j].1 == n2;
                if j < p {
                    assert(c[j].0 == pk2);
                } else {
                    assert(c[j + 1].0 == pk2);
                }
            }
        }
        if cache_has(c1, pk, n) {
            let j = choose|j: int| 0 <= j < c1.len() && #[trigger] c1[j].0 == pk && c1[j].1 == n;
            if j < p {
                assert(c[j].0 == pk);
            } else {
                assert(c[j + 1].0 == pk);
            }
        }
    }
}

/// Inserting keeps the keys unique and the cache within its bound, holds the
/// new entry, and keeps every other key but the evicted oldest one.
pub proof fn lemma_cache_insert(c: Seq<CacheEntry>, pk: Seq<u8>, n: u32, mk: Seq<u8>)
    requires
        cache_unique(c),
        c.len() <= SKIPPED_MAX,
    ensures
        cache_unique(cache_insert(c, pk, n, mk)),
        cache_insert(c, pk, n, mk).len() <= SKIPPED_MAX,
        cache_has(cache_insert(c, pk, n, mk), pk, n),
        cache_insert(c, pk, n, mk).last() == (pk, n, mk),
{
    lemma_cache_take(c, pk, n);
    let c1 = cache_take(c, pk, n);
    let c2 = cache_insert(c, pk, n, mk);
    let last = c2.len() - 1;
    assert(c2[last] == (pk, n, mk));
    assert(c2[last].0 == pk && c2[last].1 == n);
    assert forall|i: int, j: int|
        0 <= i < c2.len() && 0 <= j < c2.len() && #[trigger] c2[i].0 == #[trigger] c2[j].0 && c2[i].1 == c2[j].1
        implies i == j by {
        let off: int = if c1.len() >= SKIPPED_MAX { 1 } else { 0 };
        if i < last && j < last {
            assert(c2[i] == c1[i + off]);
            assert(c2[j] == c1[j + off]);
        } else if i < last {
            assert(c2[i] == c1[i + off]);
            assert(c1[i + off].0 == pk);
        } else if j < last {
            assert(c2[j] == c1[j + off]);
            assert(c1[j + off].0 == pk);
        }
    }
}

/// Bounded retention: storing a new key in a full cache makes its oldest
/// entry unreachable.
pub proof fn lemma_oldest_evicted(c: Seq<CacheEntry>, pk: Seq<u8>, n: u32, mk: Seq<u8>)
    requires
        cache_unique(c),
        c.len() == SKIPPED_MAX,
        !cache_has(c, pk, n),
    ensures
        !cache_has(cache_insert(c, pk, n, mk), c[0].0, c[0].1),
{
    let c2 = cache_insert(c, pk, n, mk);
    assert(c[0].0 == c[0].0);
    if cache_has(c2, c[0].0, c[0].1) {
        let j = choose|j: int| 0 <= j < c2.len() && #[trigger] c2[j].0 == c[0].0 && c2[j].1 == c[0].1;
        if j < c2.len() - 1 {
            assert(c2[j] == c[j + 1]);
            assert(c[j + 1].0 == c[0].0);
        } else {
            assert(c2[j] == (pk, n, mk));
            assert(cache_has(c, pk, n));
        }
    }
}

/// The key the cache holds for counter `n` of epoch `pk`, if any.
pub open spec fn cache_get(c: Seq<CacheEntry>, pk: Seq<u8>, n: u32) -> Option<Seq<u8>> {
    if cache_has(c, pk, n) {
        Some(c[cache_pos(c, pk, n)].2)
    } else {
        None
    }
}

/// In a cache with unique keys, an entry found for a key is the one
/// `cache_get` returns.
proof fn lemma_cache_get_at(c: Seq<CacheEntry>, i: int)
    requires
        cache_unique(c),
        0 <= i < c.len(),
    ensures
        cache_get(c, c[i].0, c[i].1) == Some(c[i].2),
{
    assert(c[i].0 == c[i].0 && c[i].1 == c[i].1);
    let p = cache_pos(c, c[i].0, c[i].1);
    assert(c[p].0 == c[i].0 && c[p].1 == c[i].1);
}

/// Taking an entry out leaves every other key's value as it was.
pub proof fn lemma_cache_take_get(c: Seq<CacheEntry>, pk: Seq<u8>, n: u32, pk2: Seq<u8>, n2: u32)
    requires
        cache_unique(c),
    ensures
        cache_get(cache_take(c, pk, n), pk2, n2) == if pk2 == pk && n2 == n {
            None
        } else {
            cache_get(c, pk2, n2)
        },
{
    lemma_cache_take(c, pk, n);
    let c1 = cache_take(c, pk, n);
    if !(pk2 == pk && n2 == n) && cache_has(c, pk2, n2) && cache_has(c, pk, n) {
        let p = cache_pos(c, pk, n);
        let q = cache_pos(c, pk2, n2);
        assert(c[q].0 == pk2 && c[q].1 == n2);
        assert(c[p].0 == pk && c[p].1 == n);
        assert(q != p);
        let q1 = if q < p { q } else { q - 1 };
        assert(c1[q1] == c[q]);
        lemma_cache_get_at(c1, q1);
        lemma_cache_get_at(c, q);
    }
}

/// Inserting into a cache with room sets one key and leaves the others.
pub proof fn lemma_cache_insert_get(c: Seq<CacheEntry>, pk: Seq<u8>, n: u32, mk: Seq<u8>, pk2: Seq<u8>, n2: u32)
    requires
        cache_unique(c),
        c.len() < SKIPPED_MAX,
    ensures
        cache_insert(c, pk, n, mk).len() <= c.len() + 1,
        cache_get(cache_insert(c, pk, n, mk), pk2, n2) == if pk2 == pk && n2 == n {
            Some(mk)
        } else {
            cache_get(c, pk2, n2)
        },
{
    lemma_cache_take(c, pk, n);
    lemma_cache_insert(c, pk, n, mk);
    lemma_cache_take_get(c, pk, n, pk2, n2);
    let c1 = cache_take(c, pk, n);
    let c2 = cache_insert(c, pk, n, mk);
    assert(c2 == c1.push((pk, n, mk)));
    let last = c2.len() - 1;
    if pk2 == pk && n2 == n {
        lemma_cache_get_at(c2, last);
    } else {
        if cache_has(c1, pk2, n2) {
            let q = cache_pos(c1, pk2, n2);
            assert(c1[q].0 == pk2 && c1[q].1 == n2);
            assert(c2[q] == c1[q]);
            lemma_cache_get_at(c2, q);
        }
        if cache_has(c2, pk2, n2) {
            let q = cache_pos(c2, pk2, n2);
            assert(c2[q].0 == pk2 && c2[q].1 == n2);
            assert(q != last);
            assert(c1[q] == c2[q]);
        }
    }
}

/// Storing the keys of `k` messages into a cache with room for them: those
/// counters get their chain's keys, every other key keeps its value.
pub proof fn lemma_cache_fill_get(c: Seq<CacheEntry>, pk: Seq<u8>, ck: Seq<u8>, n: int, k: nat, pk2: Seq<u8>, n2: u32)
    requires
        cache_unique(c),
        c.len() + k <= SKIPPED_MAX,
        0 <= n,
        n + k <= u32::MAX + 1,
    ensures
        cache_unique(cache_fill(c, pk, ck, n, k)),
        cache_fill(c, pk, ck, n, k).len() <= c.len() + k,
        cache_get(cache_fill(c, pk, ck, n, k), pk2, n2) == if pk2 == pk && n <= n2 < n + k {
            Some(message_key_at(ck, (n2 - n) as nat))
        } else {
            cache_get(c, pk2, n2)
        },
    decreases k,
{
    if k > 0 {
        let c1 = cache_insert(c, pk, n as u32, message_key(ck));
        lemma_cache_insert(c, pk, n as u32, message_key(ck));
        lemma_cache_insert_get(c, pk, n as u32, message_key(ck), pk2, n2);
        lemma_cache_fill_get(c1, pk, next_chain(ck), n + 1, (k - 1) as nat, pk2, n2);
        assert(cache_fill(c, pk, ck, n, k) == cache_fill(c1, pk, next_chain(ck), n + 1, (k - 1) as nat));
        if pk2 == pk && n + 1 <= n2 < n + k {
            lemma_chain_at_shift(ck, (n2 - n - 1) as nat);
        }
        if pk2 == pk && n2 == n {
            assert(chain_at(ck, 0) == ck);
        }
    }
}

/// The cache after inserting the entries of `es` in order.
pub open spec fn cache_insert_all(c: Seq<CacheEntry>, es: Seq<CacheEntry>) -> Seq<CacheEntry>
    decreases es.len(),
{
    if es.len() == 0 {
        c
    } else {
        cache_insert_all(cache_insert(c, es[0].0, es[0].1, es[0].2), es.subrange(1, es.len() as int))
    }
}

/// The entries of `es` have pairwise distinct keys, none held by `c` and
/// none equal to `(pk, n)`.
pub open spec fn fresh_entries(c: Seq<CacheEntry>, es: Seq<CacheEntry>, pk: Seq<u8>, n: u32) -> bool {
    &&& forall|i: int| 0 <= i < es.len() ==> !cache_has(c, #[trigger] es[i].0, es[i].1)
    &&& forall|i: int| 0 <= i < es.len() ==> !(#[trigger] es[i].0 == pk && es[i].1 == n)
    &&& forall|i: int, j: int|
        0 <= i < j < es.len() ==> !(#[trigger] es[i].0 == #[trigger] es[j].0 && es[i].1 == es[j].1)
}

/// Inserting a key the cache does not hold takes nothing out first.
proof fn lemma_insert_fresh(c: Seq<CacheEntry>, e: CacheEntry)
    requires
        !cache_has(c, e.0, e.1),
    ensures
        cache_insert(c, e.0, e.1, e.2) == if c.len() >= SKIPPED_MAX {
            c.subrange(1, c.len() as int).push(e)
        } else {
            c.push(e)
        },
{
}

/// One insertion of a fresh entry keeps the rest of `es` fresh.
proof fn lemma_fresh_tail(c: Seq<CacheEntry>, es: Seq<CacheEntry>, pk: Seq<u8>, n: u32)
    requires
        es.len() > 0,
        fresh_entries(c, es, pk, n),
    ensures
        fresh_entries(cache_insert(c, es[0].0, es[0].1, es[0].2), es.subrange(1, es.len() as int), pk, n),
{
    let c2 = cache_insert(c, es[0].0, es[0].1, es[0].2);
    let tail = es.subrange(1, es.len() as int);
    assert(!cache_has(c, es[0].0, es[0].1));
    lemma_insert_fresh(c, es[0]);
    assert forall|i: int| 0 <= i < tail.len() implies !cache_has(c2, #[trigger] tail[i].0, tail[i].1) by {
        assert(tail[i] == es[i + 1]);
        assert(!(es[0].0 == es[i + 1].0 && es[0].1 == es[i + 1].1));
        assert(!cache_has(c, es[i + 1].0, es[i + 1].1));
        if cache_has(c2, tail[i].0, tail[i].1) {
            let j = choose|j: int| 0 <= j < c2.len() && #[trigger] c2[j].0 == tail[i].0 && c2[j].1 == tail[i].1;
            if j == c2.len() - 1 {
                assert(c2[j] == es[0]);
            } else if c.len() >= SKIPPED_MAX {
                assert(c2[j] == c[j + 1]);
                assert(c[j + 1].0 == tail[i].0);
            } else {
                assert(c2[j] == c[j]);
                assert(c[j].0 == tail[i].0);
            }
        }
    }
    assert forall|i: int| 0 <= i < tail.len() implies !(#[trigger] tail[i].0 == pk && tail[i].1 == n) by {
        assert(tail[i] == es[i + 1]);
    }
    assert forall|i: int, j: int|
        0 <= i < j < tail.len() implies !(#[trigger] tail[i].0 == #[trigger] tail[j].0 && tail[i].1 == tail[j].1) by {
        assert(tail[i] == es[i + 1]);
        assert(tail[j] == es[j + 1]);
    }
}

/// A key the cache lacks stays out while fresh entries come in.
proof fn lemma_absent_stays(c: Seq<CacheEntry>, es: Seq<CacheEntry>, pk: Seq<u8>, n: u32)
    requires
        cache_unique(c),
        c.len() <= SKIPPED_MAX,
        !cache_has(c, pk, n),
        fresh_entries(c, es, pk, n),
    ensures
        !cache_has(cache_insert_all(c, es), pk, n),
    decreases es.len(),
{
    if es.len() > 0 {
        let c2 = cache_insert(c, es[0].0, es[0].1, es[0].2);
        assert(!cache_has(c, es[0].0, es[0].1));
        assert(!(es[0].0 == pk && es[0].1 == n));
        lemma_insert_fresh(c, es[0]);
        lemma_cache_insert(c, es[0].0, es[0].1, es[0].2);
        if cache_has(c2, pk, n) {
            let j = choose|j: int| 0 <= j < c2.len() && #[trigger] c2[j].0 == pk && c2[j].1 == n;
            if j == c2.len() - 1 {
                assert(c2[j] == es[0]);
            } else if c.len() >= SKIPPED_MAX {
                assert(c2[j] == c[j + 1]);
                assert(c[j + 1].0 == pk);
            } else {
                assert(c2[j] == c[j]);
                assert(c[j].0 == pk);
            }
        }
        lemma_fresh_tail(c, es, pk, n);
        lemma_absent_stays(c2, es.subrange(1, es.len() as int), pk, n);
    }
}

/// An entry at position `p` is gone once more fresh entries have come in
/// than the room left above it.
proof fn lemma_evicted_in_turn(c: Seq<CacheEntry>, es: Seq<CacheEntry>, pk: Seq<u8>, n: u32, p: int)
    requires
        cache_unique(c),
        c.len() <= SKIPPED_MAX,
        0 <= p < c.len(),
        c[p].0 == pk && c[p].1 == n,
        fresh_entries(c, es, pk, n),
        p + (SKIPPED_MAX - c.len()) < es.len(),
    ensures
        !cache_has(cache_insert_all(c, es), pk, n),
    decreases es.len(),
{
    let c2 = cache_insert(c, es[0].0, es[0].1, es[0].2);
    let tail = es.subrange(1, es.len() as int);
    assert(!cache_has(c, es[0].0, es[0].1));
    lemma_insert_fresh(c, es[0]);
    lemma_cache_insert(c, es[0].0, es[0].1, es[0].2);
    lemma_fresh_tail(c, es, pk, n);
    if c.len() >= SKIPPED_MAX {
        if p == 0 {
            if cache_has(c2, pk, n) {
                let j = choose|j: int| 0 <= j < c2.len() && #[trigger] c2[j].0 == pk && c2[j].1 == n;
                if j == c2.len() - 1 {
                    assert(c2[j] == es[0]);
                    assert(!(es[0].0 == pk && es[0].1 == n));
                } else {
                    assert(c2[j] == c[j + 1]);
                    assert(c[j + 1].0 == c[0].0 && c[j + 1].1 == c[0].1);
                }
            }
            lemma_absent_stays(c2, tail, pk, n);
        } else {
            assert(c2[p - 1] == c[p]);
            lemma_evicted_in_turn(c2, tail, pk, n, p - 1);
        }
    } else {
        assert(c2[p] == c[p]);
        lemma_evicted_in_turn(c2, tail, pk, n, p);
    }
}

/// Bounded retention: once as many fresh entries as the cache holds have
/// been inserted after it, with no lookup in between, a cached key is gone.
pub proof fn lemma_evicted_after_full_turn(c: Seq<CacheEntry>, es: Seq<CacheEntry>, pk: Seq<u8>, n: u32)
    requires
        cache_unique(c),
        c.len() <= SKIPPED_MAX,
        fresh_entries(c, es, pk, n),
        es.len() >= SKIPPED_MAX,
    ensures
        !cache_has(cache_insert_all(c, es), pk, n),
{
    if cache_has(c, pk, n) {
        let p = choose|p: int| 0 <= p < c.len() && #[trigger] c[p].0 == pk && c[p].1 == n;
        lemma_evicted_in_turn(c, es, pk, n, p);
    } else {
        lemma_absent_stays(c, es, pk, n);
    }
}

/// The entries that storing the keys of `k` messages of epoch `pk` from
/// counter `n` on chain key `ck` inserts, in order.
pub open spec fn fill_entries(pk: Seq<u8>, ck: Seq<u8>, n: int, k: nat) -> Seq<CacheEntry> {
    Seq::new(k, |i: int| (pk, (n + i) as u32, message_key_at(ck, i as nat)))
}

/// Storing the keys of skipped messages is inserting their entries one by
/// one, so the laws on `cache_insert_all` apply to what `skip_recv_until`
/// and `maybe_step` store.
pub proof fn lemma_fill_is_insert_all(c: Seq<CacheEntry>, pk: Seq<u8>, ck: Seq<u8>, n: int, k: nat)
    ensures
        cache_fill(c, pk, ck, n, k) == cache_insert_all(c, fill_entries(pk, ck, n, k)),
    decreases k,
{
    let es = fill_entries(pk, ck, n, k);
    if k > 0 {
        let c1 = cache_insert(c, pk, n as u32, message_key(ck));
        assert(chain_at(ck, 0) == ck);
        assert(es[0] == (pk, n as u32, message_key(ck)));
        let tail = fill_entries(pk, next_chain(ck), n + 1, (k - 1) as nat);
        assert forall|i: int| 0 <= i < tail.len() implies #[trigger] tail[i] == es.subrange(1, es.len() as int)[i] by {
            lemma_chain_at_shift(ck, i as nat);
            assert(n + 1 + i == n + (i + 1));
        }
        assert(tail =~= es.subrange(1, es.len() as int));
        lemma_fill_is_insert_all(c1, pk, next_chain(ck), n + 1, (k - 1) as nat);
    } else {
        assert(es.len() == 0);
    }
}

} // verus!
