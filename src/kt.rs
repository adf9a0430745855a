//! Key-transparency log: leaf encoding, the Merkle root over leaf hashes,
//! inclusion proofs and their verification.

use vstd::prelude::*;
use vstd::bytes::{spec_u32_to_le_bytes, spec_u64_to_le_bytes, u32_to_le_bytes, u64_to_le_bytes};
use vstd::utf8::encode_utf8;
use crate::crypto::{
    ed25519_public, ed25519_sign, ed25519_signature, ed25519_verifies, ed25519_verify, sha256, sha256_of,
};
use crate::crypto::bytes32_eq;
use crate::wire::append_bytes;

verus! {

/// One entry of the log: a device's public key, chained to the previous
/// entry's hash.
pub struct Leaf {
    pub user_id: String,
    pub device_id: String,
    pub pk: Vec<u8>,
    pub ts_ms: u64,
    pub prev_hash: [u8; 32],
}

/// A signed tree head: size and root of the tree at a time, and a signature.
pub struct Sth {
    pub tree_size: u64,
    pub root: [u8; 32],
    pub timestamp_ms: u64,
    pub sig: Vec<u8>,
}

/// The UTF-8 bytes of a string.
pub open spec fn utf8(s: String) -> Seq<u8> {
    encode_utf8(s@)
}

/// The field lengths of a leaf fit its 4-byte length prefixes.
pub open spec fn leaf_encodable(l: Leaf) -> bool {
    &&& utf8(l.user_id).len() <= u32::MAX
    &&& utf8(l.device_id).len() <= u32::MAX
    &&& l.pk@.len() <= u32::MAX
}

/// A byte string behind its 4-byte little-endian length.
pub open spec fn prefixed(b: Seq<u8>) -> Seq<u8> {
    spec_u32_to_le_bytes(b.len() as u32) + b
}

/// The bytes of a leaf.
pub open spec fn leaf_bytes(l: Leaf) -> Seq<u8> {
    prefixed(utf8(l.user_id)) + prefixed(utf8(l.device_id)) + prefixed(l.pk@) + spec_u64_to_le_bytes(l.ts_ms)
        + l.prev_hash@
}

/// The hash of a leaf, domain-separated by a zero byte.
pub open spec fn leaf_hash(l: Leaf) -> Seq<u8> {
    sha256_of(seq![0u8] + leaf_bytes(l))
}

/// The hash of an inner node, domain-separated by a one byte.
pub open spec fn node_hash(l: Seq<u8>, r: Seq<u8>) -> Seq<u8> {
    sha256_of(seq![1u8] + l + r)
}

/// The bytes hashed for the root of an empty tree.
pub open spec fn empty_tag() -> Seq<u8> {
    encode_utf8("HL-KT-EMPTY"@)
}

/// The hashes of a level as values.
pub open spec fn level_view(v: Seq<[u8; 32]>) -> Seq<Seq<u8>> {
    v.map_values(|h: [u8; 32]| h@)
}

/// The right partner of entry `2 t` of a level: the next entry, or the entry
/// itself when it is the last of an odd level.
pub open spec fn right_of(level: Seq<Seq<u8>>, t: int) -> Seq<u8> {
    if 2 * t + 1 < level.len() {
        level[2 * t + 1]
    } else {
        level[2 * t]
    }
}

/// The level above: each pair hashed, an odd last entry paired with itself.
pub open spec fn next_level(level: Seq<Seq<u8>>) -> Seq<Seq<u8>> {
    Seq::new(((level.len() + 1) / 2) as nat, |t: int| node_hash(level[2 * t], right_of(level, t)))
}

/// The root over a level of hashes.
pub open spec fn root_of(level: Seq<Seq<u8>>) -> Seq<u8>
    decreases level.len(),
{
    if level.len() == 0 {
        sha256_of(empty_tag())
    } else if level.len() == 1 {
        level[0]
    } else {
        root_of(next_level(level))
    }
}

/// The sibling of entry `idx` on its level.
pub open spec fn sibling(level: Seq<Seq<u8>>, idx: int) -> Seq<u8> {
    if idx % 2 == 0 {
        if idx + 1 < level.len() {
            level[idx + 1]
        } else {
            level[idx]
        }
    } else {
        level[idx - 1]
    }
}

/// The siblings on the path from entry `idx` to the root.
pub open spec fn proof_of(level: Seq<Seq<u8>>, idx: int) -> Seq<Seq<u8>>
    decreases level.len(),
{
    if level.len() <= 1 {
        Seq::empty()
    } else {
        seq![sibling(level, idx)] + proof_of(next_level(level), idx / 2)
    }
}

/// One step up the path: the node over `acc` and its sibling `s`.
pub open spec fn path_step(acc: Seq<u8>, idx: int, s: Seq<u8>) -> Seq<u8> {
    if idx % 2 == 0 {
        node_hash(acc, s)
    } else {
        node_hash(s, acc)
    }
}

/// The root that a path of siblings leads to from `acc` at index `idx`.
pub open spec fn fold_path(acc: Seq<u8>, idx: int, path: Seq<Seq<u8>>) -> Seq<u8>
    decreases path.len(),
{
    if path.len() == 0 {
        acc
    } else {
        fold_path(path_step(acc, idx, path[0]), idx / 2, path.subrange(1, path.len() as int))
    }
}

/// The 32-byte node hash over two hashes.
fn hash_node(l: &[u8; 32], r: &[u8; 32]) -> (h: [u8; 32])
    ensures
        h@ == node_hash(l@, r@),
{
    let mut v: Vec<u8> = Vec::new();
    v.push(1u8);
    append_bytes(&mut v, l.as_slice());
    append_bytes(&mut v, r.as_slice());
    assert(v@ =~= seq![1u8] + l@ + r@);
    sha256(v.as_slice())
}

/// Appends `b` behind its 4-byte length.
fn append_prefixed(out: &mut Vec<u8>, b: &[u8])
    requires
        b@.len() <= u32::MAX,
    ensures
        final(out)@ == old(out)@ + prefixed(b@),
{
    let lb = u32_to_le_bytes(b.len() as u32);
    append_bytes(out, lb.as_slice());
    append_bytes(out, b);
    assert(out@ =~= old(out)@ + prefixed(b@));
}

/// Encodes a leaf: user, device and key behind their lengths, then the
/// timestamp and the previous hash.
fn encode_leaf(l: &Leaf) -> (r: Vec<u8>)
    requires
        leaf_encodable(*l),
    ensures
        r@ == leaf_bytes(*l),
{
    let mut v: Vec<u8> = Vec::new();
    append_prefixed(&mut v, l.user_id.as_str().as_bytes());
    append_prefixed(&mut v, l.device_id.as_str().as_bytes());
    append_prefixed(&mut v, l.pk.as_slice());
    let tb = u64_to_le_bytes(l.ts_ms);
    append_bytes(&mut v, tb.as_slice());
    append_bytes(&mut v, l.prev_hash.as_slice());
    assert(v@ =~= leaf_bytes(*l));
    v
}

/// The hash of a leaf.
pub fn hash_leaf(l: &Leaf) -> (h: [u8; 32])
    requires
        leaf_encodable(*l),
    ensures
        h@ == leaf_hash(*l),
{
    let e = encode_leaf(l);
    let mut v: Vec<u8> = Vec::new();
    v.push(0u8);
    append_bytes(&mut v, e.as_slice());
    assert(v@ =~= seq![0u8] + leaf_bytes(*l));
    sha256(v.as_slice())
}

/// Computes the level above a level of hashes.
fn hash_level(level: &Vec<[u8; 32]>) -> (next: Vec<[u8; 32]>)
    ensures
        next@.len() == (level@.len() + 1) / 2,
        level_view(next@) == next_level(level_view(level@)),
{
    let len = level.len();
    let half = len / 2 + len % 2;
    let ghost lv = level_view(level@);
    let mut next: Vec<[u8; 32]> = Vec::new();
    let mut t: usize = 0;
    while t < half
        invariant
            len == level@.len(),
            half == (len + 1) / 2,
            lv == level_view(level@),
            t <= half,
            next@.len() == t,
            forall|u: int| 0 <= u < t ==> #[trigger] next@[u]@ == node_hash(lv[2 * u], right_of(lv, u)),
        decreases half - t,
    {
        let i = 2 * t;
        let left = level[i];
        let right = if i + 1 < len {
            level[i + 1]
        } else {
            left
        };
        let h = hash_node(&left, &right);
        proof {
            assert(lv[i as int] == left@);
            if i + 1 < len {
                assert(lv[i + 1] == right@);
            }
        }
        next.push(h);
        t = t + 1;
    }
    assert(level_view(next@) =~= next_level(lv));
    next
}

/// The Merkle root over a level of leaf hashes; an empty tree has the hash
/// of a fixed tag.
pub fn root_from_hashes(level: Vec<[u8; 32]>) -> (r: [u8; 32])
    ensures
        r@ == root_of(level_view(level@)),
{
    if level.len() == 0 {
        let tag = "HL-KT-EMPTY";
        proof {
            reveal_strlit("HL-KT-EMPTY");
        }
        return sha256(tag.as_bytes());
    }
    let mut cur = level;
    let ghost target = root_of(level_view(cur@));
    while cur.len() > 1
        invariant
            cur@.len() >= 1,
            root_of(level_view(cur@)) == target,
        decreases cur@.len(),
    {
        assert(level_view(cur@).len() == cur@.len());
        cur = hash_level(&cur);
    }
    assert(level_view(cur@).len() == 1);
    cur[0]
}

/// The hashes of a list of leaves.
pub open spec fn leaf_hashes(leaves: Seq<Leaf>) -> Seq<Seq<u8>> {
    leaves.map_values(|l: Leaf| leaf_hash(l))
}

/// The Merkle root over the hashes of `leaves`.
pub fn merkle_root(leaves: &[Leaf]) -> (r: [u8; 32])
    requires
        forall|i: int| 0 <= i < leaves@.len() ==> leaf_encodable(#[trigger] leaves@[i]),
    ensures
        r@ == root_of(leaf_hashes(leaves@)),
{
    let n = leaves.len();
    let mut hashes: Vec<[u8; 32]> = Vec::new();
    let mut i: usize = 0;
    while i < n
        invariant
            n == leaves@.len(),
            i <= n,
            forall|j: int| 0 <= j < leaves@.len() ==> leaf_encodable(#[trigger] leaves@[j]),
            hashes@.len() == i,
            level_view(hashes@) == leaf_hashes(leaves@.subrange(0, i as int)),
        decreases n - i,
    {
        let h = hash_leaf(&leaves[i]);
        assert(h@ == leaf_hash(leaves@[i as int]));
        let ghost old_h = hashes@;
        assert forall|j: int| 0 <= j < i implies #[trigger] old_h[j]@ == leaf_hash(leaves@[j]) by {
            assert(level_view(old_h)[j] == old_h[j]@);
            assert(leaf_hashes(leaves@.subrange(0, i as int))[j] == leaf_hash(leaves@[j]));
        }
        hashes.push(h);
        i = i + 1;
        assert(hashes@ == old_h.push(h));
        assert forall|j: int| 0 <= j < i implies #[trigger] hashes@[j]@ == leaf_hash(leaves@[j]) by {
            if j < i - 1 {
                assert(hashes@[j] == old_h[j]);
            }
        }
        assert(level_view(hashes@) =~= leaf_hashes(leaves@.subrange(0, i as int)));
    }
    assert(leaves@.subrange(0, n as int) =~= leaves@);
    root_from_hashes(hashes)
}

/// The siblings on the path from leaf `idx` to the root, lowest first; an
/// index past the last leaf has no path and gets an empty proof.
pub fn inclusion_proof(hashes: &[[u8; 32]], idx: usize) -> (r: Vec<[u8; 32]>)
    ensures
        idx < hashes@.len() ==> level_view(r@) == proof_of(level_view(hashes@), idx as int),
        idx >= hashes@.len() ==> r@.len() == 0,
{
    let n = hashes.len();
    if idx >= n {
        return Vec::new();
    }
    let mut level: Vec<[u8; 32]> = Vec::new();
    let mut j: usize = 0;
    while j < n
        invariant
            n == hashes@.len(),
            j <= n,
            level@ == hashes@.subrange(0, j as int),
        decreases n - j,
    {
        level.push(hashes[j]);
        j = j + 1;
        assert(level@ =~= hashes@.subrange(0, j as int));
    }
    assert(hashes@.subrange(0, n as int) =~= hashes@);
    let ghost target = proof_of(level_view(hashes@), idx as int);
    let mut path: Vec<[u8; 32]> = Vec::new();
    let mut i = idx;
    while level.len() > 1
        invariant
            i < level@.len() || level@.len() <= 1,
            level_view(path@) + proof_of(level_view(level@), i as int) == target,
        decreases level@.len(),
    {
        let len = level.len();
        let ghost lv = level_view(level@);
        assert(lv.len() == len);
        let sib = if i % 2 == 0 {
            if i + 1 < len {
                level[i + 1]
            } else {
                level[i]
            }
        } else {
            level[i - 1]
        };
        assert(sib@ == sibling(lv, i as int));
        let ghost old_path = level_view(path@);
        path.push(sib);
        assert(level_view(path@) =~= old_path + seq![sib@]);
        level = hash_level(&level);
        i = i / 2;
        assert(old_path + (seq![sib@] + proof_of(level_view(level@), i as int)) =~= level_view(path@) + proof_of(
            level_view(level@),
            i as int,
        ));
    }
    assert(proof_of(level_view(level@), i as int) =~= Seq::<Seq<u8>>::empty());
    assert(level_view(path@) + Seq::<Seq<u8>>::empty() =~= level_view(path@));
    path
}

/// Whether the path `proof` leads from `leaf_hash` at index `idx` to `root`.
pub fn verify_inclusion(root: &[u8; 32], leaf_hash: &[u8; 32], idx: usize, proof: &[[u8; 32]]) -> (r: bool)
    ensures
        r == (fold_path(leaf_hash@, idx as int, level_view(proof@)) == root@),
{
    let n = proof.len();
    let ghost pv = level_view(proof@);
    let ghost target = fold_path(leaf_hash@, idx as int, pv);
    let mut acc = *leaf_hash;
    let mut i = idx;
    let mut k: usize = 0;
    assert(pv.subrange(0, n as int) =~= pv);
    while k < n
        invariant
            n == proof@.len(),
            pv == level_view(proof@),
            k <= n,
            fold_path(acc@, i as int, pv.subrange(k as int, n as int)) == target,
        decreases n - k,
    {
        let s = proof[k];
        assert(pv[k as int] == s@);
        let ghost rest = pv.subrange(k as int, n as int);
        assert(rest.subrange(1, rest.len() as int) =~= pv.subrange(k + 1, n as int));
        acc = if i % 2 == 0 {
            hash_node(&acc, &s)
        } else {
            hash_node(&s, &acc)
        };
        i = i / 2;
        k = k + 1;
    }
    bytes32_eq(&acc, root)
}

/// An inclusion proof verifies: the path of siblings from any leaf of a
/// level leads to the level's root.
pub proof fn lemma_inclusion_proof_verifies(level: Seq<Seq<u8>>, idx: int)
    requires
        0 <= idx < level.len(),
    ensures
        fold_path(level[idx], idx, proof_of(level, idx)) == root_of(level),
    decreases level.len(),
{
    if level.len() > 1 {
        let next = next_level(level);
        let p = proof_of(level, idx);
        assert(path_step(level[idx], idx, sibling(level, idx)) == next[idx / 2]);
        assert(p.subrange(1, p.len() as int) =~= proof_of(next, idx / 2));
        lemma_inclusion_proof_verifies(next, idx / 2);
    }
}

/// The bytes a tree head's signature covers.
pub open spec fn sth_bytes(sth: Sth) -> Seq<u8> {
    encode_utf8("HL-STH"@) + spec_u64_to_le_bytes(sth.tree_size) + sth.root@ + spec_u64_to_le_bytes(sth.timestamp_ms)
}

/// Encodes the signed part of a tree head: tag, size, root, time.
pub fn sth_to_bytes(sth: &Sth) -> (r: Vec<u8>)
    ensures
        r@ == sth_bytes(*sth),
{
    let tag = "HL-STH";
    proof {
        reveal_strlit("HL-STH");
    }
    let mut v: Vec<u8> = Vec::new();
    append_bytes(&mut v, tag.as_bytes());
    let sb = u64_to_le_bytes(sth.tree_size);
    append_bytes(&mut v, sb.as_slice());
    append_bytes(&mut v, sth.root.as_slice());
    let tb = u64_to_le_bytes(sth.timestamp_ms);
    append_bytes(&mut v, tb.as_slice());
    assert(v@ =~= sth_bytes(*sth));
    v
}

/// A tree head for `tree_size` leaves with `root` at `timestamp_ms`, signed
/// with secret key `sk`.
pub fn sign_sth(sk: &[u8; 32], tree_size: u64, root: [u8; 32], timestamp_ms: u64) -> (r: Sth)
    ensures
        r.tree_size == tree_size,
        r.root == root,
        r.timestamp_ms == timestamp_ms,
        r.sig@ == ed25519_signature(sk@, sth_bytes(r)),
        r.sig@.len() == 64,
{
    let mut s = Sth { tree_size, root, timestamp_ms, sig: Vec::new() };
    let m = sth_to_bytes(&s);
    let sig = ed25519_sign(sk, m.as_slice());
    let mut sv: Vec<u8> = Vec::new();
    append_bytes(&mut sv, sig.as_slice());
    s.sig = sv;
    s
}

/// Whether a tree head carries a valid signature under public key `vk`; a
/// head signed with the matching secret key verifies.
pub fn verify_sth(vk: &[u8; 32], sth: &Sth) -> (r: bool)
    ensures
        r == (sth.sig@.len() == 64 && ed25519_verifies(vk@, sth_bytes(*sth), sth.sig@)),
        forall|k: Seq<u8>|
            k.len() == 32 && sth.sig@.len() == 64 && vk@ == #[trigger] ed25519_public(k) && sth.sig@
                == ed25519_signature(k, sth_bytes(*sth)) ==> r,
{
    if sth.sig.len() != 64 {
        return false;
    }
    let m = sth_to_bytes(sth);
    let mut sig = [0u8; 64];
    let mut i: usize = 0;
    while i < 64
        invariant
            i <= 64,
            sth.sig@.len() == 64,
            forall|j: int| 0 <= j < i ==> sig@[j] == sth.sig@[j],
        decreases 64 - i,
    {
        sig[i] = sth.sig[i];
        i = i + 1;
    }
    assert(sig@ =~= sth.sig@);
    ed25519_verify(vk, m.as_slice(), &sig)
}

} // verus!
