//! The cryptographic primitives the ratchet is built on: HKDF-SHA256,
//! X25519, XChaCha20-Poly1305 and the operating system's random source.
//! Each is an outside function; its result is named by a spec function.

use vstd::prelude::*;
use aead::{Aead, KeyInit, Payload};
use chacha20poly1305::{Key, XChaCha20Poly1305, XNonce};
use rand::RngCore;

verus! {

/// Length of an XChaCha20-Poly1305 nonce.
pub const XNONCE_LEN: usize = 24;

/// Length of a symmetric key, a chain key and a message key.
pub const KEY_LEN: usize = 32;

/// The X25519 base point, u = 9.
pub const X25519_BASEPOINT: [u8; 32] = [
    9, 0, 0, 0, 0, 0, 0, 0, 0, 0, 0, 0, 0, 0, 0, 0,
    0, 0, 0, 0, 0, 0, 0, 0, 0, 0, 0, 0, 0, 0, 0, 0,
];

/// The longest HKDF-SHA256 output: 255 blocks of 32 bytes.
pub const HKDF_MAX_LEN: usize = 8160;

/// `len` bytes of HKDF-SHA256 output keying material for a salt, an input
/// key and an info string.
pub uninterp spec fn hkdf_sha256_okm(salt: Seq<u8>, ikm: Seq<u8>, info: Seq<u8>, len: nat) -> Seq<u8>;

/// The SHA-256 digest of `data`.
pub uninterp spec fn sha256_of(data: Seq<u8>) -> Seq<u8>;

/// The Ed25519 public key of a 32-byte secret key.
pub uninterp spec fn ed25519_public(sk: Seq<u8>) -> Seq<u8>;

/// The Ed25519 signature of `msg` under secret key `sk` (deterministic).
pub uninterp spec fn ed25519_signature(sk: Seq<u8>, msg: Seq<u8>) -> Seq<u8>;

/// Whether `sig` is a valid Ed25519 signature of `msg` under public key `pk`.
pub uninterp spec fn ed25519_verifies(pk: Seq<u8>, msg: Seq<u8>, sig: Seq<u8>) -> bool;

/// The X25519 function: clamped scalar `k` times the Montgomery point `u`.
pub uninterp spec fn x25519_mult(k: Seq<u8>, u: Seq<u8>) -> Seq<u8>;

/// The XChaCha20-Poly1305 ciphertext (with its tag) of `pt` under `key`,
/// `nonce` and associated data `ad`.
pub uninterp spec fn xchacha_seal(key: Seq<u8>, nonce: Seq<u8>, pt: Seq<u8>, ad: Seq<u8>) -> Seq<u8>;

/// The UTF-8 bytes of a string.
pub open spec fn str_bytes(s: &str) -> Seq<u8> {
    vstd::utf8::encode_utf8(s@)
}

/// The salt HKDF uses when none is given: one hash length of zero bytes.
pub open spec fn zero_salt() -> Seq<u8> {
    Seq::new(32, |i: int| 0u8)
}

/// The salt seen by HKDF for an optional salt.
pub open spec fn salt_of(salt: Option<&[u8]>) -> Seq<u8> {
    match salt {
        Some(s) => s@,
        None => zero_salt(),
    }
}

/// Decryption of `ct`: the plaintext it seals under the key, nonce and
/// data, when it seals one; nothing otherwise.
pub open spec fn aead_open(key: Seq<u8>, nonce: Seq<u8>, ct: Seq<u8>, ad: Seq<u8>) -> Option<Seq<u8>> {
    if exists|p: Seq<u8>| #[trigger] xchacha_seal(key, nonce, p, ad) == ct {
        Some(choose|p: Seq<u8>| #[trigger] xchacha_seal(key, nonce, p, ad) == ct)
    } else {
        None
    }
}

/// The bytes of an optional buffer.
pub open spec fn opened(r: Option<Vec<u8>>) -> Option<Seq<u8>> {
    match r {
        Some(p) => Some(p@),
        None => None,
    }
}

/// Largest plaintext XChaCha20-Poly1305 accepts: fewer than `u32::MAX`
/// blocks of 64 bytes.
pub open spec fn aead_len_ok(len: nat) -> bool {
    len / 64 < 0xffff_ffff
}

/// Relies on hkdf::Hkdf::<Sha256>::new and expand: `len` bytes fixed by salt,
/// input key, info and length; a missing salt is 32 zero bytes; expand
/// accepts any length up to 255 * 32.
#[verifier::external_body]
pub(crate) fn hkdf_sha256(salt: Option<&[u8]>, ikm: &[u8], info: &[u8], len: usize) -> (r: Vec<u8>)
    requires
        len <= HKDF_MAX_LEN,
    ensures
        r@ == hkdf_sha256_okm(salt_of(salt), ikm@, info@, len as nat),
        r@.len() == len,
{
    let hk = hkdf::Hkdf::<sha2::Sha256>::new(salt, ikm);
    let mut okm = vec![0u8; len];
    hk.expand(info, &mut okm).expect("length within 255 * 32");
    okm
}

/// Relies on x25519_dalek::x25519: the result depends on `k` and `u` alone,
/// and two parties agree: `x25519(k, public(b)) == x25519(b, public(k))`, as
/// the function's documentation shows.
pub assume_specification[ x25519_dalek::x25519 ](k: [u8; 32], u: [u8; 32]) -> (r: [u8; 32])
    ensures
        r@ == x25519_mult(k@, u@),
        forall|b: Seq<u8>|
            b.len() == 32 && u@ == #[trigger] x25519_mult(b, X25519_BASEPOINT@) ==> r@ == x25519_mult(
                b,
                x25519_mult(k@, X25519_BASEPOINT@),
            ),
;

/// Byte-wise equality of two 32-byte values.
pub fn bytes32_eq(a: &[u8; 32], b: &[u8; 32]) -> (r: bool)
    ensures
        r == (a@ == b@),
{
    let mut i: usize = 0;
    while i < 32
        invariant
            0 <= i <= 32,
            forall|j: int| 0 <= j < i ==> a@[j] == b@[j],
        decreases 32 - i,
    {
        if a[i] != b[i] {
            return false;
        }
        i = i + 1;
    }
    assert(a@ =~= b@);
    true
}

/// The X25519 public key of a private key.
pub open spec fn public_of(sk: Seq<u8>) -> Seq<u8> {
    x25519_mult(sk, X25519_BASEPOINT@)
}

/// The X25519 public key of a private key.
pub fn x25519_public(sk: &[u8; 32]) -> (r: [u8; 32])
    ensures
        r@ == public_of(sk@),
{
    x25519_dalek::x25519(*sk, X25519_BASEPOINT)
}

/// The X25519 shared secret of a private key and a peer's public key; the
/// peer computes the same from its private key and our public key.
pub fn x25519_shared(sk: &[u8; 32], pk: &[u8; 32]) -> (r: [u8; 32])
    ensures
        r@ == x25519_mult(sk@, pk@),
        forall|b: Seq<u8>| b.len() == 32 && pk@ == #[trigger] public_of(b) ==> r@ == x25519_mult(b, public_of(sk@)),
{
    x25519_dalek::x25519(*sk, *pk)
}

/// Relies on x25519_dalek::StaticSecret::random_from_rng over rand's OsRng:
/// 32 bytes drawn from the operating system; nothing is known of them.
#[verifier::external_body]
pub(crate) fn fresh_secret() -> (r: [u8; 32]) {
    x25519_dalek::StaticSecret::random_from_rng(rand::rngs::OsRng).to_bytes()
}

/// Relies on sha2::Sha256 through digest::Digest::digest: the digest is a
/// function of the bytes alone.
#[verifier::external_body]
pub(crate) fn sha256(data: &[u8]) -> (r: [u8; 32])
    ensures
        r@ == sha256_of(data@),
{
    <sha2::Sha256 as sha2::Digest>::digest(data).into()
}

/// Relies on ed25519_dalek::SigningKey::generate over rand's OsRng: 32
/// bytes from the operating system; nothing is known of them.
#[verifier::external_body]
pub(crate) fn ed25519_fresh_secret() -> (r: [u8; 32]) {
    ed25519_dalek::SigningKey::generate(&mut rand::rngs::OsRng).to_bytes()
}

/// Relies on ed25519_dalek::SigningKey::from_bytes and verifying_key: the
/// public key is a function of the secret key.
#[verifier::external_body]
pub(crate) fn ed25519_public_key(sk: &[u8; 32]) -> (r: [u8; 32])
    ensures
        r@ == ed25519_public(sk@),
{
    ed25519_dalek::SigningKey::from_bytes(sk).verifying_key().to_bytes()
}

/// Relies on ed25519_dalek's `Signer::sign` for SigningKey: Ed25519
/// signatures are deterministic in key and message.
#[verifier::external_body]
pub(crate) fn ed25519_sign(sk: &[u8; 32], msg: &[u8]) -> (r: [u8; 64])
    ensures
        r@ == ed25519_signature(sk@, msg@),
{
    ed25519_dalek::Signer::sign(&ed25519_dalek::SigningKey::from_bytes(sk), msg).to_bytes()
}

/// Relies on ed25519_dalek::VerifyingKey::from_bytes and `Verifier::verify`:
/// a key that does not decode verifies nothing; a signature made with the
/// secret key of `pk` verifies.
#[verifier::external_body]
pub(crate) fn ed25519_verify(pk: &[u8; 32], msg: &[u8], sig: &[u8; 64]) -> (r: bool)
    ensures
        r == ed25519_verifies(pk@, msg@, sig@),
        forall|k: Seq<u8>|
            k.len() == 32 && pk@ == #[trigger] ed25519_public(k) && sig@ == ed25519_signature(k, msg@) ==> r,
{
    match ed25519_dalek::VerifyingKey::from_bytes(pk) {
        Ok(vk) => ed25519_dalek::Verifier::verify(&vk, msg, &ed25519_dalek::Signature::from_bytes(sig)).is_ok(),
        Err(_) => false,
    }
}

/// Relies on zeroize::Zeroize for `[u8; 32]`: every byte is set to zero with
/// volatile writes the compiler does not elide.
#[verifier::external_body]
pub(crate) fn wipe32(b: &mut [u8; 32])
    ensures
        final(b)@ == Seq::new(32, |i: int| 0u8),
    opens_invariants none
    no_unwind
{
    zeroize::Zeroize::zeroize(b)
}

/// Relies on rand's OsRng::fill_bytes: 24 bytes from the operating system.
#[verifier::external_body]
pub(crate) fn rand_nonce() -> (r: [u8; XNONCE_LEN]) {
    let mut n = [0u8; XNONCE_LEN];
    rand::rngs::OsRng.fill_bytes(&mut n);
    n
}

/// Relies on chacha20poly1305's XChaCha20Poly1305 through aead::Aead::encrypt:
/// the ciphertext is a function of its inputs, is the plaintext's length
/// plus the 16-byte tag, and decrypts to `pt` alone; encryption fails only
/// past `u32::MAX` blocks, which `requires` excludes.
#[verifier::external_body]
pub(crate) fn seal_xchacha(key: &[u8; KEY_LEN], nonce: &[u8; XNONCE_LEN], pt: &[u8], ad: &[u8]) -> (r: Vec<u8>)
    requires
        aead_len_ok(pt@.len()),
    ensures
        r@ == xchacha_seal(key@, nonce@, pt@, ad@),
        r@.len() == pt@.len() + 16,
        forall|p: Seq<u8>| #[trigger] xchacha_seal(key@, nonce@, p, ad@) == r@ ==> p == pt@,
{
    let cipher = XChaCha20Poly1305::new(Key::from_slice(key));
    cipher.encrypt(XNonce::from_slice(nonce), Payload { msg: pt, aad: ad }).expect("length checked")
}

/// Relies on chacha20poly1305's XChaCha20Poly1305 through aead::Aead::decrypt:
/// a plaintext comes back only when the tag over data and ciphertext
/// verifies, that is when the ciphertext is the sealing of that plaintext
/// under the same key, nonce and data; any other ciphertext is refused.
#[verifier::external_body]
pub(crate) fn open_xchacha(key: &[u8; KEY_LEN], nonce: &[u8; XNONCE_LEN], ct: &[u8], ad: &[u8]) -> (r: Option<Vec<u8>>)
    ensures
        opened(r) == aead_open(key@, nonce@, ct@, ad@),
{
    let cipher = XChaCha20Poly1305::new(Key::from_slice(key));
    cipher.decrypt(XNonce::from_slice(nonce), Payload { msg: ct, aad: ad }).ok()
}

/// An X25519 key pair as bytes.
#[derive(Clone, Debug)]
pub struct X25519KeyPair {
    pub sk: Vec<u8>,
    pub pk: Vec<u8>,
}

impl X25519KeyPair {
    /// A fresh key pair from the operating system's random source.
    pub fn generate() -> (r: Self)
        ensures
            r.sk@.len() == 32,
            r.pk@ == public_of(r.sk@),
    {
        Self::from_seed(fresh_secret())
    }

    /// The key pair whose private key is `seed32`.
    pub fn from_seed(seed32: [u8; 32]) -> (r: Self)
        ensures
            r.sk@ == seed32@,
            r.pk@ == public_of(seed32@),
    {
        let pk = x25519_public(&seed32);
        let mut skv: Vec<u8> = Vec::new();
        let mut pkv: Vec<u8> = Vec::new();
        crate::wire::append_bytes(&mut skv, seed32.as_slice());
        crate::wire::append_bytes(&mut pkv, pk.as_slice());
        X25519KeyPair { sk: skv, pk: pkv }
    }

    /// The private key as an array.
    pub fn secret(&self) -> (r: [u8; 32])
        requires
            self.sk@.len() == 32,
        ensures
            r@ == self.sk@,
    {
        let r = crate::wire::copy32(self.sk.as_slice(), 0);
        assert(self.sk@.subrange(0, 32) =~= self.sk@);
        r
    }

    /// The public key as an array.
    pub fn public(&self) -> (r: [u8; 32])
        requires
            self.pk@.len() == 32,
        ensures
            r@ == self.pk@,
    {
        let r = crate::wire::copy32(self.pk.as_slice(), 0);
        assert(self.pk@.subrange(0, 32) =~= self.pk@);
        r
    }
}

/// An Ed25519 signing identity as bytes.
#[derive(Clone, Debug)]
pub struct Ed25519Identity {
    pub pk: Vec<u8>,
    pub sk: Vec<u8>,
}

impl Ed25519Identity {
    /// A fresh identity from the operating system's random source.
    pub fn generate() -> (r: Self)
        ensures
            r.sk@.len() == 32,
            r.pk@ == ed25519_public(r.sk@),
    {
        let sk = ed25519_fresh_secret();
        let pk = ed25519_public_key(&sk);
        let mut skv: Vec<u8> = Vec::new();
        let mut pkv: Vec<u8> = Vec::new();
        crate::wire::append_bytes(&mut skv, sk.as_slice());
        crate::wire::append_bytes(&mut pkv, pk.as_slice());
        Ed25519Identity { pk: pkv, sk: skv }
    }

    /// Signs `data` with the identity's secret key.
    pub fn sign(&self, data: &[u8]) -> (r: [u8; 64])
        requires
            self.sk@.len() == 32,
        ensures
            r@ == ed25519_signature(self.sk@, data@),
    {
        let sk = crate::wire::copy32(self.sk.as_slice(), 0);
        assert(self.sk@.subrange(0, 32) =~= self.sk@);
        ed25519_sign(&sk, data)
    }

    /// Whether `sig` is the identity's signature of `data`.
    pub fn verify(&self, data: &[u8], sig: &[u8; 64]) -> (r: bool)
        requires
            self.pk@.len() == 32,
        ensures
            r == ed25519_verifies(self.pk@, data@, sig@),
    {
        let pk = crate::wire::copy32(self.pk.as_slice(), 0);
        assert(self.pk@.subrange(0, 32) =~= self.pk@);
        ed25519_verify(&pk, data, sig)
    }
}

/// A shared secret from a static DH, with the transcript it is bound to.
pub struct HybridSecret {
    pub secret: [u8; 32],
    pub transcript: Vec<u8>,
}

/// The transcript binding an initial secret to the recipient's key.
pub open spec fn hybrid_transcript(pk_recipient: Seq<u8>) -> Seq<u8> {
    str_bytes("HL1:") + pk_recipient
}

/// Thirty-two bytes of unsalted HKDF-SHA256 output.
fn kdf32(ikm: &[u8], info: &[u8]) -> (r: [u8; 32])
    ensures
        r@ == hkdf_sha256_okm(zero_salt(), ikm@, info@, 32),
{
    let k = hkdf_sha256(None, ikm, info, 32);
    let r = crate::wire::copy32(k.as_slice(), 0);
    assert(k@.subrange(0, 32) =~= k@);
    r
}

/// An initial secret from the DH of the sender's private key and the
/// recipient's public key, expanded with the transcript `"HL1:" ‖ pk`.
pub fn derive_initial_secret(sk_sender: &[u8; 32], pk_recipient: &[u8; 32]) -> (r: HybridSecret)
    ensures
        r.transcript@ == hybrid_transcript(pk_recipient@),
        r.secret@ == hkdf_sha256_okm(zero_salt(), x25519_mult(sk_sender@, pk_recipient@), r.transcript@, 32),
{
    let ecdh = x25519_shared(sk_sender, pk_recipient);
    let mut t: Vec<u8> = Vec::new();
    crate::wire::append_bytes(&mut t, "HL1:".as_bytes());
    crate::wire::append_bytes(&mut t, pk_recipient.as_slice());
    let secret = kdf32(ecdh.as_slice(), t.as_slice());
    HybridSecret { secret, transcript: t }
}

} // verus!
