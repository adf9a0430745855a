//! A device's identity: who it belongs to, its signing key and its DH key.

use vstd::prelude::*;
use crate::crypto::{ed25519_public, ed25519_signature, public_of, Ed25519Identity, X25519KeyPair};

verus! {

/// One device of one user, with its long-term keys.
#[derive(Clone, Debug)]
pub struct DeviceIdentity {
    pub user_id: String,
    pub device_id: String,
    pub ed25519: Ed25519Identity,
    pub x25519: X25519KeyPair,
}

impl DeviceIdentity {
    /// A device with fresh signing and DH keys.
    pub fn generate(user_id: String, device_id: String) -> (r: Self)
        ensures
            r.user_id@ == user_id@,
            r.device_id@ == device_id@,
            r.ed25519.sk@.len() == 32,
            r.ed25519.pk@ == ed25519_public(r.ed25519.sk@),
            r.x25519.sk@.len() == 32,
            r.x25519.pk@ == public_of(r.x25519.sk@),
    {
        DeviceIdentity { user_id, device_id, ed25519: Ed25519Identity::generate(), x25519: X25519KeyPair::generate() }
    }

    /// Signs `msg` with the device's signing key.
    pub fn sign(&self, msg: &[u8]) -> (r: [u8; 64])
        requires
            self.ed25519.sk@.len() == 32,
        ensures
            r@ == ed25519_signature(self.ed25519.sk@, msg@),
    {
        self.ed25519.sign(msg)
    }

    /// The device's public signing key.
    pub fn verifying_key(&self) -> (r: [u8; 32])
        requires
            self.ed25519.pk@.len() == 32,
        ensures
            r@ == self.ed25519.pk@,
    {
        let r = crate::wire::copy32(self.ed25519.pk.as_slice(), 0);
        assert(self.ed25519.pk@.subrange(0, 32) =~= self.ed25519.pk@);
        r
    }
}

} // verus!
