//! Double-ratchet messaging core: key schedule, replay window, skipped-key
//! cache, ratchet state machine and the fixed-width wire codec; beside it,
//! handshake framing, frame padding, sealed-sender tokens and the Merkle
//! tree of the key-transparency log.

pub mod crypto;
pub mod ratchet;
pub mod wire;
pub mod envelope;
pub mod kt;
pub mod identity;
