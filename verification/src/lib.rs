//! Client side of the VMess wire protocol: session key derivation, the
//! handshake header codec and the authenticated chunk stream, with the
//! behaviour of each stated as a contract and checked by Verus.

pub mod aead;
pub mod aead_helper;
pub mod buffer;
pub mod checksum;
pub mod protocol;
pub mod round_trip;
