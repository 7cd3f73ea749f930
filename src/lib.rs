//! A registry of the interfaces that a contract supports, each known by a
//! four-byte identifier taken from the Keccak-256 digest of its signature.

pub mod interface_id;
pub mod registry;
