//! Core library for a link-bonding VPN tunnel: the encrypted datagram
//! protocol (fixed header + AEAD-sealed payload), link-health tracking,
//! the active-link set, the client dispatch and demultiplex decisions,
//! the server session table, and the per-client reordering engine.

use vstd::prelude::*;

pub mod active;
pub mod client;
pub mod config;
pub mod crypto;
pub mod error;
pub mod health;
pub mod packet;
pub mod reorder;
pub mod server;
pub mod session;
pub mod types;
pub mod wire;

verus! {

/// Smallest well-formed datagram: a header followed by a sealed empty payload.
pub fn min_datagram_size() -> (r: usize)
    ensures
        r == crate::packet::HEADER_SIZE + crate::crypto::TAG_SIZE,
{
    crate::packet::HEADER_SIZE + crate::crypto::TAG_SIZE
}

} // verus!
