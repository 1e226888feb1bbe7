//! Common plain type definitions.

use vstd::prelude::*;

verus! {

/// Kinds of physical network interfaces a WAN link may ride on.
#[derive(Debug, Clone, Copy, PartialEq, Eq, Structural)]
pub enum InterfaceType {
    /// Wired Ethernet.
    Ethernet,
    /// Wireless LAN.
    WiFi,
    /// Cellular modem.
    Cellular,
    /// A virtual device (bridge, container veth, the tunnel itself).
    Virtual,
    /// Anything that could not be classified.
    Unknown,
}

/// A monotonic sequence counter with unsigned wrap-around, one per
/// sending direction, so that nonce uniqueness follows from sequence
/// uniqueness.
#[derive(Debug, Clone, Copy, PartialEq, Eq, Structural)]
pub struct SeqCounter {
    /// The next value the counter hands out.
    pub next: u64,
}

impl SeqCounter {
    /// A counter starting at zero.
    pub fn new() -> (r: Self)
        ensures
            r.next == 0,
    {
        SeqCounter { next: 0 }
    }

    /// Hand out the next value and advance, wrapping at the top.
    pub fn fetch_add(&mut self) -> (r: u64)
        ensures
            r == old(self).next,
            final(self).next == old(self).next.wrapping_add(1),
    {
        let r = self.next;
        self.next = self.next.wrapping_add(1);
        r
    }
}

/// Coarse link condition as reported to operators.
#[derive(Debug, Clone, Copy, PartialEq, Eq, Structural)]
pub enum LinkStatus {
    /// The link is healthy and operational.
    Up,
    /// The link is down or unreachable.
    Down,
    /// The link is being tested or probed.
    Testing,
}

} // verus!
