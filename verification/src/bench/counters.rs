//! What a node sent and received.

use vstd::prelude::*;

verus! {

/// Packets and bytes counted.
#[derive(Clone, Copy, Debug, PartialEq, Eq, Structural)]
pub struct CountingHandle {
    bytes_sent: u64,
    packets_sent: u64,
    packets_received: u64,
}

/// A sum that stops at the largest number.
pub open spec fn capped(sum: int) -> u64 {
    if sum <= u64::MAX {
        sum as u64
    } else {
        u64::MAX
    }
}

impl CountingHandle {
    pub closed spec fn spec_bytes_sent(&self) -> u64 {
        self.bytes_sent
    }

    pub closed spec fn spec_packets_sent(&self) -> u64 {
        self.packets_sent
    }

    pub closed spec fn spec_packets_received(&self) -> u64 {
        self.packets_received
    }

    pub fn new() -> (handle: CountingHandle)
        ensures
            handle.spec_bytes_sent() == 0,
            handle.spec_packets_sent() == 0,
            handle.spec_packets_received() == 0,
    {
        CountingHandle { bytes_sent: 0, packets_sent: 0, packets_received: 0 }
    }

    pub fn bytes_sent(&self) -> (bytes: u64)
        ensures
            bytes == self.spec_bytes_sent(),
    {
        self.bytes_sent
    }

    pub fn packets_sent(&self) -> (packets: u64)
        ensures
            packets == self.spec_packets_sent(),
    {
        self.packets_sent
    }

    pub fn packets_received(&self) -> (packets: u64)
        ensures
            packets == self.spec_packets_received(),
    {
        self.packets_received
    }

    /// Counts a packet that was sent.
    pub fn record_send(&mut self, bytes: usize)
        ensures
            final(self).spec_bytes_sent() == capped(old(self).spec_bytes_sent() + bytes),
            final(self).spec_packets_sent() == capped(old(self).spec_packets_sent() + 1),
            final(self).spec_packets_received() == old(self).spec_packets_received(),
    {
        self.bytes_sent = self.bytes_sent.saturating_add(bytes as u64);
        self.packets_sent = self.packets_sent.saturating_add(1);
    }

    /// Counts a packet that was received.
    pub fn record_recv(&mut self)
        ensures
            final(self).spec_bytes_sent() == old(self).spec_bytes_sent(),
            final(self).spec_packets_sent() == old(self).spec_packets_sent(),
            final(self).spec_packets_received() == capped(old(self).spec_packets_received() + 1),
    {
        self.packets_received = self.packets_received.saturating_add(1);
    }
}

impl Default for CountingHandle {
    fn default() -> (handle: CountingHandle)
        ensures
            handle.spec_bytes_sent() == 0,
            handle.spec_packets_sent() == 0,
            handle.spec_packets_received() == 0,
    {
        Self::new()
    }
}

} // verus!
