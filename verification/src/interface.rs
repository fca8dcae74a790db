//! Faces: the per-interface counters of the forwarder.

use vstd::prelude::*;

verus! {

/// Network protocol of a face.
#[derive(Debug, Clone, Copy, PartialEq, Eq, Structural)]
pub enum Protocol {
    /// UDP.
    Udp,
    /// Ethernet without IP.
    Ethernet,
}

/// Counters of a face; times are in milliseconds on a monotonic clock.
#[derive(Debug, Clone, Copy, PartialEq, Eq, Structural)]
pub struct Face {
    pub id: u32,
    pub protocol: Protocol,
    pub mtu: u32,
    pub bytes_sent: u64,
    pub bytes_received: u64,
    pub interests_sent: u64,
    pub interests_received: u64,
    pub data_sent: u64,
    pub data_received: u64,
    pub last_activity: u64,
}

/// A sum kept within `u64`.
pub open spec fn saturating_sum(a: u64, b: u64) -> u64 {
    if a + b <= u64::MAX {
        (a + b) as u64
    } else {
        u64::MAX
    }
}

fn add_saturating(a: u64, b: u64) -> (r: u64)
    ensures
        r == saturating_sum(a, b),
{
    if b <= u64::MAX - a {
        a + b
    } else {
        u64::MAX
    }
}

impl Face {
    /// A face with all counters at zero, active at `now`.
    pub fn new(id: u32, protocol: Protocol, mtu: u32, now: u64) -> (r: Self)
        ensures
            r == (Face {
                id,
                protocol,
                mtu,
                bytes_sent: 0,
                bytes_received: 0,
                interests_sent: 0,
                interests_received: 0,
                data_sent: 0,
                data_received: 0,
                last_activity: now,
            }),
    {
        Face {
            id,
            protocol,
            mtu,
            bytes_sent: 0,
            bytes_received: 0,
            interests_sent: 0,
            interests_received: 0,
            data_sent: 0,
            data_received: 0,
            last_activity: now,
        }
    }

    /// Marks the face as active at `now`.
    pub fn update_activity(&mut self, now: u64)
        ensures
            *final(self) == (Face { last_activity: now, ..*old(self) }),
    {
        self.last_activity = now;
    }

    /// Counts octets sent at `now`.
    pub fn record_bytes_sent(&mut self, bytes: u64, now: u64)
        ensures
            *final(self) == (Face {
                bytes_sent: saturating_sum(old(self).bytes_sent, bytes),
                last_activity: now,
                ..*old(self)
            }),
    {
        self.bytes_sent = add_saturating(self.bytes_sent, bytes);
        self.last_activity = now;
    }

    /// Counts octets received at `now`.
    pub fn record_bytes_received(&mut self, bytes: u64, now: u64)
        ensures
            *final(self) == (Face {
                bytes_received: saturating_sum(old(self).bytes_received, bytes),
                last_activity: now,
                ..*old(self)
            }),
    {
        self.bytes_received = add_saturating(self.bytes_received, bytes);
        self.last_activity = now;
    }

    /// Counts an Interest sent at `now`.
    pub fn record_interest_sent(&mut self, now: u64)
        ensures
            *final(self) == (Face {
                interests_sent: saturating_sum(old(self).interests_sent, 1),
                last_activity: now,
                ..*old(self)
            }),
    {
        self.interests_sent = add_saturating(self.interests_sent, 1);
        self.last_activity = now;
    }

    /// Counts an Interest received at `now`.
    pub fn record_interest_received(&mut self, now: u64)
        ensures
            *final(self) == (Face {
                interests_received: saturating_sum(old(self).interests_received, 1),
                last_activity: now,
                ..*old(self)
            }),
    {
        self.interests_received = add_saturating(self.interests_received, 1);
        self.last_activity = now;
    }

    /// Counts a Data packet sent at `now`.
    pub fn record_data_sent(&mut self, now: u64)
        ensures
            *final(self) == (Face {
                data_sent: saturating_sum(old(self).data_sent, 1),
                last_activity: now,
                ..*old(self)
            }),
    {
        self.data_sent = add_saturating(self.data_sent, 1);
        self.last_activity = now;
    }

    /// Counts a Data packet received at `now`.
    pub fn record_data_received(&mut self, now: u64)
        ensures
            *final(self) == (Face {
                data_received: saturating_sum(old(self).data_received, 1),
                last_activity: now,
                ..*old(self)
            }),
    {
        self.data_received = add_saturating(self.data_received, 1);
        self.last_activity = now;
    }

    /// Whether nothing happened on the face for more than `idle_timeout_ms`.
    pub fn is_idle(&self, idle_timeout_ms: u64, now: u64) -> (r: bool)
        ensures
            r == (now >= self.last_activity && now - self.last_activity > idle_timeout_ms),
    {
        now >= self.last_activity && now - self.last_activity > idle_timeout_ms
    }
}

} // verus!
