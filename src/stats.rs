//! Broker-wide counters. Each wraps at 64 bits, as an atomic counter does.
use vstd::arithmetic::div_mod::{lemma_add_mod_noop, lemma_mod_sub_multiples_vanish, lemma_small_mod};
use vstd::prelude::*;

verus! {

/// Counts of what the broker has done since it started.
#[derive(Debug, Clone, Copy, PartialEq, Eq, Structural)]
pub struct ServerStats {
    /// Frames decoded from peers.
    pub messages_received: u64,
    /// Frames queued for a peer other than their sender.
    pub messages_queued: u64,
    /// Frames dropped for a peer whose outbound bytes were at the bound.
    pub messages_dropped: u64,
    /// Bytes of the frames decoded from peers.
    pub bytes_received: u64,
    /// Bytes of the frames queued for peers.
    pub bytes_sent: u64,
    /// Connections accepted.
    pub connections_total: u64,
    /// Connections open now.
    pub connections_active: u64,
    /// Socket errors met while sending.
    pub send_errors: u64,
}

/// `x` reduced modulo 2^64.
pub open spec fn wrap64(x: int) -> int {
    x % 0x1_0000_0000_0000_0000
}

/// A counter is its own value modulo 2^64.
pub(crate) proof fn lemma_wrap_self(x: u64)
    ensures
        (x + 0) % 0x1_0000_0000_0000_0000 == x,
{
    lemma_small_mod(x as nat, 0x1_0000_0000_0000_0000);
}

/// Reducing before or after adding `d` gives the same counter.
pub(crate) proof fn lemma_wrap_step(a: int, d: int)
    requires
        a >= 0,
        0 <= d < 0x1_0000_0000_0000_0000,
    ensures
        ((a % 0x1_0000_0000_0000_0000) + d) % 0x1_0000_0000_0000_0000 == (a + d) % 0x1_0000_0000_0000_0000,
{
    lemma_add_mod_noop(a, d, 0x1_0000_0000_0000_0000);
    lemma_small_mod(d as nat, 0x1_0000_0000_0000_0000);
}

/// A wrapping add is the sum modulo 2^64.
pub(crate) proof fn lemma_wrapping_add(x: u64, y: u64)
    ensures
        x.wrapping_add(y) == (x + y) % 0x1_0000_0000_0000_0000,
{
    if x + y < 0x1_0000_0000_0000_0000 {
        lemma_small_mod((x + y) as nat, 0x1_0000_0000_0000_0000);
    } else {
        lemma_mod_sub_multiples_vanish(x + y, 0x1_0000_0000_0000_0000);
        lemma_small_mod((x + y - 0x1_0000_0000_0000_0000) as nat, 0x1_0000_0000_0000_0000);
    }
}

impl ServerStats {
    /// All counters at zero.
    pub open spec fn new_spec() -> Self {
        ServerStats {
            messages_received: 0,
            messages_queued: 0,
            messages_dropped: 0,
            bytes_received: 0,
            bytes_sent: 0,
            connections_total: 0,
            connections_active: 0,
            send_errors: 0,
        }
    }

    /// All counters at zero.
    pub fn new() -> (r: Self)
        ensures
            r == Self::new_spec(),
            r == (ServerStats {
                messages_received: 0,
                messages_queued: 0,
                messages_dropped: 0,
                bytes_received: 0,
                bytes_sent: 0,
                connections_total: 0,
                connections_active: 0,
                send_errors: 0,
            }),
    {
        ServerStats {
            messages_received: 0,
            messages_queued: 0,
            messages_dropped: 0,
            bytes_received: 0,
            bytes_sent: 0,
            connections_total: 0,
            connections_active: 0,
            send_errors: 0,
        }
    }

    /// One frame of `bytes` bytes was decoded.
    pub fn record_received(&mut self, bytes: u64)
        ensures
            *final(self) == (ServerStats {
                messages_received: wrap64(old(self).messages_received + 1) as u64,
                bytes_received: wrap64(old(self).bytes_received + bytes) as u64,
                ..*old(self)
            }),
    {
        proof {
            lemma_wrapping_add(self.messages_received, 1);
            lemma_wrapping_add(self.bytes_received, bytes);
        }
        self.messages_received = self.messages_received.wrapping_add(1);
        self.bytes_received = self.bytes_received.wrapping_add(bytes);
    }

    /// One frame of `bytes` bytes was queued for a peer.
    pub fn record_queued(&mut self, bytes: u64)
        ensures
            *final(self) == (ServerStats {
                messages_queued: wrap64(old(self).messages_queued + 1) as u64,
                bytes_sent: wrap64(old(self).bytes_sent + bytes) as u64,
                ..*old(self)
            }),
    {
        proof {
            lemma_wrapping_add(self.messages_queued, 1);
            lemma_wrapping_add(self.bytes_sent, bytes);
        }
        self.messages_queued = self.messages_queued.wrapping_add(1);
        self.bytes_sent = self.bytes_sent.wrapping_add(bytes);
    }

    /// One frame was dropped for a peer at its bound.
    pub fn record_dropped(&mut self)
        ensures
            *final(self) == (ServerStats {
                messages_dropped: wrap64(old(self).messages_dropped + 1) as u64,
                ..*old(self)
            }),
    {
        proof {
            lemma_wrapping_add(self.messages_dropped, 1);
        }
        self.messages_dropped = self.messages_dropped.wrapping_add(1);
    }

    /// A send to a peer failed.
    pub fn record_error(&mut self)
        ensures
            *final(self) == (ServerStats {
                send_errors: wrap64(old(self).send_errors + 1) as u64,
                ..*old(self)
            }),
    {
        proof {
            lemma_wrapping_add(self.send_errors, 1);
        }
        self.send_errors = self.send_errors.wrapping_add(1);
    }

    /// A connection was accepted.
    pub fn record_accept(&mut self)
        ensures
            *final(self) == (ServerStats {
                connections_total: wrap64(old(self).connections_total + 1) as u64,
                connections_active: wrap64(old(self).connections_active + 1) as u64,
                ..*old(self)
            }),
    {
        proof {
            lemma_wrapping_add(self.connections_total, 1);
            lemma_wrapping_add(self.connections_active, 1);
        }
        self.connections_total = self.connections_total.wrapping_add(1);
        self.connections_active = self.connections_active.wrapping_add(1);
    }

    /// A connection was closed.
    pub fn record_close(&mut self)
        ensures
            *final(self) == (ServerStats {
                connections_active: if old(self).connections_active > 0 {
                    (old(self).connections_active - 1) as u64
                } else {
                    u64::MAX
                },
                ..*old(self)
            }),
    {
        self.connections_active = self.connections_active.wrapping_sub(1);
    }
}

} // verus!
