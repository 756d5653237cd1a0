//! Lease keep-alive: the liveness registration behind locks and sessions must
//! be refreshed before its TTL runs out or be treated as revoked. The refresh
//! loop's decisions form a small state machine over the sleep interval; the
//! network calls and sleeps around it stay outside the library.

use vstd::prelude::*;
use crate::keys::concat2;

verus! {

/// What the refresh loop observed since its last decision.
pub enum KeepAliveEvent {
    /// The stop predicate turned true.
    Stopped,
    /// The keep-alive stream could not be established.
    EstablishFailed,
    /// Sending a refresh failed.
    SendFailed,
    /// The refresh was sent but reading the response failed.
    RecvFailed,
    /// A response arrived, carrying the lease's remaining TTL.
    Renewed { ttl: i64 },
}

/// What the refresh loop must do next.
#[derive(Clone, Copy, PartialEq, Eq, Structural, Debug)]
pub enum KeepAliveAction {
    /// Stop: the caller asked for termination.
    Finish,
    /// Tear the stream down and re-establish it, then continue.
    Reconnect,
    /// The lease is expired or revoked: fatal for this session; the caller
    /// must register a new lease.
    Fatal,
    /// Steady state: sleep the current interval and refresh again.
    Renew,
}

/// The initial refresh interval for a lease TTL: half the TTL, capped at
/// five seconds.
pub open spec fn initial_interval(ttl: int) -> int {
    if ttl / 2 < 5 {
        ttl / 2
    } else {
        5
    }
}

/// The steady-state interval after a successful refresh: half the TTL,
/// capped at ten seconds.
pub open spec fn steady_interval(ttl: int) -> int {
    if ttl / 2 < 10 {
        ttl / 2
    } else {
        10
    }
}

/// The keep-alive loop's state: the lease's TTL and the current sleep
/// interval, in seconds.
pub struct KeepAlive {
    pub ttl: i64,
    pub interval: u64,
}

impl KeepAlive {
    /// Start refreshing a lease of the given TTL.
    pub fn new(ttl: i64) -> (k: KeepAlive)
        requires
            ttl >= 0,
        ensures
            k.ttl == ttl,
            k.interval as int == initial_interval(ttl as int),
    {
        let half = (ttl / 2) as u64;
        let interval = if half < 5 {
            half
        } else {
            5
        };
        KeepAlive { ttl, interval }
    }

    /// Decide what to do after one observation: stop on request; tighten the
    /// interval to one second and reconnect on any stream failure; treat a
    /// zero TTL as revocation, which is fatal; relax to the steady interval
    /// on a live renewal.
    pub fn step(&mut self, event: KeepAliveEvent) -> (a: KeepAliveAction)
        requires
            old(self).ttl >= 0,
        ensures
            final(self).ttl == old(self).ttl,
            match event {
                KeepAliveEvent::Stopped => a == KeepAliveAction::Finish && *final(self)
                    == *old(self),
                KeepAliveEvent::EstablishFailed => a == KeepAliveAction::Reconnect && *final(self)
                    == *old(self),
                KeepAliveEvent::SendFailed => a == KeepAliveAction::Reconnect
                    && final(self).interval == 1,
                KeepAliveEvent::RecvFailed => a == KeepAliveAction::Reconnect
                    && final(self).interval == 1,
                KeepAliveEvent::Renewed { ttl } => {
                    if ttl == 0 {
                        a == KeepAliveAction::Fatal && *final(self) == *old(self)
                    } else {
                        a == KeepAliveAction::Renew && final(self).interval as int
                            == steady_interval(old(self).ttl as int)
                    }
                },
            },
    {
        match event {
            KeepAliveEvent::Stopped => KeepAliveAction::Finish,
            KeepAliveEvent::EstablishFailed => KeepAliveAction::Reconnect,
            KeepAliveEvent::SendFailed => {
                self.interval = 1;
                KeepAliveAction::Reconnect
            },
            KeepAliveEvent::RecvFailed => {
                self.interval = 1;
                KeepAliveAction::Reconnect
            },
            KeepAliveEvent::Renewed { ttl } => {
                if ttl == 0 {
                    KeepAliveAction::Fatal
                } else {
                    let half = (self.ttl / 2) as u64;
                    self.interval = if half < 10 {
                        half
                    } else {
                        10
                    };
                    KeepAliveAction::Renew
                }
            },
        }
    }
}

/// The well-known key the background session task writes to keep the
/// authentication session alive.
pub fn health_key(store_prefix: &str) -> (r: String)
    ensures
        r@ == store_prefix@ + seq!['h', 'e', 'a', 'l', 't', 'h', 'z'],
{
    proof {
        reveal_strlit("healthz");
    }
    let r = concat2(store_prefix, "healthz");
    proof {
        assert(r@ =~= store_prefix@ + seq!['h', 'e', 'a', 'l', 't', 'h', 'z']);
    }
    r
}

} // verus!
