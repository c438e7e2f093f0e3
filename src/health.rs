//! The health sub-protocol: periodic pings, and a deadline for the pong.

use vstd::prelude::*;

verus! {

/// The reason code of sessions that die because the peer stopped answering.
pub const REASON_HEALTH_TIMEOUT: u64 = 7;

/// The default deadline for a pong, in milliseconds.
pub const DEFAULT_HEALTH_DEADLINE_MS: u64 = 30_000;

/// What the health monitor asks the link to do at a tick.
#[derive(Clone, Copy, Debug, PartialEq, Eq, Structural)]
pub enum HealthAction {
    /// Nothing to do.
    Idle,
    /// Send a ping now.
    SendPing,
    /// The pong is overdue: the link is to be treated as disconnected.
    Timeout,
}

/// Tracks the ping in flight and its deadline. Times are milliseconds from
/// any fixed origin; they never go backwards.
pub struct HealthMonitor {
    deadline_ms: u64,
    sent_at: Option<u64>,
    timed_out: bool,
}

impl HealthMonitor {
    pub closed spec fn deadline(&self) -> nat {
        self.deadline_ms as nat
    }

    /// When the ping in flight was sent.
    pub closed spec fn ping_sent_at(&self) -> Option<u64> {
        self.sent_at
    }

    pub closed spec fn timed_out(&self) -> bool {
        self.timed_out
    }

    pub fn new(deadline_ms: u64) -> (r: HealthMonitor)
        ensures
            r.deadline() == deadline_ms,
            r.ping_sent_at() is None,
            !r.timed_out(),
    {
        HealthMonitor { deadline_ms, sent_at: None, timed_out: false }
    }

    /// At time `now`: a ping goes out when none is in flight; a timeout is
    /// raised, once, when the ping in flight has waited the whole deadline.
    pub fn on_tick(&mut self, now: u64) -> (r: HealthAction)
        requires
            old(self).ping_sent_at() is Some ==> old(self).ping_sent_at().unwrap() <= now,
        ensures
            final(self).deadline() == old(self).deadline(),
            old(self).timed_out() ==> r == HealthAction::Idle && *final(self) == *old(self),
            !old(self).timed_out() ==> match old(self).ping_sent_at() {
                None => r == HealthAction::SendPing && final(self).ping_sent_at() == Some(now)
                    && !final(self).timed_out(),
                Some(t) => if now - t >= old(self).deadline() {
                    r == HealthAction::Timeout && final(self).timed_out()
                } else {
                    r == HealthAction::Idle && *final(self) == *old(self)
                },
            },
    {
        if self.timed_out {
            return HealthAction::Idle;
        }
        match self.sent_at {
            None => {
                self.sent_at = Some(now);
                HealthAction::SendPing
            },
            Some(t) => {
                if now - t >= self.deadline_ms {
                    self.timed_out = true;
                    HealthAction::Timeout
                } else {
                    HealthAction::Idle
                }
            },
        }
    }

    /// The peer answered: no ping is in flight any more.
    pub fn on_pong(&mut self)
        ensures
            final(self).deadline() == old(self).deadline(),
            final(self).ping_sent_at() is None,
            final(self).timed_out() == old(self).timed_out(),
    {
        self.sent_at = None;
    }
}

} // verus!
