//! The worker pool's admission accounting: at most a fixed number of
//! outbound conversations hold a permit at any instant.
use vstd::prelude::*;

verus! {

/// How many outbound conversations may run at once.
pub const MAX_CONCURRENT_CONVERSATIONS: u32 = 100;

/// How many jobs one scheduler tick pulls.
pub const SCAN_BATCH_LIMIT: usize = 100;

/// Seconds between scheduler ticks.
pub const SCHEDULER_INTERVAL_SECS: u64 = 10;

/// Seconds allowed for a direct TCP dial.
pub const DIAL_TIMEOUT_SECS: u64 = 5;

/// Seconds allowed for a SOCKS5 dial.
pub const PROXY_DIAL_TIMEOUT_SECS: u64 = 30;

/// Counts the conversations in flight; a worker runs only while it holds
/// one of the permits, so the pool never exceeds the bound.
pub struct ConversationBudget {
    in_flight: u32,
}

impl ConversationBudget {
    /// How many permits are out.
    pub closed spec fn in_flight(&self) -> u32 {
        self.in_flight
    }

    /// The budget never hands out more than the bound.
    pub open spec fn wf(&self) -> bool {
        self.in_flight() <= MAX_CONCURRENT_CONVERSATIONS
    }

    /// A fresh budget with no conversation in flight.
    pub fn new() -> (r: Self)
        ensures
            r.wf(),
            r.in_flight() == 0,
    {
        ConversationBudget { in_flight: 0 }
    }

    /// Takes one permit, or refuses when all are out.
    pub fn try_acquire(&mut self) -> (r: bool)
        requires
            old(self).wf(),
        ensures
            final(self).wf(),
            r ==> old(self).in_flight() < MAX_CONCURRENT_CONVERSATIONS && final(self).in_flight()
                == old(self).in_flight() + 1,
            !r ==> old(self).in_flight() == MAX_CONCURRENT_CONVERSATIONS && final(self).in_flight()
                == old(self).in_flight(),
    {
        if self.in_flight < MAX_CONCURRENT_CONVERSATIONS {
            self.in_flight = self.in_flight + 1;
            true
        } else {
            false
        }
    }

    /// Returns one permit.
    pub fn release(&mut self)
        requires
            old(self).wf(),
            old(self).in_flight() > 0,
        ensures
            final(self).wf(),
            final(self).in_flight() == old(self).in_flight() - 1,
    {
        self.in_flight = self.in_flight - 1;
    }
}

/// Law: whatever a well-formed budget went through, no more than the
/// bound of conversations hold a permit.
pub proof fn lemma_inflight_bounded(b: &ConversationBudget)
    requires
        b.wf(),
    ensures
        b.in_flight() <= MAX_CONCURRENT_CONVERSATIONS,
{
}

} // verus!
