//! The slot router's decisions.
//!
//! The router accepts a client request, obtains a usable peer from the
//! pool, forwards the request, and releases the slot on every exit path.
//! The forwarding itself is I/O and lives outside this crate; what stands
//! here is the decision logic: what to do when no peer is free, how often
//! to retry after an upstream failure, and which paths may be forwarded.

use vstd::prelude::*;

use crate::upstream_peer::str_eq;
use crate::upstream_peer_pool::SlotReservation;

verus! {

/// How often a request may be rerouted to another peer after an upstream
/// failure before the client gets an error.
pub const MAX_REROUTES: u8 = 2;

/// What the router does next with a request.
pub enum RouterStep {
    /// Forward the request to the reserved peer.
    Forward(SlotReservation),
    /// No peer is usable: park on the slot-available condition and try
    /// again on wake.
    Park,
}

/// How an attempt to proxy through a reserved peer ended.
pub enum UpstreamOutcome {
    /// The response streamed through; the request is done.
    Completed,
    /// The upstream failed before any response bytes arrived: a connect
    /// failure or a server error. The peer deserves quarantine.
    FailedEarly,
    /// The client went away mid-stream; the upstream call was aborted.
    ClientGone,
}

/// What to do after an attempt ended. The slot is released first on
/// every path; these name what follows the release.
pub enum AfterRelease {
    /// Nothing: respond as the upstream did, or drop silently when the
    /// client is gone.
    Done,
    /// Quarantine the failed peer and reserve again on another.
    QuarantineAndRetry,
    /// Quarantine the failed peer and answer the client with a gateway
    /// error: the reroute budget is spent.
    QuarantineAndFail,
}

/// One client request moving through the router.
pub struct ProxyTask {
    /// Reroutes used so far, at most `MAX_REROUTES`.
    pub reroutes_used: u8,
}

impl ProxyTask {
    /// A fresh request: no reroutes used.
    pub fn new() -> (r: ProxyTask)
        ensures
            r.reroutes_used == 0,
    {
        ProxyTask { reroutes_used: 0 }
    }

    /// Decides on a reservation attempt's result: forward when a peer was
    /// reserved, park otherwise.
    pub fn on_reserve(&self, reservation: Option<SlotReservation>) -> (r: RouterStep)
        ensures
            match reservation {
                Some(res) => r matches RouterStep::Forward(f) && f == res,
                None => r is Park,
            },
    {
        match reservation {
            Some(res) => RouterStep::Forward(res),
            None => RouterStep::Park,
        }
    }

    /// Decides what follows the release after an attempt ended: a clean
    /// or client-aborted attempt is done; an early upstream failure
    /// quarantines the peer and retries while the reroute budget lasts.
    pub fn on_outcome(&mut self, outcome: UpstreamOutcome) -> (r: AfterRelease)
        ensures
            old(self).reroutes_used <= MAX_REROUTES ==> final(self).reroutes_used <= MAX_REROUTES,
            match outcome {
                UpstreamOutcome::Completed => r is Done && *final(self) == *old(self),
                UpstreamOutcome::ClientGone => r is Done && *final(self) == *old(self),
                UpstreamOutcome::FailedEarly => {
                    if old(self).reroutes_used < MAX_REROUTES {
                        r is QuarantineAndRetry && final(self).reroutes_used == old(
                            self,
                        ).reroutes_used + 1
                    } else {
                        r is QuarantineAndFail && *final(self) == *old(self)
                    }
                },
            },
    {
        match outcome {
            UpstreamOutcome::Completed => AfterRelease::Done,
            UpstreamOutcome::ClientGone => AfterRelease::Done,
            UpstreamOutcome::FailedEarly => {
                if self.reroutes_used < MAX_REROUTES {
                    self.reroutes_used = self.reroutes_used + 1;
                    AfterRelease::QuarantineAndRetry
                } else {
                    AfterRelease::QuarantineAndFail
                }
            },
        }
    }
}

/// Whether the client-facing proxy accepts a request path: the upstream
/// slots endpoint is reachable only when explicitly enabled; every other
/// path is forwarded.
pub fn path_allowed(path: &str, slots_endpoint_enable: bool) -> (r: bool)
    ensures
        r == !(path@ == "/slots"@ && !slots_endpoint_enable),
{
    if str_eq(path, "/slots") {
        slots_endpoint_enable
    } else {
        true
    }
}

} // verus!
