//! The balancer's authoritative record for one agent and its backend.
//!
//! An `UpstreamPeer` mirrors the last reported status of one backend and adds
//! the balancer's own bookkeeping: the local reservation count `slots_taken`,
//! the monotonic arrival time of the last applied status, and an optional
//! quarantine deadline. The total order `peer_le` defined here is the pool's
//! selection order: usable peers first, then more effective free slots, fewer
//! processing slots, older status, and finally the lexicographic agent id.

use vstd::prelude::*;

use crate::errors::PoolError;
use crate::status_update::StatusUpdate;
use crate::status_update::StatusUpdateView;
use crate::status_update::opt_string_view;

verus! {

/// The balancer's record for one agent and its backend.
#[derive(Debug)]
pub struct UpstreamPeer {
    /// Stable identifier supplied by the agent; the pool key.
    pub agent_id: String,
    pub agent_name: Option<String>,
    pub error: Option<String>,
    pub external_llamacpp_addr: String,
    pub is_authorized: Option<bool>,
    pub is_slots_endpoint_enabled: Option<bool>,
    /// Idle and processing counts as last reported by the agent.
    pub slots_idle: usize,
    pub slots_processing: usize,
    /// Reservations made locally since the last status was received.
    pub slots_taken: usize,
    /// Monotonic arrival time (milliseconds) of the last applied status.
    pub last_update: u64,
    /// While set and in the future, the peer is skipped during selection.
    pub quarantined_until: Option<u64>,
}

/// Mathematical model of an `UpstreamPeer`.
pub ghost struct PeerView {
    pub agent_id: Seq<char>,
    pub agent_name: Option<Seq<char>>,
    pub error: Option<Seq<char>>,
    pub external_llamacpp_addr: Seq<char>,
    pub is_authorized: Option<bool>,
    pub is_slots_endpoint_enabled: Option<bool>,
    pub slots_idle: nat,
    pub slots_processing: nat,
    pub slots_taken: nat,
    pub last_update: nat,
    pub quarantined_until: Option<nat>,
}

/// View of an optional timestamp.
pub open spec fn opt_u64_view(v: Option<u64>) -> Option<nat> {
    match v {
        Some(t) => Some(t as nat),
        None => None,
    }
}

impl View for UpstreamPeer {
    type V = PeerView;

    open spec fn view(&self) -> PeerView {
        PeerView {
            agent_id: self.agent_id@,
            agent_name: opt_string_view(self.agent_name),
            error: opt_string_view(self.error),
            external_llamacpp_addr: self.external_llamacpp_addr@,
            is_authorized: self.is_authorized,
            is_slots_endpoint_enabled: self.is_slots_endpoint_enabled,
            slots_idle: self.slots_idle as nat,
            slots_processing: self.slots_processing as nat,
            slots_taken: self.slots_taken as nat,
            last_update: self.last_update as nat,
            quarantined_until: opt_u64_view(self.quarantined_until),
        }
    }
}

impl DeepView for UpstreamPeer {
    type V = PeerView;

    open spec fn deep_view(&self) -> PeerView {
        self.view()
    }
}

/// A peer's effective free slots: reported idle slots minus local
/// reservations, clamped at zero.
pub open spec fn eff_free(p: PeerView) -> nat {
    if p.slots_taken >= p.slots_idle {
        0
    } else {
        (p.slots_idle - p.slots_taken) as nat
    }
}

/// A peer is usable at `now` when its agent reported no error, it is not
/// known to be unauthorized or to have its slots endpoint disabled, any
/// quarantine deadline has passed, and it has at least one effective free
/// slot.
pub open spec fn usable(p: PeerView, now: nat) -> bool {
    &&& p.error is None
    &&& p.is_authorized != Some(false)
    &&& p.is_slots_endpoint_enabled != Some(false)
    &&& match p.quarantined_until {
        Some(deadline) => deadline <= now,
        None => true,
    }
    &&& eff_free(p) > 0
}

/// Lexicographic order on character sequences, by code point; a prefix sorts
/// before its extensions.
pub open spec fn lex_le(x: Seq<char>, y: Seq<char>) -> bool
    decreases x.len(),
{
    if x.len() == 0 {
        true
    } else if y.len() == 0 {
        false
    } else if (x[0] as u32) < (y[0] as u32) {
        true
    } else if (x[0] as u32) > (y[0] as u32) {
        false
    } else {
        lex_le(x.drop_first(), y.drop_first())
    }
}

/// `lex_le` is total.
pub proof fn lemma_lex_le_total(x: Seq<char>, y: Seq<char>)
    ensures
        lex_le(x, y) || lex_le(y, x),
    decreases x.len(),
{
    if x.len() > 0 && y.len() > 0 && (x[0] as u32) == (y[0] as u32) {
        lemma_lex_le_total(x.drop_first(), y.drop_first());
    }
}

/// `lex_le` is transitive.
pub proof fn lemma_lex_le_trans(x: Seq<char>, y: Seq<char>, z: Seq<char>)
    requires
        lex_le(x, y),
        lex_le(y, z),
    ensures
        lex_le(x, z),
    decreases x.len(),
{
    if x.len() > 0 && y.len() > 0 && z.len() > 0 && (x[0] as u32) == (y[0] as u32) && (y[0]
        as u32) == (z[0] as u32) {
        lemma_lex_le_trans(x.drop_first(), y.drop_first(), z.drop_first());
    }
}

/// The pool's selection order at time `now`: usable peers sort before not
/// usable ones; among those, more effective free slots first, then fewer
/// processing slots, then the earlier last update, and finally the
/// lexicographically smaller agent id.
pub open spec fn peer_le(a: PeerView, b: PeerView, now: nat) -> bool {
    if usable(a, now) != usable(b, now) {
        usable(a, now)
    } else if eff_free(a) != eff_free(b) {
        eff_free(a) > eff_free(b)
    } else if a.slots_processing != b.slots_processing {
        a.slots_processing < b.slots_processing
    } else if a.last_update != b.last_update {
        a.last_update < b.last_update
    } else {
        lex_le(a.agent_id, b.agent_id)
    }
}

/// `peer_le` is total.
pub proof fn lemma_peer_le_total(a: PeerView, b: PeerView, now: nat)
    ensures
        peer_le(a, b, now) || peer_le(b, a, now),
{
    lemma_lex_le_total(a.agent_id, b.agent_id);
}

/// `peer_le` is transitive.
pub proof fn lemma_peer_le_trans(a: PeerView, b: PeerView, c: PeerView, now: nat)
    requires
        peer_le(a, b, now),
        peer_le(b, c, now),
    ensures
        peer_le(a, c, now),
{
    if usable(a, now) == usable(b, now) && usable(b, now) == usable(c, now) && eff_free(a)
        == eff_free(b) && eff_free(b) == eff_free(c) && a.slots_processing == b.slots_processing
        && b.slots_processing == c.slots_processing && a.last_update == b.last_update
        && b.last_update == c.last_update {
        lemma_lex_le_trans(a.agent_id, b.agent_id, c.agent_id);
    }
}

/// The new reservation count after a status update: reservations that the
/// snapshot's higher processing count shows the backend has picked up are
/// consumed, so `slots_taken` is clamped down by that growth.
pub open spec fn clamped_taken(taken: nat, old_processing: nat, new_processing: nat) -> nat {
    if new_processing > old_processing {
        let consumed = (new_processing - old_processing) as nat;
        if consumed >= taken {
            0
        } else {
            (taken - consumed) as nat
        }
    } else {
        taken
    }
}

/// Model of a peer created from the first status update bearing its id.
pub open spec fn spec_new_peer(agent_id: Seq<char>, s: StatusUpdateView, now: nat) -> PeerView {
    PeerView {
        agent_id: agent_id,
        agent_name: s.agent_name,
        error: s.error,
        external_llamacpp_addr: s.external_llamacpp_addr,
        is_authorized: s.is_authorized,
        is_slots_endpoint_enabled: s.is_slots_endpoint_enabled,
        slots_idle: s.slots_idle,
        slots_processing: s.slots_processing,
        slots_taken: 0,
        last_update: now,
        quarantined_until: None,
    }
}

/// Model of applying a fresh status snapshot to an existing peer: the
/// mirrored fields are overwritten, `slots_taken` is clamped by the growth
/// of the reported processing count, the arrival time is recorded, and any
/// quarantine is lifted, since a fresh report shows the agent is back.
pub open spec fn spec_apply_status(p: PeerView, s: StatusUpdateView, now: nat) -> PeerView {
    PeerView {
        agent_id: p.agent_id,
        agent_name: s.agent_name,
        error: s.error,
        external_llamacpp_addr: s.external_llamacpp_addr,
        is_authorized: s.is_authorized,
        is_slots_endpoint_enabled: s.is_slots_endpoint_enabled,
        slots_idle: s.slots_idle,
        slots_processing: s.slots_processing,
        slots_taken: clamped_taken(p.slots_taken, p.slots_processing, s.slots_processing),
        last_update: now,
        quarantined_until: None,
    }
}

/// Model of reserving one slot on a peer.
pub open spec fn spec_take(p: PeerView) -> PeerView {
    PeerView { slots_taken: p.slots_taken + 1, ..p }
}

/// Model of releasing one slot on a peer.
pub open spec fn spec_release(p: PeerView) -> PeerView {
    PeerView { slots_taken: (p.slots_taken - 1) as nat, ..p }
}

/// Model of quarantining a peer until `deadline`.
pub open spec fn spec_quarantine(p: PeerView, deadline: nat) -> PeerView {
    PeerView { quarantined_until: Some(deadline), ..p }
}

impl UpstreamPeer {
    /// Creates the peer for an agent id seen for the first time, at arrival
    /// time `now`: no local reservations, no quarantine.
    pub fn new_from_status_update(agent_id: String, status_update: StatusUpdate, now: u64) -> (r:
        UpstreamPeer)
        ensures
            r@ == spec_new_peer(agent_id@, status_update@, now as nat),
    {
        UpstreamPeer {
            agent_id,
            agent_name: status_update.agent_name,
            error: status_update.error,
            external_llamacpp_addr: status_update.external_llamacpp_addr,
            is_authorized: status_update.is_authorized,
            is_slots_endpoint_enabled: status_update.is_slots_endpoint_enabled,
            slots_idle: status_update.slots_idle,
            slots_processing: status_update.slots_processing,
            slots_taken: 0,
            last_update: now,
            quarantined_until: None,
        }
    }

    /// Applies a fresh status snapshot that arrived at `now`.
    pub fn update_status(&mut self, status_update: StatusUpdate, now: u64)
        ensures
            final(self)@ == spec_apply_status(old(self)@, status_update@, now as nat),
    {
        let consumed: usize = if status_update.slots_processing > self.slots_processing {
            let growth = status_update.slots_processing - self.slots_processing;
            if growth >= self.slots_taken {
                self.slots_taken
            } else {
                growth
            }
        } else {
            0
        };
        self.slots_taken = self.slots_taken - consumed;
        self.agent_name = status_update.agent_name;
        self.error = status_update.error;
        self.external_llamacpp_addr = status_update.external_llamacpp_addr;
        self.is_authorized = status_update.is_authorized;
        self.is_slots_endpoint_enabled = status_update.is_slots_endpoint_enabled;
        self.slots_idle = status_update.slots_idle;
        self.slots_processing = status_update.slots_processing;
        self.last_update = now;
        self.quarantined_until = None;
    }

    /// Records one local reservation.
    pub fn take_slot(&mut self)
        requires
            old(self).slots_taken < usize::MAX,
        ensures
            final(self)@ == spec_take(old(self)@),
    {
        self.slots_taken = self.slots_taken + 1;
    }

    /// Gives back one local reservation; releasing with none outstanding is
    /// a `ReleaseUnderflow` error and changes nothing.
    pub fn release_slot(&mut self) -> (r: Result<(), PoolError>)
        ensures
            old(self).slots_taken > 0 ==> r == Ok::<(), PoolError>(()) && final(self)@
                == spec_release(old(self)@),
            old(self).slots_taken == 0 ==> r == Err::<(), PoolError>(PoolError::ReleaseUnderflow)
                && final(self)@ == old(self)@,
    {
        if self.slots_taken == 0 {
            Err(PoolError::ReleaseUnderflow)
        } else {
            self.slots_taken = self.slots_taken - 1;
            Ok(())
        }
    }

    /// Effective free slots: reported idle slots minus local reservations,
    /// clamped at zero.
    pub fn effective_free_slots(&self) -> (r: usize)
        ensures
            r == eff_free(self@),
    {
        if self.slots_taken >= self.slots_idle {
            0
        } else {
            self.slots_idle - self.slots_taken
        }
    }

    /// Whether this peer can accept a request at time `now`.
    pub fn is_usable(&self, now: u64) -> (r: bool)
        ensures
            r == usable(self@, now as nat),
    {
        let no_error = match &self.error {
            Some(_) => false,
            None => true,
        };
        let authorized = match self.is_authorized {
            Some(false) => false,
            _ => true,
        };
        let endpoint_enabled = match self.is_slots_endpoint_enabled {
            Some(false) => false,
            _ => true,
        };
        let out_of_quarantine = match self.quarantined_until {
            Some(deadline) => deadline <= now,
            None => true,
        };
        no_error && authorized && endpoint_enabled && out_of_quarantine
            && self.effective_free_slots() > 0
    }

    /// Whether this peer sorts at or before `other` in the selection order
    /// at time `now`.
    pub fn le_at(&self, other: &UpstreamPeer, now: u64) -> (r: bool)
        ensures
            r == peer_le(self@, other@, now as nat),
    {
        let ua = self.is_usable(now);
        let ub = other.is_usable(now);
        if ua != ub {
            ua
        } else {
            let fa = self.effective_free_slots();
            let fb = other.effective_free_slots();
            if fa != fb {
                fa > fb
            } else if self.slots_processing != other.slots_processing {
                self.slots_processing < other.slots_processing
            } else if self.last_update != other.last_update {
                self.last_update < other.last_update
            } else {
                str_lex_le(self.agent_id.as_str(), other.agent_id.as_str())
            }
        }
    }
}

impl Clone for UpstreamPeer {
    /// A clone carries exactly the same record.
    fn clone(&self) -> (r: UpstreamPeer)
        ensures
            r == *self,
    {
        UpstreamPeer {
            agent_id: self.agent_id.clone(),
            agent_name: clone_opt_string(&self.agent_name),
            error: clone_opt_string(&self.error),
            external_llamacpp_addr: self.external_llamacpp_addr.clone(),
            is_authorized: self.is_authorized,
            is_slots_endpoint_enabled: self.is_slots_endpoint_enabled,
            slots_idle: self.slots_idle,
            slots_processing: self.slots_processing,
            slots_taken: self.slots_taken,
            last_update: self.last_update,
            quarantined_until: self.quarantined_until,
        }
    }
}

/// Clones an optional string, keeping the exact value.
pub fn clone_opt_string(s: &Option<String>) -> (r: Option<String>)
    ensures
        r == *s,
{
    match s {
        Some(v) => Some(v.clone()),
        None => None,
    }
}

/// Whether two strings hold the same characters.
pub(crate) fn str_eq(a: &str, b: &str) -> (r: bool)
    ensures
        r == (a@ == b@),
{
    let la = a.unicode_len();
    let lb = b.unicode_len();
    if la != lb {
        return false;
    }
    let mut i: usize = 0;
    while i < la
        invariant
            i <= la,
            la == a@.len(),
            la == b@.len(),
            forall|k: int| 0 <= k < i ==> a@[k] == b@[k],
        decreases la - i,
    {
        if a.get_char(i) != b.get_char(i) {
            return false;
        }
        i = i + 1;
    }
    proof {
        assert(a@ =~= b@);
    }
    true
}

/// Compares two strings in the lexicographic code point order.
fn str_lex_le(a: &str, b: &str) -> (r: bool)
    ensures
        r == lex_le(a@, b@),
{
    let la = a.unicode_len();
    let lb = b.unicode_len();
    let mut i: usize = 0;
    proof {
        assert(a@.skip(0) =~= a@);
        assert(b@.skip(0) =~= b@);
    }
    loop
        invariant
            i <= la,
            i <= lb,
            la == a@.len(),
            lb == b@.len(),
            lex_le(a@, b@) == lex_le(a@.skip(i as int), b@.skip(i as int)),
        decreases la - i,
    {
        if i >= la {
            proof {
                assert(a@.skip(i as int).len() == 0);
            }
            return true;
        }
        if i >= lb {
            proof {
                assert(b@.skip(i as int).len() == 0);
                assert(a@.skip(i as int).len() > 0);
            }
            return false;
        }
        let ca = a.get_char(i);
        let cb = b.get_char(i);
        proof {
            assert(a@.skip(i as int)[0] == a@[i as int]);
            assert(b@.skip(i as int)[0] == b@[i as int]);
        }
        if (ca as u32) < (cb as u32) {
            return true;
        }
        if (ca as u32) > (cb as u32) {
            return false;
        }
        proof {
            assert(a@.skip(i as int).drop_first() =~= a@.skip(i + 1));
            assert(b@.skip(i as int).drop_first() =~= b@.skip(i + 1));
        }
        i = i + 1;
    }
}

} // verus!
