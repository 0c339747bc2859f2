//! Status snapshots reported by agents.
//!
//! A `StatusUpdate` is an immutable snapshot of one backend's slots at one
//! instant, as reported by the agent colocated with that backend.

use vstd::prelude::*;

verus! {

/// One generation slot of a backend, as reported by the backend itself.
pub struct Slot {
    pub is_processing: bool,
}

/// Snapshot of one backend's slots at one instant.
///
/// `error` is set when the agent could not reach its backend; the tri-state
/// `is_authorized` / `is_slots_endpoint_enabled` flags are `None` when the
/// agent does not know.
#[derive(Debug, PartialEq)]
pub struct StatusUpdate {
    pub agent_name: Option<String>,
    pub error: Option<String>,
    pub external_llamacpp_addr: String,
    pub slots_idle: usize,
    pub slots_processing: usize,
    pub is_authorized: Option<bool>,
    pub is_slots_endpoint_enabled: Option<bool>,
}

/// Mathematical model of a `StatusUpdate`: strings become character
/// sequences, counts become unbounded naturals.
pub ghost struct StatusUpdateView {
    pub agent_name: Option<Seq<char>>,
    pub error: Option<Seq<char>>,
    pub external_llamacpp_addr: Seq<char>,
    pub slots_idle: nat,
    pub slots_processing: nat,
    pub is_authorized: Option<bool>,
    pub is_slots_endpoint_enabled: Option<bool>,
}

/// View of an optional string as an optional character sequence.
pub open spec fn opt_string_view(s: Option<String>) -> Option<Seq<char>> {
    match s {
        Some(v) => Some(v@),
        None => None,
    }
}

impl View for StatusUpdate {
    type V = StatusUpdateView;

    open spec fn view(&self) -> StatusUpdateView {
        StatusUpdateView {
            agent_name: opt_string_view(self.agent_name),
            error: opt_string_view(self.error),
            external_llamacpp_addr: self.external_llamacpp_addr@,
            slots_idle: self.slots_idle as nat,
            slots_processing: self.slots_processing as nat,
            is_authorized: self.is_authorized,
            is_slots_endpoint_enabled: self.is_slots_endpoint_enabled,
        }
    }
}

/// Number of idle slots in a reported slot list: those not processing.
pub open spec fn spec_idle_count(slots: Seq<Slot>) -> nat
    decreases slots.len(),
{
    if slots.len() == 0 {
        0
    } else {
        spec_idle_count(slots.drop_last()) + (if slots.last().is_processing {
            0nat
        } else {
            1nat
        })
    }
}

proof fn lemma_idle_count_le_len(slots: Seq<Slot>)
    ensures
        spec_idle_count(slots) <= slots.len(),
    decreases slots.len(),
{
    if slots.len() > 0 {
        lemma_idle_count_le_len(slots.drop_last());
    }
}

impl StatusUpdate {
    /// Builds a snapshot from a reported slot list: the idle count is the
    /// number of slots not processing, and the processing count is the rest.
    /// An absent slot list reports zero slots of either kind.
    pub fn new(
        agent_name: Option<String>,
        error: Option<String>,
        external_llamacpp_addr: String,
        is_authorized: Option<bool>,
        is_slots_endpoint_enabled: Option<bool>,
        slots: Option<Vec<Slot>>,
    ) -> (r: StatusUpdate)
        ensures
            r@.agent_name == opt_string_view(agent_name),
            r@.error == opt_string_view(error),
            r@.external_llamacpp_addr == external_llamacpp_addr@,
            r@.is_authorized == is_authorized,
            r@.is_slots_endpoint_enabled == is_slots_endpoint_enabled,
            match slots {
                Some(v) => r@.slots_idle == spec_idle_count(v@) && r@.slots_processing + r@.slots_idle == v@.len(),
                None => r@.slots_idle == 0 && r@.slots_processing == 0,
            },
    {
        let (slots_idle, slots_processing) = match slots {
            Some(v) => {
                let idle = count_idle(&v);
                proof {
                    lemma_idle_count_le_len(v@);
                }
                (idle, v.len() - idle)
            },
            None => (0usize, 0usize),
        };
        StatusUpdate {
            agent_name,
            error,
            external_llamacpp_addr,
            slots_idle,
            slots_processing,
            is_authorized,
            is_slots_endpoint_enabled,
        }
    }
}

/// Counts the slots of a reported list that are not processing.
fn count_idle(slots: &Vec<Slot>) -> (r: usize)
    ensures
        r == spec_idle_count(slots@),
{
    let mut idle: usize = 0;
    let mut i: usize = 0;
    proof {
        lemma_idle_count_le_len(slots@);
    }
    while i < slots.len()
        invariant
            i <= slots@.len(),
            idle == spec_idle_count(slots@.take(i as int)),
            idle <= i,
        decreases slots@.len() - i,
    {
        if !slots[i].is_processing {
            idle = idle + 1;
        }
        proof {
            assert(slots@.take(i + 1).drop_last() =~= slots@.take(i as int));
            assert(slots@.take(i + 1).last() == slots@[i as int]);
        }
        i = i + 1;
    }
    proof {
        assert(slots@.take(slots@.len() as int) =~= slots@);
    }
    idle
}

} // verus!
