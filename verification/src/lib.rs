//! Slot-aware load balancing core for a fleet of LLM inference backends.
//!
//! Each backend exposes a fixed number of generation slots. An agent colocated
//! with every backend streams status snapshots to the balancer, which keeps an
//! ordered pool of peers, reserves one effective free slot per admitted
//! request, and releases it when the request finishes. The modules here hold
//! that routing engine: the data model, the peer pool with its ordering and
//! reservation/release race rules, the wire codec for status frames, and the
//! decision logic of the ingress and router tasks. All I/O lives outside this
//! crate and talks to it through plain values.

pub mod codec;
pub mod dashboard;
pub mod errors;
pub mod ingress;
pub mod json;
pub mod management;
pub mod router;
pub mod status_update;
pub mod upstream_peer;
pub mod upstream_peer_pool;
