//! The management API's read-only view of the pool.
//!
//! `GET /api/v1/agents` answers with one JSON object holding the pool
//! snapshot: every peer with its mirrored fields, the balancer's own
//! `slots_taken`, and the derived `is_usable` flag for the given time.
//! The rendering is specified byte for byte by `ser_pool_json`.

use vstd::prelude::*;
use vstd::string::StringSliceAdditionalSpecFns;

use crate::codec::lit_false;
use crate::codec::lit_null;
use crate::codec::lit_true;
use crate::codec::ser_opt_str;
use crate::codec::ser_str_val;
use crate::codec::ser_tri;
use crate::json::QUOTE;
use crate::json::RBRACE;
use crate::json::dec_digits;
use crate::json::emit_escaped;
use crate::json::emit_lit;
use crate::json::emit_u64;
use crate::status_update::opt_string_view;
use crate::upstream_peer::PeerView;
use crate::upstream_peer::UpstreamPeer;
use crate::upstream_peer_pool::UpstreamPeerPoolInfo;
use crate::upstream_peer::usable;

verus! {

/// A JSON boolean.
pub open spec fn ser_bool(b: bool) -> Seq<u8> {
    if b {
        lit_true()
    } else {
        lit_false()
    }
}

/// An optional timestamp: `null` or a number.
pub open spec fn ser_opt_u64(v: Option<nat>) -> Seq<u8> {
    match v {
        Some(t) => dec_digits(t),
        None => lit_null(),
    }
}

/// The identifying fields of one rendered peer.
pub open spec fn ser_peer_ident(p: PeerView) -> Seq<u8> {
    "{\"agent_id\":".spec_bytes() + ser_str_val(p.agent_id) + ",\"agent_name\":".spec_bytes()
        + ser_opt_str(p.agent_name) + ",\"error\":".spec_bytes() + ser_opt_str(p.error)
        + ",\"external_llamacpp_addr\":".spec_bytes() + ser_str_val(p.external_llamacpp_addr)
}

/// The tri-state flags of one rendered peer.
pub open spec fn ser_peer_flags(p: PeerView) -> Seq<u8> {
    ",\"is_authorized\":".spec_bytes() + ser_tri(p.is_authorized)
        + ",\"is_slots_endpoint_enabled\":".spec_bytes() + ser_tri(p.is_slots_endpoint_enabled)
}

/// The slot counts and state of one rendered peer, judged at time `now`.
pub open spec fn ser_peer_stats(p: PeerView, now: nat) -> Seq<u8> {
    ",\"slots_idle\":".spec_bytes() + dec_digits(p.slots_idle)
        + ",\"slots_processing\":".spec_bytes() + dec_digits(p.slots_processing)
        + ",\"slots_taken\":".spec_bytes() + dec_digits(p.slots_taken)
        + ",\"last_update\":".spec_bytes() + dec_digits(p.last_update)
        + ",\"quarantined_until\":".spec_bytes() + ser_opt_u64(p.quarantined_until)
        + ",\"is_usable\":".spec_bytes() + ser_bool(usable(p, now)) + seq![RBRACE]
}

/// One peer of the management snapshot, rendered at time `now`.
pub open spec fn ser_peer_json(p: PeerView, now: nat) -> Seq<u8> {
    ser_peer_ident(p) + ser_peer_flags(p) + ser_peer_stats(p, now)
}

/// The comma-separated peers of the snapshot, in pool order.
pub open spec fn ser_peers_json(s: Seq<PeerView>, now: nat) -> Seq<u8>
    decreases s.len(),
{
    if s.len() == 0 {
        Seq::empty()
    } else if s.len() == 1 {
        ser_peer_json(s[0], now)
    } else {
        ser_peers_json(s.drop_last(), now) + ",".spec_bytes() + ser_peer_json(s.last(), now)
    }
}

/// The whole management snapshot.
pub open spec fn ser_pool_json(s: Seq<PeerView>, now: nat) -> Seq<u8> {
    "{\"agents\":[".spec_bytes() + ser_peers_json(s, now) + "]}".spec_bytes()
}

/// Appends one rendered peer.
fn emit_peer(out: &mut Vec<u8>, p: &UpstreamPeer, now: u64)
    ensures
        final(out)@ == old(out)@ + ser_peer_json(p@, now as nat),
{
    emit_peer_ident(out, p);
    emit_peer_flags(out, p);
    emit_peer_stats(out, p, now);
    proof {
        assert(out@ =~= old(out)@ + ser_peer_json(p@, now as nat));
    }
}

/// Appends a peer's identifying fields.
fn emit_peer_ident(out: &mut Vec<u8>, p: &UpstreamPeer)
    ensures
        final(out)@ == old(out)@ + ser_peer_ident(p@),
{
    emit_lit(out, "{\"agent_id\":");
    emit_str_field(out, p.agent_id.as_str());
    emit_lit(out, ",\"agent_name\":");
    emit_opt_str_field(out, &p.agent_name);
    emit_lit(out, ",\"error\":");
    emit_opt_str_field(out, &p.error);
    emit_lit(out, ",\"external_llamacpp_addr\":");
    emit_str_field(out, p.external_llamacpp_addr.as_str());
    proof {
        assert(out@ =~= old(out)@ + ser_peer_ident(p@));
    }
}

/// Appends a peer's tri-state flags.
fn emit_peer_flags(out: &mut Vec<u8>, p: &UpstreamPeer)
    ensures
        final(out)@ == old(out)@ + ser_peer_flags(p@),
{
    emit_lit(out, ",\"is_authorized\":");
    emit_tri_field(out, p.is_authorized);
    emit_lit(out, ",\"is_slots_endpoint_enabled\":");
    emit_tri_field(out, p.is_slots_endpoint_enabled);
    proof {
        assert(out@ =~= old(out)@ + ser_peer_flags(p@));
    }
}

/// Appends a tri-state value.
fn emit_tri_field(out: &mut Vec<u8>, v: Option<bool>)
    ensures
        final(out)@ == old(out)@ + ser_tri(v),
{
    match v {
        Some(true) => emit_lit(out, "true"),
        Some(false) => emit_lit(out, "false"),
        None => emit_lit(out, "null"),
    }
}

/// Appends a peer's slot counts and state.
#[verifier::rlimit(100)]
fn emit_peer_stats(out: &mut Vec<u8>, p: &UpstreamPeer, now: u64)
    ensures
        final(out)@ == old(out)@ + ser_peer_stats(p@, now as nat),
{
    emit_lit(out, ",\"slots_idle\":");
    emit_u64(out, p.slots_idle as u64);
    emit_lit(out, ",\"slots_processing\":");
    emit_u64(out, p.slots_processing as u64);
    emit_lit(out, ",\"slots_taken\":");
    emit_u64(out, p.slots_taken as u64);
    emit_lit(out, ",\"last_update\":");
    emit_u64(out, p.last_update);
    emit_lit(out, ",\"quarantined_until\":");
    match p.quarantined_until {
        Some(t) => emit_u64(out, t),
        None => emit_lit(out, "null"),
    }
    emit_lit(out, ",\"is_usable\":");
    if p.is_usable(now) {
        emit_lit(out, "true");
    } else {
        emit_lit(out, "false");
    }
    out.push(RBRACE);
    proof {
        assert(out@ =~= old(out)@ + ser_peer_stats(p@, now as nat));
    }
}

/// Appends a quoted, escaped string value.
fn emit_str_field(out: &mut Vec<u8>, s: &str)
    ensures
        final(out)@ == old(out)@ + ser_str_val(s@),
{
    out.push(QUOTE);
    emit_escaped(out, s);
    out.push(QUOTE);
    proof {
        assert(out@ =~= old(out)@ + ser_str_val(s@));
    }
}

/// Appends an optional string value.
fn emit_opt_str_field(out: &mut Vec<u8>, v: &Option<String>)
    ensures
        final(out)@ == old(out)@ + ser_opt_str(opt_string_view(*v)),
{
    match v {
        Some(s) => emit_str_field(out, s.as_str()),
        None => emit_lit(out, "null"),
    }
}

/// Renders the management snapshot as JSON, with each peer's usability
/// judged at time `now`.
pub fn render_pool_info(info: &UpstreamPeerPoolInfo, now: u64) -> (r: Vec<u8>)
    ensures
        r@ == ser_pool_json(info.agents.deep_view(), now as nat),
{
    let ghost s: Seq<PeerView> = info.agents.deep_view();
    let mut out: Vec<u8> = Vec::new();
    emit_lit(&mut out, "{\"agents\":[");
    let ghost head: Seq<u8> = out@;
    let n = info.agents.len();
    let mut i: usize = 0;
    proof {
        assert(ser_peers_json(s.take(0), now as nat) =~= Seq::<u8>::empty());
        assert(out@ =~= head + ser_peers_json(s.take(0), now as nat));
    }
    while i < n
        invariant
            i <= n,
            n == info.agents@.len(),
            s == info.agents.deep_view(),
            s.len() == n,
            out@ == head + ser_peers_json(s.take(i as int), now as nat),
        decreases n - i,
    {
        if i > 0 {
            emit_lit(&mut out, ",");
        }
        let peer = &info.agents[i];
        proof {
            assert(s[i as int] == info.agents@[i as int]@);
        }
        emit_peer(&mut out, peer, now);
        proof {
            assert(s.take(i + 1).drop_last() =~= s.take(i as int));
            assert(s.take(i + 1).last() == s[i as int]);
            assert(out@ =~= head + ser_peers_json(s.take(i + 1), now as nat));
        }
        i = i + 1;
    }
    emit_lit(&mut out, "]}");
    proof {
        assert(s.take(n as int) =~= s);
        assert(out@ =~= ser_pool_json(s, now as nat));
    }
    out
}

} // verus!
