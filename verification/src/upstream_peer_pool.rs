//! The upstream peer pool: the balancer's single shared structure.
//!
//! The pool holds one `UpstreamPeer` per agent, keyed by the unique agent id
//! and kept in the selection order of `peer_le`. Status updates upsert a
//! peer and re-sort; reservation takes the first usable peer in order;
//! release applies the reservation/release race rule: a release whose stamp
//! is older than the peer's last applied status is a no-op, because the
//! fresher snapshot already superseded the reservation.
//!
//! Callers pass the current monotonic time in milliseconds; the pool itself
//! never reads a clock.

use vstd::prelude::*;
use vstd::seq_lib::lemma_multiset_commutative;
use vstd::seq_lib::group_to_multiset_ensures;
use vstd::multiset::group_multiset_axioms;

use crate::errors::PoolError;
use crate::status_update::StatusUpdate;
use crate::status_update::StatusUpdateView;
use crate::upstream_peer::PeerView;
use crate::upstream_peer::UpstreamPeer;
use crate::upstream_peer::eff_free;
use crate::upstream_peer::lemma_peer_le_total;
use crate::upstream_peer::lemma_peer_le_trans;
use crate::upstream_peer::peer_le;
use crate::upstream_peer::spec_apply_status;
use crate::upstream_peer::spec_new_peer;
use crate::upstream_peer::spec_quarantine;
use crate::upstream_peer::spec_release;
use crate::upstream_peer::spec_take;
use crate::upstream_peer::str_eq;
use crate::upstream_peer::usable;

verus! {

/// Agent ids are unique within a peer sequence.
pub open spec fn wf_peers(s: Seq<PeerView>) -> bool {
    forall|i: int, j: int|
        0 <= i < j < s.len() ==> #[trigger] s[i].agent_id != #[trigger] s[j].agent_id
}

/// The sequence is in selection order for time `now`.
pub open spec fn sorted_at(s: Seq<PeerView>, now: nat) -> bool {
    forall|i: int, j: int| 0 <= i < j < s.len() ==> #[trigger] peer_le(s[i], s[j], now)
}

/// Whether some peer carries this agent id.
pub open spec fn has_peer(s: Seq<PeerView>, id: Seq<char>) -> bool {
    exists|i: int| 0 <= i < s.len() && #[trigger] s[i].agent_id == id
}

/// The index of the peer with this agent id (unique when `wf_peers` holds).
pub open spec fn index_of_peer(s: Seq<PeerView>, id: Seq<char>) -> int {
    choose|i: int| 0 <= i < s.len() && #[trigger] s[i].agent_id == id
}

/// The peer with this agent id, if any.
pub open spec fn peer_of(s: Seq<PeerView>, id: Seq<char>) -> Option<PeerView> {
    if has_peer(s, id) {
        Some(s[index_of_peer(s, id)])
    } else {
        None
    }
}

/// The index of the first peer usable at `now`, scanning in pool order.
pub open spec fn first_usable(s: Seq<PeerView>, now: nat) -> Option<int>
    decreases s.len(),
{
    if s.len() == 0 {
        None
    } else if usable(s[0], now) {
        Some(0)
    } else {
        match first_usable(s.drop_first(), now) {
            Some(i) => Some(i + 1),
            None => None,
        }
    }
}

/// What `first_usable` finds: the first usable index, everything before it
/// not usable; or nothing usable at all.
pub proof fn lemma_first_usable_props(s: Seq<PeerView>, now: nat)
    ensures
        match first_usable(s, now) {
            Some(i) => 0 <= i < s.len() && usable(s[i], now) && forall|k: int|
                0 <= k < i ==> !usable(#[trigger] s[k], now),
            None => forall|k: int| 0 <= k < s.len() ==> !usable(#[trigger] s[k], now),
        },
    decreases s.len(),
{
    if s.len() > 0 && !usable(s[0], now) {
        let rest = s.drop_first();
        lemma_first_usable_props(rest, now);
        match first_usable(rest, now) {
            Some(i) => {
                assert(rest[i] == s[i + 1]);
                assert forall|k: int| 0 <= k < i + 1 implies !usable(#[trigger] s[k], now) by {
                    if k > 0 {
                        assert(rest[k - 1] == s[k]);
                        assert(!usable(rest[k - 1], now));
                    }
                }
            },
            None => {
                assert forall|k: int| 0 <= k < s.len() implies !usable(#[trigger] s[k], now) by {
                    if k > 0 {
                        assert(rest[k - 1] == s[k]);
                        assert(!usable(rest[k - 1], now));
                    }
                }
            },
        }
    }
}

/// In a sorted pool, if any peer is usable, the head peer is, so the first
/// peer in sort order is the one a reservation returns.
pub proof fn lemma_sorted_first_usable(s: Seq<PeerView>, now: nat)
    requires
        sorted_at(s, now),
        exists|i: int| 0 <= i < s.len() && usable(#[trigger] s[i], now),
    ensures
        s.len() > 0,
        usable(s[0], now),
        first_usable(s, now) == Some(0int),
{
    let w = choose|i: int| 0 <= i < s.len() && usable(#[trigger] s[i], now);
    if !usable(s[0], now) {
        assert(w != 0);
        assert(peer_le(s[0], s[w], now));
        assert(false);
    }
}

/// When ids are unique, any index holding the searched id is the index
/// `peer_of` speaks of.
pub proof fn lemma_peer_index_unique(s: Seq<PeerView>, id: Seq<char>, i: int)
    requires
        wf_peers(s),
        0 <= i < s.len(),
        s[i].agent_id == id,
    ensures
        has_peer(s, id),
        index_of_peer(s, id) == i,
        peer_of(s, id) == Some(s[i]),
{
    assert(has_peer(s, id));
    let j = index_of_peer(s, id);
    if i != j {
        assert(s[i].agent_id != s[j].agent_id);
    }
}

/// Unique ids survive any permutation of the peers.
pub proof fn lemma_wf_from_permutation(s1: Seq<PeerView>, s2: Seq<PeerView>)
    requires
        wf_peers(s1),
        s1.to_multiset() == s2.to_multiset(),
    ensures
        wf_peers(s2),
{
    broadcast use group_to_multiset_ensures;
    broadcast use group_multiset_axioms;

    assert(s1.no_duplicates()) by {
        assert forall|i: int, j: int|
            0 <= i < s1.len() && 0 <= j < s1.len() && i != j implies s1[i] != s1[j] by {
            if i < j {
                assert(s1[i].agent_id != s1[j].agent_id);
            } else {
                assert(s1[j].agent_id != s1[i].agent_id);
            }
        }
    }
    s1.lemma_multiset_has_no_duplicates();
    assert forall|i: int, j: int|
        0 <= i < j < s2.len() implies #[trigger] s2[i].agent_id != #[trigger] s2[j].agent_id by {
        if s2[i].agent_id == s2[j].agent_id {
            if s2[i] == s2[j] {
                let x = s2[i];
                let left = s2.subrange(0, j);
                let right = s2.subrange(j, s2.len() as int);
                assert(s2 =~= left + right);
                lemma_multiset_commutative(left, right);
                assert(left[i] == x);
                assert(left.contains(x));
                assert(right[0] == x);
                assert(right.contains(x));
                vstd::seq_lib::to_multiset_contains(left, x);
                vstd::seq_lib::to_multiset_contains(right, x);
                assert(s2.to_multiset().count(x) == left.to_multiset().count(x)
                    + right.to_multiset().count(x));
                assert(s1.to_multiset().count(x) >= 2);
                vstd::seq_lib::to_multiset_contains(s1, x);
                assert(s1.contains(x));
                assert(s1.to_multiset().count(x) == 1);
                assert(false);
            } else {
                assert(s2.contains(s2[i]));
                assert(s2.contains(s2[j]));
                vstd::seq_lib::to_multiset_contains(s2, s2[i]);
                vstd::seq_lib::to_multiset_contains(s2, s2[j]);
                vstd::seq_lib::to_multiset_contains(s1, s2[i]);
                vstd::seq_lib::to_multiset_contains(s1, s2[j]);
                assert(s1.contains(s2[i]));
                assert(s1.contains(s2[j]));
                let k = choose|k: int| 0 <= k < s1.len() && s1[k] == s2[i];
                let l = choose|l: int| 0 <= l < s1.len() && s1[l] == s2[j];
                assert(k != l);
                if k < l {
                    assert(s1[k].agent_id != s1[l].agent_id);
                } else {
                    assert(s1[l].agent_id != s1[k].agent_id);
                }
                assert(false);
            }
        }
    }
}

/// Lookup by agent id gives the same peer before and after any permutation.
pub proof fn lemma_peer_of_permutation(s1: Seq<PeerView>, s2: Seq<PeerView>)
    requires
        wf_peers(s1),
        s1.to_multiset() == s2.to_multiset(),
    ensures
        wf_peers(s2),
        forall|id: Seq<char>| #[trigger] peer_of(s1, id) == peer_of(s2, id),
{
    broadcast use group_to_multiset_ensures;
    broadcast use group_multiset_axioms;

    lemma_wf_from_permutation(s1, s2);
    assert forall|id: Seq<char>| #[trigger] peer_of(s1, id) == peer_of(s2, id) by {
        if has_peer(s1, id) {
            let i = index_of_peer(s1, id);
            let p = s1[i];
            assert(s1.contains(p));
            vstd::seq_lib::to_multiset_contains(s1, p);
            vstd::seq_lib::to_multiset_contains(s2, p);
            assert(s2.contains(p));
            let j = choose|j: int| 0 <= j < s2.len() && s2[j] == p;
            lemma_peer_index_unique(s2, id, j);
            lemma_peer_index_unique(s1, id, i);
        } else {
            if has_peer(s2, id) {
                let j = index_of_peer(s2, id);
                let q = s2[j];
                assert(s2.contains(q));
                vstd::seq_lib::to_multiset_contains(s2, q);
                vstd::seq_lib::to_multiset_contains(s1, q);
                assert(s1.contains(q));
                let k = choose|k: int| 0 <= k < s1.len() && s1[k] == q;
                assert(s1[k].agent_id == id);
                assert(false);
            }
        }
    }
}

/// `first_usable` finds exactly the first usable index.
pub proof fn lemma_first_usable_is(s: Seq<PeerView>, now: nat, i: int)
    requires
        0 <= i < s.len(),
        usable(s[i], now),
        forall|k: int| 0 <= k < i ==> !usable(#[trigger] s[k], now),
    ensures
        first_usable(s, now) == Some(i),
    decreases s.len(),
{
    if i > 0 {
        let rest = s.drop_first();
        assert(rest[i - 1] == s[i]);
        assert forall|k: int| 0 <= k < i - 1 implies !usable(#[trigger] rest[k], now) by {
            assert(rest[k] == s[k + 1]);
        }
        lemma_first_usable_is(rest, now, i - 1);
    }
}

/// Replacing a peer by one with the same id keeps ids unique and changes
/// lookup only for that id.
pub proof fn lemma_peer_of_update(s: Seq<PeerView>, i: int, p: PeerView)
    requires
        wf_peers(s),
        0 <= i < s.len(),
        s[i].agent_id == p.agent_id,
    ensures
        wf_peers(s.update(i, p)),
        peer_of(s.update(i, p), p.agent_id) == Some(p),
        forall|id: Seq<char>|
            id != p.agent_id ==> #[trigger] peer_of(s.update(i, p), id) == peer_of(s, id),
{
    let t = s.update(i, p);
    assert forall|a: int, b: int|
        0 <= a < b < t.len() implies #[trigger] t[a].agent_id != #[trigger] t[b].agent_id by {
        assert(s[a].agent_id != s[b].agent_id);
    }
    lemma_peer_index_unique(t, p.agent_id, i);
    assert forall|id: Seq<char>|
        id != p.agent_id implies #[trigger] peer_of(t, id) == peer_of(s, id) by {
        if has_peer(s, id) {
            let k = index_of_peer(s, id);
            assert(k != i);
            assert(t[k] == s[k]);
            lemma_peer_index_unique(t, id, k);
            lemma_peer_index_unique(s, id, k);
        } else {
            if has_peer(t, id) {
                let k = index_of_peer(t, id);
                assert(t[k].agent_id == id);
                assert(k != i);
                assert(s[k].agent_id == id);
                assert(false);
            }
        }
    }
}

/// Appending a peer with a fresh id keeps ids unique and changes lookup
/// only for that id.
pub proof fn lemma_peer_of_push_new(s: Seq<PeerView>, p: PeerView)
    requires
        wf_peers(s),
        !has_peer(s, p.agent_id),
    ensures
        wf_peers(s.push(p)),
        peer_of(s.push(p), p.agent_id) == Some(p),
        forall|id: Seq<char>|
            id != p.agent_id ==> #[trigger] peer_of(s.push(p), id) == peer_of(s, id),
{
    let t = s.push(p);
    assert forall|a: int, b: int|
        0 <= a < b < t.len() implies #[trigger] t[a].agent_id != #[trigger] t[b].agent_id by {
        if b < s.len() {
            assert(s[a].agent_id != s[b].agent_id);
        } else {
            assert(t[b] == p);
            assert(t[a] == s[a]);
            if s[a].agent_id == p.agent_id {
                assert(has_peer(s, p.agent_id));
            }
        }
    }
    lemma_peer_index_unique(t, p.agent_id, s.len() as int);
    assert forall|id: Seq<char>|
        id != p.agent_id implies #[trigger] peer_of(t, id) == peer_of(s, id) by {
        if has_peer(s, id) {
            let k = index_of_peer(s, id);
            assert(t[k] == s[k]);
            lemma_peer_index_unique(t, id, k);
            lemma_peer_index_unique(s, id, k);
        } else {
            if has_peer(t, id) {
                let k = index_of_peer(t, id);
                assert(t[k].agent_id == id);
                assert(k < s.len());
                assert(s[k].agent_id == id);
                assert(false);
            }
        }
    }
}

/// Removing a peer keeps ids unique, drops lookup for its id, and changes
/// no other lookup.
pub proof fn lemma_peer_of_remove(s: Seq<PeerView>, i: int)
    requires
        wf_peers(s),
        0 <= i < s.len(),
    ensures
        wf_peers(s.remove(i)),
        peer_of(s.remove(i), s[i].agent_id) == None::<PeerView>,
        forall|id: Seq<char>|
            id != s[i].agent_id ==> #[trigger] peer_of(s.remove(i), id) == peer_of(s, id),
{
    let t = s.remove(i);
    s.remove_ensures(i);
    assert forall|a: int, b: int|
        0 <= a < b < t.len() implies #[trigger] t[a].agent_id != #[trigger] t[b].agent_id by {
        let a0 = if a < i {
            a
        } else {
            a + 1
        };
        let b0 = if b < i {
            b
        } else {
            b + 1
        };
        assert(t[a] == s[a0]);
        assert(t[b] == s[b0]);
        assert(s[a0].agent_id != s[b0].agent_id);
    }
    if has_peer(t, s[i].agent_id) {
        let k = index_of_peer(t, s[i].agent_id);
        let k0 = if k < i {
            k
        } else {
            k + 1
        };
        assert(t[k] == s[k0]);
        assert(k0 != i);
        if k0 < i {
            assert(s[k0].agent_id != s[i].agent_id);
        } else {
            assert(s[i].agent_id != s[k0].agent_id);
        }
        assert(false);
    }
    assert forall|id: Seq<char>|
        id != s[i].agent_id implies #[trigger] peer_of(t, id) == peer_of(s, id) by {
        if has_peer(s, id) {
            let k0 = index_of_peer(s, id);
            assert(k0 != i);
            let k = if k0 < i {
                k0
            } else {
                k0 - 1
            };
            assert(t[k] == s[k0]);
            lemma_peer_index_unique(t, id, k);
            lemma_peer_index_unique(s, id, k0);
        } else {
            if has_peer(t, id) {
                let k = index_of_peer(t, id);
                let k0 = if k < i {
                    k
                } else {
                    k + 1
                };
                assert(t[k] == s[k0]);
                assert(s[k0].agent_id == id);
                assert(false);
            }
        }
    }
}

/// Sorts the peers into selection order for time `now`: a permutation of
/// the input, sorted by `peer_le`.
fn sort_peers(agents: &mut Vec<UpstreamPeer>, now: u64)
    ensures
        final(agents).deep_view().to_multiset() == old(agents).deep_view().to_multiset(),
        sorted_at(final(agents).deep_view(), now as nat),
        final(agents).deep_view().len() == old(agents).deep_view().len(),
{
    broadcast use group_to_multiset_ensures;
    broadcast use group_multiset_axioms;

    let ghost orig: Seq<PeerView> = old(agents).deep_view();
    let n = agents.len();
    let mut i: usize = 0;
    while i < n
        invariant
            i <= n,
            agents.deep_view().len() == n,
            agents@.len() == n,
            agents.deep_view().to_multiset() == orig.to_multiset(),
            forall|a: int, b: int|
                0 <= a < b < i ==> #[trigger] peer_le(
                    agents.deep_view()[a],
                    agents.deep_view()[b],
                    now as nat,
                ),
            forall|a: int, b: int|
                0 <= a < i <= b < n ==> #[trigger] peer_le(
                    agents.deep_view()[a],
                    agents.deep_view()[b],
                    now as nat,
                ),
        decreases n - i,
    {
        // find the least remaining peer
        let mut best: usize = i;
        let mut j: usize = i + 1;
        proof {
            let dv = agents.deep_view();
            lemma_peer_le_total(dv[i as int], dv[i as int], now as nat);
        }
        while j < n
            invariant
                i <= best < j <= n,
                agents@.len() == n,
                agents.deep_view().len() == n,
                forall|k: int|
                    i <= k < j ==> peer_le(
                        agents.deep_view()[best as int],
                        #[trigger] agents.deep_view()[k],
                        now as nat,
                    ),
            decreases n - j,
        {
            let j_le_best = {
                let a = &agents[j];
                let b = &agents[best];
                a.le_at(b, now)
            };
            let best_le_j = {
                let a = &agents[best];
                let b = &agents[j];
                a.le_at(b, now)
            };
            proof {
                assert(agents.deep_view()[j as int] == agents@[j as int]@);
                assert(agents.deep_view()[best as int] == agents@[best as int]@);
            }
            if j_le_best && !best_le_j {
                proof {
                    let dv = agents.deep_view();
                    lemma_peer_le_total(dv[j as int], dv[j as int], now as nat);
                    assert forall|k: int|
                        i <= k < j + 1 implies peer_le(
                        dv[j as int],
                        #[trigger] dv[k],
                        now as nat,
                    ) by {
                        if k < j {
                            lemma_peer_le_trans(dv[j as int], dv[best as int], dv[k], now as nat);
                        }
                    }
                }
                best = j;
            } else {
                proof {
                    let dv = agents.deep_view();
                    if !best_le_j {
                        lemma_peer_le_total(dv[best as int], dv[j as int], now as nat);
                    }
                    assert(peer_le(dv[best as int], dv[j as int], now as nat));
                }
            }
            j = j + 1;
        }
        // rotate the least remaining peer to position i
        let ghost before: Seq<PeerView> = agents.deep_view();
        let x = agents.remove(best);
        let ghost removed: Seq<PeerView> = agents.deep_view();
        proof {
            assert(removed =~= before.remove(best as int));
        }
        agents.insert(i, x);
        proof {
            let after = agents.deep_view();
            assert(after =~= removed.insert(i as int, x@));
            broadcast use group_multiset_axioms;

            assert(x@ == before[best as int]);
            before.remove_ensures(best as int);
            vstd::seq_lib::to_multiset_remove(before, best as int);
            vstd::seq_lib::to_multiset_insert(removed, i as int, x@);
            vstd::seq_lib::to_multiset_contains(before, before[best as int]);
            assert(removed.to_multiset() == before.remove(best as int).to_multiset());
            assert(after.to_multiset() == removed.insert(i as int, x@).to_multiset());
            assert(before.contains(before[best as int]));
            assert(before.to_multiset().count(before[best as int]) > 0);
            assert(after.to_multiset() =~= before.to_multiset());
            // indices: after[k] == before[k] for k < i; after[i] == x;
            // after[k] == before[k-1] for i < k <= best; after[k] == before[k] for k > best
            assert forall|k: int| 0 <= k < i implies after[k] == before[k] by {
                assert(removed[k] == before[k]);
            }
            assert(after[i as int] == before[best as int]);
            assert forall|k: int| i < k < n implies (after[k] == if k <= best as int {
                before[k - 1]
            } else {
                before[k]
            }) by {
                if k <= best as int {
                    assert(removed[k - 1] == before[k - 1]);
                } else {
                    assert(removed[k - 1] == before[k]);
                }
            }
            assert forall|a: int, b: int|
                0 <= a < b < i + 1 implies #[trigger] peer_le(after[a], after[b], now as nat) by {}
            assert forall|a: int, b: int|
                0 <= a < i + 1 <= b < n implies #[trigger] peer_le(
                after[a],
                after[b],
                now as nat,
            ) by {
                if a < i {
                } else {
                    // after[a] is the selected least element
                    if b <= best as int {
                        assert(after[b] == before[b - 1]);
                        assert(peer_le(before[best as int], before[b - 1], now as nat));
                    } else {
                        assert(peer_le(before[best as int], before[b], now as nat));
                    }
                }
            }
        }
        i = i + 1;
    }
}

/// Outcome of releasing one reservation on a peer with a given stamp: a
/// stamp older than the peer's last applied status is superseded and the
/// release is a successful no-op; otherwise one reservation is given back,
/// unless none is outstanding, which is a `ReleaseUnderflow`.
pub open spec fn spec_release_peer(p: PeerView, stamp: nat) -> (PeerView, Result<(), PoolError>) {
    if p.last_update > stamp {
        (p, Ok(()))
    } else if p.slots_taken > 0 {
        (spec_release(p), Ok(()))
    } else {
        (p, Err(PoolError::ReleaseUnderflow))
    }
}

/// The peer a status update leaves in the pool: the updated record when
/// the id is known, a fresh one otherwise.
pub open spec fn spec_registered_peer(
    s: Seq<PeerView>,
    id: Seq<char>,
    u: StatusUpdateView,
    now: nat,
) -> PeerView {
    match peer_of(s, id) {
        Some(p) => spec_apply_status(p, u, now),
        None => spec_new_peer(id, u, now),
    }
}

/// Sum of the reported idle slots.
pub open spec fn sum_idle(s: Seq<PeerView>) -> int
    decreases s.len(),
{
    if s.len() == 0 {
        0
    } else {
        sum_idle(s.drop_last()) + s.last().slots_idle
    }
}

/// Sum of the reported processing slots.
pub open spec fn sum_processing(s: Seq<PeerView>) -> int
    decreases s.len(),
{
    if s.len() == 0 {
        0
    } else {
        sum_processing(s.drop_last()) + s.last().slots_processing
    }
}

/// An integer sum clamped to what a `usize` can hold.
pub open spec fn clamp_usize(n: int) -> int {
    if n > usize::MAX {
        usize::MAX as int
    } else {
        n
    }
}

/// Saturating addition of two timestamps.
pub open spec fn sat_add_u64(a: u64, b: u64) -> u64 {
    if a + b > u64::MAX {
        u64::MAX
    } else {
        (a + b) as u64
    }
}

/// A successful reservation: the chosen peer's id and backend address, and
/// the reservation stamp, the peer's `last_update` at reservation time.
pub struct SlotReservation {
    pub agent_id: String,
    pub external_llamacpp_addr: String,
    pub stamp: u64,
}

/// Cloned read of the pool for the management API and the dashboard.
pub struct UpstreamPeerPoolInfo {
    pub agents: Vec<UpstreamPeer>,
}

/// The ordered collection of peers.
///
/// All operations keep agent ids unique (`wf_peers`); the mutating ones
/// that re-sort leave the peers in selection order for the time they were
/// given. The pool never reads a clock: callers pass the current monotonic
/// time in milliseconds.
pub struct UpstreamPeerPool {
    pub agents: Vec<UpstreamPeer>,
}

impl View for UpstreamPeerPool {
    type V = Seq<PeerView>;

    open spec fn view(&self) -> Seq<PeerView> {
        self.agents.deep_view()
    }
}

impl UpstreamPeerPool {
    /// An empty pool.
    pub fn new() -> (r: UpstreamPeerPool)
        ensures
            r@ == Seq::<PeerView>::empty(),
            wf_peers(r@),
    {
        let r = UpstreamPeerPool { agents: Vec::new() };
        proof {
            assert(r@ =~= Seq::<PeerView>::empty());
        }
        r
    }

    /// The index of the peer carrying this agent id, if any.
    fn find_peer_idx(&self, agent_id: &str) -> (r: Option<usize>)
        ensures
            match r {
                Some(i) => i < self@.len() && self@[i as int].agent_id == agent_id@,
                None => !has_peer(self@, agent_id@),
            },
    {
        let mut i: usize = 0;
        let n = self.agents.len();
        while i < n
            invariant
                i <= n,
                n == self@.len(),
                n == self.agents@.len(),
                forall|k: int| 0 <= k < i ==> #[trigger] self@[k].agent_id != agent_id@,
            decreases n - i,
        {
            if str_eq(self.agents[i].agent_id.as_str(), agent_id) {
                proof {
                    assert(self@[i as int] == self.agents@[i as int]@);
                }
                return Some(i);
            }
            proof {
                assert(self@[i as int] == self.agents@[i as int]@);
            }
            i = i + 1;
        }
        None
    }

    /// Cloned snapshot of the pool.
    pub fn info(&self) -> (r: Option<UpstreamPeerPoolInfo>)
        ensures
            match r {
                Some(info) => info.agents.deep_view() == self@,
                None => false,
            },
    {
        let mut agents: Vec<UpstreamPeer> = Vec::new();
        let mut i: usize = 0;
        let n = self.agents.len();
        while i < n
            invariant
                i <= n,
                n == self.agents@.len(),
                agents@.len() == i,
                forall|k: int| 0 <= k < i ==> #[trigger] agents@[k] == self.agents@[k],
            decreases n - i,
        {
            let peer = {
                let p = &self.agents[i];
                p.clone()
            };
            agents.push(peer);
            i = i + 1;
        }
        let info = UpstreamPeerPoolInfo { agents };
        proof {
            assert(info.agents.deep_view() =~= self@);
        }
        Some(info)
    }

    /// Applies one status snapshot that arrived at `now`: upserts the peer
    /// with this agent id, reconciles its reservation count, and re-sorts
    /// the pool. Exactly the peer with this id changes.
    pub fn register_status_update(&mut self, agent_id: &str, status_update: StatusUpdate, now: u64)
        requires
            wf_peers(old(self)@),
        ensures
            wf_peers(final(self)@),
            sorted_at(final(self)@, now as nat),
            peer_of(final(self)@, agent_id@) == Some(
                spec_registered_peer(old(self)@, agent_id@, status_update@, now as nat),
            ),
            forall|id: Seq<char>|
                id != agent_id@ ==> #[trigger] peer_of(final(self)@, id) == peer_of(
                    old(self)@,
                    id,
                ),
            final(self)@.len() == old(self)@.len() + (if has_peer(old(self)@, agent_id@) {
                0int
            } else {
                1int
            }),
    {
        broadcast use group_to_multiset_ensures;
        broadcast use group_multiset_axioms;

        let ghost orig: Seq<PeerView> = self@;
        let ghost registered: PeerView = spec_registered_peer(
            orig,
            agent_id@,
            status_update@,
            now as nat,
        );
        let ghost target: Seq<PeerView>;
        match self.find_peer_idx(agent_id) {
            Some(i) => {
                proof {
                    lemma_peer_index_unique(orig, agent_id@, i as int);
                    assert(orig[i as int] == self.agents@[i as int]@);
                }
                let mut peer = self.agents.remove(i);
                peer.update_status(status_update, now);
                let ghost updated: PeerView = peer@;
                self.agents.insert(i, peer);
                proof {
                    target = orig.update(i as int, updated);
                    assert(self@ =~= target);
                    assert(updated == registered);
                    lemma_peer_of_update(orig, i as int, updated);
                    assert(peer_of(target, agent_id@) == Some(registered));
                    assert(forall|id: Seq<char>|
                        id != agent_id@ ==> #[trigger] peer_of(target, id) == peer_of(orig, id));
                    assert(target.len() == orig.len());
                }
            },
            None => {
                let peer = UpstreamPeer::new_from_status_update(
                    agent_id.to_owned(),
                    status_update,
                    now,
                );
                let ghost added: PeerView = peer@;
                self.agents.push(peer);
                proof {
                    target = orig.push(added);
                    assert(self@ =~= target);
                    assert(added == registered);
                    lemma_peer_of_push_new(orig, added);
                    assert(peer_of(target, agent_id@) == Some(registered));
                    assert(forall|id: Seq<char>|
                        id != agent_id@ ==> #[trigger] peer_of(target, id) == peer_of(orig, id));
                    assert(target.len() == orig.len() + 1);
                }
            },
        }
        sort_peers(&mut self.agents, now);
        proof {
            broadcast use vstd::seq_lib::to_multiset_len;

            lemma_peer_of_permutation(target, self@);
            assert(peer_of(self@, agent_id@) == peer_of(target, agent_id@));
            assert forall|id: Seq<char>|
                id != agent_id@ implies #[trigger] peer_of(self@, id) == peer_of(orig, id) by {
                assert(peer_of(target, id) == peer_of(self@, id));
                assert(peer_of(target, id) == peer_of(orig, id));
            }
            assert(self@.len() == target.len());
        }
    }

    /// Reserves one slot: takes the first usable peer in pool order,
    /// increments its `slots_taken`, and hands back its id, address, and
    /// the reservation stamp. Absent when no peer is usable at `now`.
    #[verifier::loop_isolation(false)]
    pub fn reserve_slot(&mut self, now: u64) -> (r: Option<SlotReservation>)
        requires
            wf_peers(old(self)@),
        ensures
            wf_peers(final(self)@),
            match first_usable(old(self)@, now as nat) {
                None => r is None && final(self)@ == old(self)@,
                Some(i) => match r {
                    Some(res) => {
                        &&& res.agent_id@ == old(self)@[i].agent_id
                        &&& res.external_llamacpp_addr@ == old(self)@[i].external_llamacpp_addr
                        &&& res.stamp as nat == old(self)@[i].last_update
                        &&& final(self)@ == old(self)@.update(i, spec_take(old(self)@[i]))
                        &&& peer_of(final(self)@, res.agent_id@) == Some(spec_take(old(self)@[i]))
                        &&& forall|id: Seq<char>|
                            id != res.agent_id@ ==> #[trigger] peer_of(final(self)@, id) == peer_of(
                                old(self)@,
                                id,
                            )
                    },
                    None => false,
                },
            },
    {
        let ghost orig: Seq<PeerView> = self@;
        let mut i: usize = 0;
        let n = self.agents.len();
        while i < n
            invariant
                i <= n,
                n == self@.len(),
                n == self.agents@.len(),
                self@ == orig,
                wf_peers(orig),
                forall|k: int| 0 <= k < i ==> !usable(#[trigger] orig[k], now as nat),
            decreases n - i,
        {
            let found = {
                let p = &self.agents[i];
                p.is_usable(now)
            };
            proof {
                assert(orig[i as int] == self.agents@[i as int]@);
            }
            if found {
                let mut peer = self.agents.remove(i);
                let agent_id = peer.agent_id.clone();
                let external_llamacpp_addr = peer.external_llamacpp_addr.clone();
                let stamp = peer.last_update;
                proof {
                    assert(eff_free(peer@) > 0);
                }
                peer.take_slot();
                self.agents.insert(i, peer);
                proof {
                    assert(self@ =~= orig.update(i as int, spec_take(orig[i as int])));
                    lemma_first_usable_is(orig, now as nat, i as int);
                    lemma_peer_of_update(orig, i as int, spec_take(orig[i as int]));
                    assert(agent_id@ == orig[i as int].agent_id);
                    assert(external_llamacpp_addr@ == orig[i as int].external_llamacpp_addr);
                    assert(stamp as nat == orig[i as int].last_update);
                    assert(peer_of(self@, agent_id@) == Some(spec_take(orig[i as int])));
                    assert(wf_peers(self@));
                    assert forall|id: Seq<char>|
                        id != agent_id@ implies #[trigger] peer_of(self@, id) == peer_of(
                        orig,
                        id,
                    ) by {
                        assert(peer_of(orig.update(i as int, spec_take(orig[i as int])), id)
                            == peer_of(orig, id));
                    }
                }
                return Some(SlotReservation { agent_id, external_llamacpp_addr, stamp });
            }
            i = i + 1;
        }
        proof {
            lemma_first_usable_props(orig, now as nat);
            if first_usable(orig, now as nat) is Some {
                let w = first_usable(orig, now as nat)->Some_0;
                assert(usable(orig[w], now as nat));
                assert(false);
            }
        }
        None
    }

    /// Clones the first usable peer in pool order without reserving.
    pub fn use_best_peer(&self, now: u64) -> (r: Option<UpstreamPeer>)
        ensures
            match first_usable(self@, now as nat) {
                None => r is None,
                Some(i) => match r {
                    Some(p) => p@ == self@[i],
                    None => false,
                },
            },
    {
        let mut i: usize = 0;
        let n = self.agents.len();
        while i < n
            invariant
                i <= n,
                n == self@.len(),
                n == self.agents@.len(),
                forall|k: int| 0 <= k < i ==> !usable(#[trigger] self@[k], now as nat),
            decreases n - i,
        {
            let found = {
                let p = &self.agents[i];
                p.is_usable(now)
            };
            proof {
                assert(self@[i as int] == self.agents@[i as int]@);
            }
            if found {
                let peer = {
                    let p = &self.agents[i];
                    p.clone()
                };
                proof {
                    lemma_first_usable_is(self@, now as nat, i as int);
                }
                return Some(peer);
            }
            i = i + 1;
        }
        proof {
            lemma_first_usable_props(self@, now as nat);
            if first_usable(self@, now as nat) is Some {
                let w = first_usable(self@, now as nat)->Some_0;
                assert(usable(self@[w], now as nat));
                assert(false);
            }
        }
        None
    }

    /// Gives back the reservation carrying this stamp. Unknown ids fail
    /// with `UnknownAgent`; a stamp superseded by a fresher status is a
    /// successful no-op; releasing with none outstanding fails with
    /// `ReleaseUnderflow` and changes nothing.
    pub fn release_slot(&mut self, agent_id: &str, last_update: u64) -> (r: Result<(), PoolError>)
        requires
            wf_peers(old(self)@),
        ensures
            wf_peers(final(self)@),
            match peer_of(old(self)@, agent_id@) {
                None => r == Err::<(), PoolError>(PoolError::UnknownAgent) && final(self)@ == old(
                    self,
                )@,
                Some(p) => {
                    &&& r == spec_release_peer(p, last_update as nat).1
                    &&& final(self)@ == old(self)@.update(
                        index_of_peer(old(self)@, agent_id@),
                        spec_release_peer(p, last_update as nat).0,
                    )
                    &&& peer_of(final(self)@, agent_id@) == Some(
                        spec_release_peer(p, last_update as nat).0,
                    )
                    &&& forall|id: Seq<char>|
                        id != agent_id@ ==> #[trigger] peer_of(final(self)@, id) == peer_of(
                            old(self)@,
                            id,
                        )
                },
            },
    {
        let ghost orig: Seq<PeerView> = self@;
        match self.find_peer_idx(agent_id) {
            Some(i) => {
                proof {
                    lemma_peer_index_unique(orig, agent_id@, i as int);
                }
                let stale = {
                    let p = &self.agents[i];
                    p.last_update > last_update
                };
                proof {
                    assert(orig[i as int] == self.agents@[i as int]@);
                }
                if stale {
                    proof {
                        assert(self@ =~= orig.update(i as int, orig[i as int]));
                        lemma_peer_of_update(orig, i as int, orig[i as int]);
                        assert forall|id: Seq<char>|
                            id != agent_id@ implies #[trigger] peer_of(self@, id) == peer_of(
                            orig,
                            id,
                        ) by {
                            assert(peer_of(orig.update(i as int, orig[i as int]), id) == peer_of(
                                orig,
                                id,
                            ));
                        }
                    }
                    return Ok(());
                } else {
                    let mut peer = self.agents.remove(i);
                    let result = peer.release_slot();
                    let ghost updated: PeerView = peer@;
                    self.agents.insert(i, peer);
                    proof {
                        assert(self@ =~= orig.update(i as int, updated));
                        lemma_peer_of_update(orig, i as int, updated);
                        assert(updated == spec_release_peer(orig[i as int], last_update as nat).0);
                        assert forall|id: Seq<char>|
                            id != agent_id@ implies #[trigger] peer_of(self@, id) == peer_of(
                            orig,
                            id,
                        ) by {
                            assert(peer_of(orig.update(i as int, updated), id) == peer_of(
                                orig,
                                id,
                            ));
                        }
                    }
                    return result;
                }
            },
            None => {
                return Err(PoolError::UnknownAgent);
            },
        }
    }

    /// Quarantines the peer with this id until `now + duration_ms`
    /// (saturating). Reports whether the peer was found.
    pub fn quarantine_peer(&mut self, agent_id: &str, now: u64, duration_ms: u64) -> (r: bool)
        requires
            wf_peers(old(self)@),
        ensures
            wf_peers(final(self)@),
            r == has_peer(old(self)@, agent_id@),
            r ==> {
                let p = peer_of(old(self)@, agent_id@)->Some_0;
                let q = spec_quarantine(p, sat_add_u64(now, duration_ms) as nat);
                &&& final(self)@ == old(self)@.update(index_of_peer(old(self)@, agent_id@), q)
                &&& peer_of(final(self)@, agent_id@) == Some(q)
                &&& forall|id: Seq<char>|
                    id != agent_id@ ==> #[trigger] peer_of(final(self)@, id) == peer_of(
                        old(self)@,
                        id,
                    )
            },
            !r ==> final(self)@ == old(self)@,
    {
        let ghost orig: Seq<PeerView> = self@;
        match self.find_peer_idx(agent_id) {
            Some(i) => {
                proof {
                    lemma_peer_index_unique(orig, agent_id@, i as int);
                }
                let mut peer = self.agents.remove(i);
                peer.quarantined_until = Some(now.saturating_add(duration_ms));
                let ghost updated: PeerView = peer@;
                self.agents.insert(i, peer);
                proof {
                    assert(self@ =~= orig.update(i as int, updated));
                    lemma_peer_of_update(orig, i as int, updated);
                }
                true
            },
            None => false,
        }
    }

    /// Drops the peer with this id. Reports whether it was found.
    pub fn remove_peer(&mut self, agent_id: &str) -> (r: bool)
        requires
            wf_peers(old(self)@),
        ensures
            wf_peers(final(self)@),
            r == has_peer(old(self)@, agent_id@),
            r ==> {
                &&& final(self)@ == old(self)@.remove(index_of_peer(old(self)@, agent_id@))
                &&& peer_of(final(self)@, agent_id@) == None::<PeerView>
                &&& forall|id: Seq<char>|
                    id != agent_id@ ==> #[trigger] peer_of(final(self)@, id) == peer_of(
                        old(self)@,
                        id,
                    )
            },
            !r ==> final(self)@ == old(self)@,
    {
        let ghost orig: Seq<PeerView> = self@;
        match self.find_peer_idx(agent_id) {
            Some(i) => {
                proof {
                    lemma_peer_index_unique(orig, agent_id@, i as int);
                }
                let _ = self.agents.remove(i);
                proof {
                    assert(self@ =~= orig.remove(i as int));
                    lemma_peer_of_remove(orig, i as int);
                }
                true
            },
            None => false,
        }
    }

    /// Re-sorts the pool into selection order for `now`, after bulk
    /// mutations. The peers themselves do not change.
    pub fn restore_integrity(&mut self, now: u64)
        requires
            wf_peers(old(self)@),
        ensures
            wf_peers(final(self)@),
            sorted_at(final(self)@, now as nat),
            final(self)@.to_multiset() == old(self)@.to_multiset(),
            forall|id: Seq<char>| #[trigger] peer_of(final(self)@, id) == peer_of(old(self)@, id),
    {
        let ghost orig: Seq<PeerView> = self@;
        sort_peers(&mut self.agents, now);
        proof {
            lemma_peer_of_permutation(orig, self@);
        }
    }

    /// Sums of the reported idle and processing slots, each clamped to
    /// what a `usize` can hold.
    pub fn total_slots(&self) -> (r: (usize, usize))
        ensures
            r.0 == clamp_usize(sum_idle(self@)),
            r.1 == clamp_usize(sum_processing(self@)),
    {
        let mut slots_idle: usize = 0;
        let mut slots_processing: usize = 0;
        let mut i: usize = 0;
        let n = self.agents.len();
        proof {
            assert(self@.take(0) =~= Seq::<PeerView>::empty());
        }
        while i < n
            invariant
                i <= n,
                n == self@.len(),
                n == self.agents@.len(),
                slots_idle == clamp_usize(sum_idle(self@.take(i as int))),
                slots_processing == clamp_usize(sum_processing(self@.take(i as int))),
            decreases n - i,
        {
            proof {
                assert(self@[i as int] == self.agents@[i as int]@);
                assert(self@.take(i + 1).drop_last() =~= self@.take(i as int));
                assert(self@.take(i + 1).last() == self@[i as int]);
                lemma_sum_idle_nonneg(self@.take(i as int));
                lemma_sum_processing_nonneg(self@.take(i as int));
            }
            let idle = {
                let p = &self.agents[i];
                p.slots_idle
            };
            let processing = {
                let p = &self.agents[i];
                p.slots_processing
            };
            slots_idle = slots_idle.saturating_add(idle);
            slots_processing = slots_processing.saturating_add(processing);
            i = i + 1;
        }
        proof {
            assert(self@.take(n as int) =~= self@);
        }
        (slots_idle, slots_processing)
    }
}

/// The sum of reported idle slots is never negative.
proof fn lemma_sum_idle_nonneg(s: Seq<PeerView>)
    ensures
        sum_idle(s) >= 0,
    decreases s.len(),
{
    if s.len() > 0 {
        lemma_sum_idle_nonneg(s.drop_last());
    }
}

/// The sum of reported processing slots is never negative.
proof fn lemma_sum_processing_nonneg(s: Seq<PeerView>)
    ensures
        sum_processing(s) >= 0,
    decreases s.len(),
{
    if s.len() > 0 {
        lemma_sum_processing_nonneg(s.drop_last());
    }
}

/// A reservation released with its own stamp, with no fresher status in
/// between, restores the peer exactly: every successful reservation is
/// matched by the one release that carries its stamp.
pub proof fn lemma_release_matches_reserve(p: PeerView)
    ensures
        spec_release_peer(spec_take(p), p.last_update) == (p, Ok::<(), PoolError>(())),
{
    assert(spec_release(spec_take(p)) == p);
}

/// Once a fresher status snapshot has superseded a reservation, a release
/// carrying the old stamp is a successful no-op, however often it is
/// retried: stale releases are idempotent.
pub proof fn lemma_stale_release_is_noop(
    p: PeerView,
    u: StatusUpdateView,
    now: nat,
    stamp: nat,
)
    requires
        now > stamp,
    ensures
        spec_release_peer(spec_apply_status(p, u, now), stamp) == (
            spec_apply_status(p, u, now),
            Ok::<(), PoolError>(()),
        ),
{
}

} // verus!
