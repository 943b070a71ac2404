//! What a node does when it wakes: it may crash or come back, and a node that is up
//! gives up what it has waited for in vain, starts leases, renews those that are due and
//! notices what has lapsed.

use crate::clock::Time;
use crate::event::{Event, EventKind, LeaseStatus, MsgKind, NodeId};
use crate::moves::lemma_send_live;
use crate::pacing::{declared_once, sends_renew};
use crate::progress::sized;
use crate::report::{faithful_so_far, law_next_renew_is_known};
use crate::safety::lemma_begin_guard_effect;
use crate::sim::{GranteeState, GrantorState, LeaseState, NodeState, Round, Sim};
use crate::timeline::{Scheduled, Timed};
use crate::upkeep::{
    lemma_abort_stale_writes, lemma_expire_stale_guards, lemma_expire_stale_renews,
    lemma_fault_trial, lemma_initiate_trial, lemma_leads_to_trans, lemma_maybe_initiate,
    lemma_parties, lemma_popped, lemma_recompute_grantor, lemma_recompute_statuses,
    lemma_rounds_filter, lemma_send, lemma_send_renew, lemma_service_grants, lemma_tend,
    lemma_thaw_all, lemma_with_grantor, lemma_with_node,
};
use crate::writing::law_thaw_reopens_every_guard;
use vstd::prelude::*;

verus! {

/// The next thing to happen in the run is that the node wakes.
pub open spec fn wakes(s: Sim, node: NodeId) -> bool {
    &&& s.ok()
    &&& sized(s)
    &&& s.queue.len() > 0
    &&& s.queue[0].item == (Scheduled::Poll { node })
    &&& s.queue[0].at <= s.cfg.duration
}

/// The node is up once it has woken: it was and its draw is not below its chance of
/// failing, or it was not and its draw is below its chance of recovering.
pub open spec fn wakes_up(s: Sim, node: NodeId) -> bool {
    if s.nodes[node as int].up {
        s.rng.unit() >= s.cfg.nodes[node as int].fail_chance.num
    } else {
        s.rng.unit() < s.cfg.nodes[node as int].recover_chance.num
    }
}

/// What the node's clock shows when the next thing happens.
pub open spec fn shows(s: Sim, node: NodeId) -> int {
    s.cfg.nodes[node as int].clock.reading(s.queue[0].at as int)
}

// ---- Crashes and recoveries ------------------------------------------------

/// Thawing nodes neither starts nor stops any.
proof fn lemma_thaw_up(s: Sim, node: NodeId)
    requires
        s.ok(),
        sized(s),
        node < s.nodes.len(),
    ensures
        s.thaw_and_reguard(node).nodes.len() == s.nodes.len(),
        forall|m: int|
            0 <= m < s.nodes.len() ==> (#[trigger] s.thaw_and_reguard(node).nodes[m]).up
                == s.nodes[m].up,
{
    reveal(Sim::thaw_and_reguard);
    let n = NodeState { write_frozen: false, ..s.nodes[node as int] };
    lemma_with_node(s, node, n);
    crate::upkeep::lemma_reguard(s.with_node(node, n), node, s.leases.len() as int);
}

/// What thawing the first `k` nodes leaves alone: who is up, and leases that no write
/// tore down.
proof fn lemma_thaw_all_leaves(s: Sim, k: int)
    requires
        s.ok(),
        sized(s),
        0 <= k <= s.nodes.len(),
    ensures
        s.thaw_all(k).nodes.len() == s.nodes.len(),
        forall|m: int|
            0 <= m < s.nodes.len() ==> (#[trigger] s.thaw_all(k).nodes[m]).up == s.nodes[m].up,
        forall|i: int|
            0 <= i < s.leases.len() && !s.leases[i].grantor.reguard_on_thaw ==> #[trigger] s.thaw_all(
                k,
            ).leases[i] == s.leases[i],
    decreases k,
{
    if k > 0 {
        lemma_thaw_all_leaves(s, k - 1);
        lemma_thaw_all(s, k - 1);
        let a = s.thaw_all(k - 1);
        let node = (k - 1) as usize;
        lemma_thaw_up(a, node);
        assert forall|i: int|
            0 <= i < s.leases.len()
                && !s.leases[i].grantor.reguard_on_thaw implies #[trigger] s.thaw_all(k).leases[i]
            == s.leases[i] by {
            assert(a.leases[i] == s.leases[i]);
            law_thaw_reopens_every_guard(a, node, i);
        }
    }
}

/// What giving up on writes leaves alone.
proof fn lemma_abort_leaves(s: Sim, node: NodeId)
    requires
        s.ok(),
        sized(s),
    ensures
        ({
            let b = s.abort_stale_writes(node);
            &&& b.nodes.len() == s.nodes.len()
            &&& forall|m: int| 0 <= m < s.nodes.len() ==> (#[trigger] b.nodes[m]).up == s.nodes[m].up
            &&& forall|i: int|
                0 <= i < s.leases.len() && !s.leases[i].grantor.reguard_on_thaw
                    ==> #[trigger] b.leases[i] == s.leases[i]
            &&& b.leases.len() == s.leases.len()
        }),
{
    reveal(Sim::abort_stale_writes);
    let keep = |r: Round| !s.stale(r);
    lemma_rounds_filter(s, keep);
    let a = Sim { rounds: s.rounds.filter(keep), ..s };
    lemma_thaw_all_leaves(a, s.nodes.len() as int);
    lemma_abort_stale_writes(s, node);
}

/// The node has done its work, if it is up.
pub open spec fn attended(s: Sim, node: NodeId) -> Sim {
    if s.nodes[node as int].up {
        s.tend(node)
    } else {
        s
    }
}

/// Waking, piece by piece: the fault trial, what a node that is up does, and the look at
/// what has lapsed.
pub proof fn lemma_poll_parts(a: Sim, node: NodeId)
    requires
        a.ok(),
        sized(a),
        node < a.nodes.len(),
    ensures
        ({
            let s1 = a.fault_trial(node);
            let s2 = attended(s1, node);
            let s3 = s2.recompute_statuses(node, s2.leases.len() as int);
            let b = a.poll(node);
            &&& a.leads_to(s1, 0)
            &&& sized(s1)
            &&& s1.leads_to(s2, 0)
            &&& sized(s2)
            &&& s2.leads_to(s3, 0)
            &&& a.leads_to(s2, 0)
            &&& b.leases == s3.leases
            &&& b.nodes == s3.nodes
            &&& s3.nodes == s2.nodes
            &&& b.rounds == s2.rounds
            &&& b.pending == s3.pending
            &&& b.in_flight == s3.in_flight
            &&& forall|m: int| 0 <= m < s1.nodes.len() ==> (#[trigger] s2.nodes[m]).up == s1.nodes[m].up
            &&& b.cfg == a.cfg
            &&& b.now == a.now
            &&& b.ok()
        }),
{
    reveal(Sim::poll);
    lemma_fault_trial(a, node);
    let s1 = a.fault_trial(node);
    lemma_tend(s1, node);
    let s2 = attended(s1, node);
    if s1.nodes[node as int].up {
        lemma_tend_nodes(s1, node);
    }
    assert(s1.pending.is_prefix_of(s1.pending));
    lemma_leads_to_trans(a, s1, s2, 0, 0);
    lemma_recompute_statuses(s2, node, s2.leases.len() as int);
    crate::upkeep::lemma_poll(a, node);
}

/// What a node that is up does to nodes and rounds, it does by giving up on writes.
pub proof fn lemma_tend_nodes(s: Sim, node: NodeId)
    requires
        s.ok(),
        sized(s),
        node < s.nodes.len(),
    ensures
        s.tend(node).nodes.len() == s.nodes.len(),
        forall|m: int| 0 <= m < s.nodes.len() ==> (#[trigger] s.tend(node).nodes[m]).up == s.nodes[m].up,
        s.tend(node).rounds == s.abort_stale_writes(node).rounds,
        s.tend(node).nodes == s.abort_stale_writes(node).nodes,
{
    reveal(Sim::tend);
    lemma_abort_leaves(s, node);
    lemma_abort_stale_writes(s, node);
    let s1 = s.abort_stale_writes(node);
    lemma_expire_stale_guards(s1, node);
    let s2 = s1.expire_stale_guards(node);
    assert(s2.nodes == s1.nodes && s2.rounds == s1.rounds) by {
        reveal(Sim::expire_stale_guards);
    }
    lemma_expire_stale_renews(s2, node);
    let s3 = s2.expire_stale_renews(node);
    assert(s3.nodes == s2.nodes && s3.rounds == s2.rounds) by {
        reveal(Sim::expire_stale_renews);
    }
    lemma_maybe_initiate(s3, node, s3.leases.len() as int);
    let s4 = s3.maybe_initiate(node, s3.leases.len() as int);
    lemma_service_grants(s4, node, s4.leases.len() as int);
}

/// What a fault trial does.
pub proof fn lemma_fault_trial_effect(s: Sim, node: NodeId)
    requires
        s.ok(),
        node < s.nodes.len(),
    ensures
        ({
            let b = s.fault_trial(node);
            let c = s.cfg.nodes[node as int];
            &&& b.nodes.len() == s.nodes.len()
            &&& s.nodes[node as int].up ==> (b.nodes[node as int].up <==> s.rng.unit()
                >= c.fail_chance.num)
            &&& !s.nodes[node as int].up ==> (b.nodes[node as int].up <==> s.rng.unit()
                < c.recover_chance.num)
            &&& b.nodes[node as int].write_frozen == s.nodes[node as int].write_frozen
            &&& forall|m: int|
                0 <= m < s.nodes.len() && m != node ==> #[trigger] b.nodes[m] == s.nodes[m]
            &&& s.nodes[node as int].up && !b.nodes[node as int].up ==> b.pending
                == s.pending.push(Event { at: s.now, kind: EventKind::NodeFailed { node } })
            &&& !s.nodes[node as int].up && b.nodes[node as int].up ==> b.pending
                == s.pending.push(Event { at: s.now, kind: EventKind::NodeRecovered { node } })
            &&& s.nodes[node as int].up == b.nodes[node as int].up ==> b.pending == s.pending
            &&& s.nodes[node as int].up && !b.nodes[node as int].up ==> forall|i: int|
                0 <= i < s.leases.len() ==> #[trigger] b.leases[i] == (LeaseState {
                    grantor: GrantorState {
                        intended: s.leases[i].grantor.intended && s.leases[i].id.grantor != node,
                        ..s.leases[i].grantor
                    },
                    ..s.leases[i]
                })
            &&& !(s.nodes[node as int].up && !b.nodes[node as int].up) ==> b.leases == s.leases
            &&& b.rounds == s.rounds
            &&& b.in_flight == s.in_flight
            &&& b.rng == s.rng.next()
        }),
{
    reveal(Sim::fault_trial);
    reveal(Sim::fail_node);
    reveal(Sim::recover_node);
}

/// Each time a node wakes, its draw decides. A node that is up goes down exactly if the
/// draw is below its chance of failing; one that is down comes back exactly if the draw
/// is below its chance of recovering. Either is reported at once, and no other node is
/// affected.
pub proof fn law_waking_decides_faults(s: Sim, node: NodeId)
    requires
        wakes(s, node),
    ensures
        ({
            let b = s.step();
            let c = s.cfg.nodes[node as int];
            let n = s.pending.len() as int;
            let at = s.queue[0].at;
            &&& s.nodes[node as int].up ==> (b.nodes[node as int].up <==> s.rng.unit()
                >= c.fail_chance.num)
            &&& !s.nodes[node as int].up ==> (b.nodes[node as int].up <==> s.rng.unit()
                < c.recover_chance.num)
            &&& forall|m: int|
                0 <= m < s.nodes.len() && m != node ==> (#[trigger] b.nodes[m]).up == s.nodes[m].up
            &&& s.nodes[node as int].up && !b.nodes[node as int].up ==> n < b.pending.len()
                && b.pending[n] == (Event { at, kind: EventKind::NodeFailed { node } })
            &&& !s.nodes[node as int].up && b.nodes[node as int].up ==> n < b.pending.len()
                && b.pending[n] == (Event { at, kind: EventKind::NodeRecovered { node } })
        }),
{
    lemma_popped(s);
    let a = s.popped();
    lemma_poll_parts(a, node);
    lemma_fault_trial_effect(a, node);
    let s1 = a.fault_trial(node);
    let s2 = attended(s1, node);
    let s3 = s2.recompute_statuses(node, s2.leases.len() as int);
    lemma_leads_to_trans(s1, s2, s3, 0, 0);
    let b = s.step();
    let n = s.pending.len() as int;
    assert(s2.nodes[node as int].up == s1.nodes[node as int].up);
    assert forall|m: int| 0 <= m < s.nodes.len() && m != node implies (#[trigger] b.nodes[m]).up
        == s.nodes[m].up by {
        assert(s2.nodes[m].up == s1.nodes[m].up);
        assert(s1.nodes[m] == a.nodes[m]);
    }
    if s1.pending.len() > n {
        assert(b.pending[n] == s1.pending[n]);
    }
}

/// A node that is certain to recover does so the next time it wakes, and one that
/// cannot fail stays up.
pub proof fn law_certain_faults_happen(s: Sim, node: NodeId)
    requires
        wakes(s, node),
    ensures
        ({
            let b = s.step();
            let c = s.cfg.nodes[node as int];
            let up = s.nodes[node as int].up;
            &&& !up && c.recover_chance.num >= crate::rounding::UNIT ==> b.nodes[node as int].up
            &&& !up && c.recover_chance.num == 0 ==> !b.nodes[node as int].up
            &&& up && c.fail_chance.num >= crate::rounding::UNIT ==> !b.nodes[node as int].up
            &&& up && c.fail_chance.num == 0 ==> b.nodes[node as int].up
        }),
{
    law_waking_decides_faults(s, node);
    let x = s.rng.output();
    assert(x >> 11 < 9_007_199_254_740_992) by (bit_vector);
}

// ---- Grants ----------------------------------------------------------------

/// A trial to start lease `j` leaves every other lease alone, and lease `j` unless it is
/// idle and the node's.
proof fn lemma_trial_leaves(s: Sim, node: NodeId, j: usize)
    requires
        s.ok(),
        j < s.leases.len(),
    ensures
        s.initiate_trial(node, j).leases.len() == s.leases.len(),
        forall|i: int|
            0 <= i < s.leases.len() && (i != j || s.leases[i].id.grantor != node
                || !s.leases[i].idle()) ==> #[trigger] s.initiate_trial(node, j).leases[i]
                == s.leases[i],
{
    lemma_begin_guard_effect(s.draw(), j);
}

proof fn lemma_initiate_leaves(s: Sim, node: NodeId, k: int)
    requires
        s.ok(),
        sized(s),
        0 <= k <= s.leases.len(),
    ensures
        s.maybe_initiate(node, k).leases.len() == s.leases.len(),
        forall|i: int|
            0 <= i < s.leases.len() && (i >= k || s.leases[i].id.grantor != node
                || !s.leases[i].idle()) ==> #[trigger] s.maybe_initiate(node, k).leases[i]
                == s.leases[i],
    decreases k,
{
    if k > 0 && !s.nodes[node as int].write_frozen {
        lemma_initiate_leaves(s, node, k - 1);
        lemma_maybe_initiate(s, node, k - 1);
        let a = s.maybe_initiate(node, k - 1);
        lemma_trial_leaves(a, node, (k - 1) as usize);
        assert forall|i: int|
            0 <= i < s.leases.len() && (i >= k || s.leases[i].id.grantor != node
                || !s.leases[i].idle()) implies #[trigger] s.maybe_initiate(node, k).leases[i]
            == s.leases[i] by {
            assert(a.leases[i] == s.leases[i]);
        }
    }
}

/// Once it has given up on writes, a node that is up leaves a guard alone that is not its
/// own, or not stale.
pub proof fn lemma_tend_keeps_guard(s: Sim, node: NodeId, i: int)
    requires
        s.ok(),
        sized(s),
        node < s.nodes.len(),
        0 <= i < s.leases.len(),
        ({
            let l = s.abort_stale_writes(node).leases[i];
            &&& l.grantor.status == LeaseStatus::Guarding
            &&& l.id.grantor != node || s.local(node) - l.grantor.guard_since
                < s.cfg.params.t_guard - s.cfg.params.t_delta
        }),
    ensures
        s.tend(node).leases.len() == s.leases.len(),
        s.tend(node).leases[i] == s.abort_stale_writes(node).leases[i],
{
    reveal(Sim::tend);
    lemma_abort_leaves(s, node);
    lemma_abort_stale_writes(s, node);
    let s1 = s.abort_stale_writes(node);
    lemma_expire_stale_guards(s1, node);
    let s2 = s1.expire_stale_guards(node);
    lemma_expire_stale_renews(s2, node);
    let s3 = s2.expire_stale_renews(node);
    assert(s2.leases[i] == crate::sim::guard_given_up(
        s1.leases[i],
        node,
        s1.local(node),
        s1.params().guard_len(),
    )) by {
        reveal(Sim::expire_stale_guards);
    }
    assert(s3.leases[i] == crate::sim::renew_given_up(s2.leases[i], node, s2.local(node))) by {
        reveal(Sim::expire_stale_renews);
    }
    let n = s3.leases.len() as int;
    lemma_maybe_initiate(s3, node, n);
    lemma_initiate_leaves(s3, node, n);
    let s4 = s3.maybe_initiate(node, n);
    lemma_service_lease(s4, node, s4.leases.len() as int, i);
}

/// The grantor's side after it sent a renew at a time at which its clock shows `local`.
pub open spec fn renewed(s: Sim, g: GrantorState, local: int) -> GrantorState {
    let p = s.cfg.params;
    let bound = local + p.t_guard + p.t_lease + 2 * p.t_delta;
    GrantorState {
        grant_expiry: if g.grant_expiry as int >= bound {
            g.grant_expiry
        } else {
            bound as Time
        },
        next_renew_due: (local + p.renew_interval) as Time,
        awaiting_reply: true,
        ..g
    }
}

/// The renew that goes out.
pub proof fn lemma_send_renew_told(s: Sim, i: usize)
    requires
        s.ok(),
        i < s.leases.len(),
    ensures
        ({
            let b = s.send_renew(i);
            let l = s.leases[i as int];
            &&& b.leases == s.leases.update(
                i as int,
                LeaseState { grantor: renewed(s, l.grantor, s.local(l.id.grantor)), ..l },
            )
            &&& b.pending.len() == s.pending.len() + 1
            &&& sends_renew(b.pending.last(), l.id)
            &&& b.pending.last().at == s.now
        }),
{
    reveal(Sim::send_renew);
    lemma_parties(s, i as int);
    let l = s.leases[i as int];
    let g = renewed(s, l.grantor, s.local(l.id.grantor));
    assert(crate::upkeep::grantor_ok(l.grantor));
    lemma_with_grantor(s, i as int, g);
    let s1 = s.with_grantor(i as int, g);
    lemma_send(s1, l.id.grantor, l.id.grantee, MsgKind::Renew, i);
    lemma_send_live(s1, l.id.grantor, l.id.grantee, MsgKind::Renew, i);
}

/// The renew of lease `i`, if one is due, goes out, and nothing else about it happens.
proof fn lemma_service_lease(s: Sim, node: NodeId, k: int, i: int)
    requires
        s.ok(),
        sized(s),
        0 <= k <= s.leases.len(),
        0 <= i < s.leases.len(),
    ensures
        ({
            let b = s.service_grants(node, k);
            let l = s.leases[i];
            let due = l.id.grantor == node && l.grantor.intended && l.grantor.status
                == LeaseStatus::Active && !l.grantor.awaiting_reply && s.local(node)
                >= l.grantor.next_renew_due;
            &&& b.leases.len() == s.leases.len()
            &&& i < k && due ==> {
                &&& b.leases[i] == (LeaseState {
                    grantor: renewed(s, l.grantor, s.local(node)),
                    ..l
                })
                &&& exists|m: int|
                    s.pending.len() <= m < b.pending.len() && sends_renew(
                        #[trigger] b.pending[m],
                        l.id,
                    ) && b.pending[m].at == s.now
            }
            &&& !(i < k && due) ==> b.leases[i] == l
        }),
    decreases k,
{
    if k > 0 {
        lemma_service_lease(s, node, k - 1, i);
        lemma_service_grants(s, node, k - 1);
        let a = s.service_grants(node, k - 1);
        let b = s.service_grants(node, k);
        let j = (k - 1) as usize;
        lemma_send_renew_told(a, j);
        lemma_send_renew(a, j);
        let l = s.leases[i];
        if i < k - 1 && l.id.grantor == node && l.grantor.intended && l.grantor.status
            == LeaseStatus::Active && !l.grantor.awaiting_reply && s.local(node)
            >= l.grantor.next_renew_due {
            let m = choose|m: int|
                s.pending.len() <= m < a.pending.len() && sends_renew(#[trigger] a.pending[m], l.id)
                    && a.pending[m].at == s.now;
            assert(b.pending[m] == a.pending[m]);
        } else if i == k - 1 && a.renew_due(node, i) {
            let m = a.pending.len() as int;
            assert(b.pending[m] == b.pending.last());
            assert(s.pending.is_prefix_of(a.pending));
        }
    }
}

/// The node's look at what has lapsed of lease `i`.
pub proof fn lemma_recompute_lease(s: Sim, node: NodeId, k: int, i: int)
    requires
        s.ok(),
        0 <= k <= s.leases.len(),
        0 <= i < s.leases.len(),
    ensures
        ({
            let b = s.recompute_statuses(node, k);
            let l = s.leases[i];
            &&& b.leases.len() == s.leases.len()
            &&& b.leases[i].id == l.id
            &&& b.leases[i].grantor == if i < k && l.id.grantor == node && l.grantor.status
                == LeaseStatus::Active && s.local(node) > l.grantor.grant_expiry {
                GrantorState { status: LeaseStatus::Expired, ..l.grantor }
            } else {
                l.grantor
            }
            &&& b.leases[i].grantee == if i < k && l.id.grantee == node && (l.grantee.status
                == LeaseStatus::Active && s.local(node) > l.grantee.hold_expiry
                || l.grantee.status == LeaseStatus::Guarding && s.local(node)
                > l.grantee.guard_deadline) {
                GranteeState { status: LeaseStatus::Expired, ..l.grantee }
            } else {
                l.grantee
            }
            &&& b.in_flight == s.in_flight
        }),
    decreases k,
{
    if k > 0 {
        lemma_recompute_lease(s, node, k - 1, i);
        lemma_recompute_statuses(s, node, k - 1);
        let a = s.recompute_statuses(node, k - 1);
        lemma_recompute_grantor(a, node, k - 1);
    }
}

/// A grantor that waits for neither its guard nor a commit: what becomes of lease `i`
/// while the node, which is up, does its work.
proof fn lemma_tend_lease(s: Sim, node: NodeId, i: int)
    requires
        s.ok(),
        sized(s),
        node < s.nodes.len(),
        0 <= i < s.leases.len(),
        s.leases[i].id.grantor == node,
        !s.leases[i].grantor.reguard_on_thaw,
    ensures
        ({
            let b = s.tend(node);
            let l = s.leases[i];
            let g = l.grantor;
            let local = s.local(node);
            let intends = g.intended && local - g.last_reply < 1500;
            let due = intends && !g.awaiting_reply && local >= g.next_renew_due;
            &&& b.leases.len() == s.leases.len()
            &&& b.leases[i].id == l.id
            &&& b.leases[i].grantee == l.grantee
            &&& g.status == LeaseStatus::Active ==> {
                &&& due ==> b.leases[i].grantor == renewed(s, g, local) && exists|m: int|
                    s.pending.len() <= m < b.pending.len() && sends_renew(
                        #[trigger] b.pending[m],
                        l.id,
                    ) && b.pending[m].at == s.now
                &&& !due ==> b.leases[i].grantor == (GrantorState { intended: intends, ..g })
            }
            &&& g.status == LeaseStatus::Guarding && local - g.guard_since
                < s.cfg.params.t_guard - s.cfg.params.t_delta ==> b.leases[i].grantor == g
        }),
{
    reveal(Sim::tend);
    lemma_abort_leaves(s, node);
    lemma_abort_stale_writes(s, node);
    let s1 = s.abort_stale_writes(node);
    lemma_expire_stale_guards(s1, node);
    let s2 = s1.expire_stale_guards(node);
    lemma_expire_stale_renews(s2, node);
    let s3 = s2.expire_stale_renews(node);
    lemma_parties(s, i);
    assert(s1.leases[i] == s.leases[i]);
    assert(s2.leases[i] == crate::sim::guard_given_up(
        s1.leases[i],
        node,
        s1.local(node),
        s1.params().guard_len(),
    )) by {
        reveal(Sim::expire_stale_guards);
    }
    assert(s3.leases[i] == crate::sim::renew_given_up(s2.leases[i], node, s2.local(node))) by {
        reveal(Sim::expire_stale_renews);
    }
    let n = s3.leases.len() as int;
    lemma_maybe_initiate(s3, node, n);
    lemma_initiate_leaves(s3, node, n);
    let s4 = s3.maybe_initiate(node, n);
    lemma_initiate_grantee(s3, node, n, i);
    lemma_service_lease(s4, node, s4.leases.len() as int, i);
    lemma_service_grants(s4, node, s4.leases.len() as int);
    let b = s.tend(node);
    lemma_leads_to_trans(s, s1, s2, 0, 0);
    lemma_leads_to_trans(s, s2, s3, 0, 0);
    lemma_leads_to_trans(s, s3, s4, 0, 0);
    assert(s.pending.len() <= s4.pending.len());
    if s.leases[i].grantor.status == LeaseStatus::Active {
        assert(s4.leases[i] == s3.leases[i]);
    }
}

/// Starting leases is of no concern to grantees.
proof fn lemma_initiate_grantee(s: Sim, node: NodeId, k: int, i: int)
    requires
        s.ok(),
        sized(s),
        0 <= k <= s.leases.len(),
        0 <= i < s.leases.len(),
    ensures
        s.maybe_initiate(node, k).leases[i].grantee == s.leases[i].grantee,
        s.maybe_initiate(node, k).leases[i].id == s.leases[i].id,
    decreases k,
{
    if k > 0 && !s.nodes[node as int].write_frozen {
        lemma_initiate_grantee(s, node, k - 1, i);
        lemma_maybe_initiate(s, node, k - 1);
        let a = s.maybe_initiate(node, k - 1);
        lemma_begin_guard_effect(a.draw(), (k - 1) as usize);
    }
}

/// What a node that is up does for an active grant when it wakes. It stops intending the
/// lease once the grantee has been silent for 1500 ticks of the node's clock. If it
/// intends it, has an answer to the last renew, and the next one is due, it sends it
/// there and then, and promises the lease anew. Last, if its clock is past the promise,
/// the grant is over.
pub proof fn law_waking_tends_active_grant(s: Sim, node: NodeId, i: int)
    requires
        wakes(s, node),
        s.nodes[node as int].up,
        wakes_up(s, node),
        0 <= i < s.leases.len(),
        s.leases[i].id.grantor == node,
        s.leases[i].grantor.status == LeaseStatus::Active,
        !s.leases[i].grantor.reguard_on_thaw,
    ensures
        ({
            let b = s.step();
            let (g, h) = (s.leases[i].grantor, b.leases[i].grantor);
            let local = shows(s, node);
            let intends = g.intended && local - g.last_reply < 1500;
            let due = intends && !g.awaiting_reply && local >= g.next_renew_due;
            let after = if due {
                renewed(s, g, local)
            } else {
                GrantorState { intended: intends, ..g }
            };
            &&& due ==> exists|m: int|
                s.pending.len() <= m < b.pending.len() && sends_renew(
                    #[trigger] b.pending[m],
                    s.cfg.leases[i],
                ) && b.pending[m].at == s.queue[0].at
            &&& local <= after.grant_expiry ==> h == after
            &&& local > after.grant_expiry ==> h == (GrantorState {
                status: LeaseStatus::Expired,
                ..after
            })
        }),
{
    lemma_popped(s);
    let a = s.popped();
    lemma_poll_parts(a, node);
    lemma_fault_trial_effect(a, node);
    let s1 = a.fault_trial(node);
    lemma_parties(a, i);
    lemma_tend_lease(s1, node, i);
    let s2 = s1.tend(node);
    lemma_recompute_lease(s2, node, s2.leases.len() as int, i);
    let b = s.step();
    let g = s.leases[i].grantor;
    let local = shows(s, node);
    if g.intended && local - g.last_reply < 1500 && !g.awaiting_reply && local >= g.next_renew_due {
        let m = choose|m: int|
            s1.pending.len() <= m < s2.pending.len() && sends_renew(
                #[trigger] s2.pending[m],
                s.leases[i].id,
            ) && s2.pending[m].at == s1.now;
        assert(b.pending[m] == s2.pending[m]);
    }
}

/// Renews go out every renew interval: the first time the grantor of a lease that is
/// active, intended and confirmed wakes when the renew interval has passed, by its clock,
/// since the last renew was sent, it sends another. (`events` are all the events before.)
pub proof fn law_due_renew_goes_out(s: Sim, events: Seq<Event>, i: int, j: int)
    requires
        faithful_so_far(s, events, i),
        declared_once(s.cfg, i),
        wakes(s, s.cfg.leases[i].grantor),
        s.nodes[s.cfg.leases[i].grantor as int].up,
        wakes_up(s, s.cfg.leases[i].grantor),
        s.leases[i].grantor.status == LeaseStatus::Active,
        s.leases[i].grantor.intended,
        !s.leases[i].grantor.awaiting_reply,
        shows(s, s.cfg.leases[i].grantor) - s.leases[i].grantor.last_reply < 1500,
        0 <= j < events.len(),
        sends_renew(events[j], s.cfg.leases[i]),
        forall|m: int| j < m < events.len() ==> !sends_renew(#[trigger] events[m], s.cfg.leases[i]),
        ({
            let clock = s.cfg.nodes[s.cfg.leases[i].grantor as int].clock;
            clock.reading(s.queue[0].at as int) - clock.reading(events[j].at as int)
                >= s.cfg.params.renew_interval
        }),
    ensures
        exists|m: int|
            0 <= m < s.step().pending.len() && sends_renew(
                #[trigger] s.step().pending[m],
                s.cfg.leases[i],
            ) && s.step().pending[m].at == s.queue[0].at,
{
    law_next_renew_is_known(s, events, i, j);
    lemma_parties(s, i);
    let h = Sim { pending: events, ..s };
    assert(!h.leases[i].grantor.reguard_on_thaw);
    law_waking_tends_active_grant(s, s.cfg.leases[i].grantor, i);
    let b = s.step();
    let m = choose|m: int|
        s.pending.len() <= m < b.pending.len() && sends_renew(
            #[trigger] b.pending[m],
            s.cfg.leases[i],
        ) && b.pending[m].at == s.queue[0].at;
    assert(sends_renew(s.step().pending[m], s.cfg.leases[i]));
}

/// A guard that is not yet answered is kept while the guard window, `t_guard - t_delta`
/// ticks of the grantor's clock, lasts.
pub proof fn law_waking_keeps_open_guard(s: Sim, node: NodeId, i: int)
    requires
        wakes(s, node),
        s.nodes[node as int].up,
        wakes_up(s, node),
        0 <= i < s.leases.len(),
        s.leases[i].id.grantor == node,
        s.leases[i].grantor.status == LeaseStatus::Guarding,
        !s.leases[i].grantor.reguard_on_thaw,
        shows(s, node) - s.leases[i].grantor.guard_since < s.cfg.params.t_guard
            - s.cfg.params.t_delta,
    ensures
        s.step().leases[i].grantor == s.leases[i].grantor,
{
    lemma_popped(s);
    let a = s.popped();
    lemma_poll_parts(a, node);
    lemma_fault_trial_effect(a, node);
    let s1 = a.fault_trial(node);
    lemma_parties(a, i);
    lemma_tend_lease(s1, node, i);
    let s2 = s1.tend(node);
    lemma_recompute_lease(s2, node, s2.leases.len() as int, i);
}

/// A guard that has gone unanswered for the whole guard window, `t_guard - t_delta` ticks
/// of the grantor's clock, is given up when the grantor wakes: it is idle again, unless
/// it starts the lease afresh in the same moment. Its promise stays as it was.
pub proof fn law_waking_gives_up_stale_guard(s: Sim, node: NodeId, i: int)
    requires
        wakes(s, node),
        s.nodes[node as int].up,
        wakes_up(s, node),
        0 <= i < s.leases.len(),
        s.leases[i].id.grantor == node,
        s.leases[i].grantor.status == LeaseStatus::Guarding,
        !s.leases[i].grantor.reguard_on_thaw,
        shows(s, node) - s.leases[i].grantor.guard_since >= s.cfg.params.t_guard
            - s.cfg.params.t_delta,
    ensures
        ({
            let (g, h) = (s.leases[i].grantor, s.step().leases[i].grantor);
            &&& h.grant_expiry == g.grant_expiry
            &&& {
                ||| h == (GrantorState { status: LeaseStatus::Inactive, intended: false, ..g })
                ||| {
                    &&& s.cfg.nodes[node as int].initiate_chance.num > 0
                    &&& h.status == LeaseStatus::Guarding
                    &&& h.intended
                    &&& h.guard_since == shows(s, node)
                }
            }
        }),
{
    lemma_popped(s);
    let a = s.popped();
    lemma_poll_parts(a, node);
    lemma_fault_trial_effect(a, node);
    let s1 = a.fault_trial(node);
    lemma_parties(a, i);
    lemma_idle_lease(s1, node, i);
    let s2 = s1.tend(node);
    lemma_recompute_lease(s2, node, s2.leases.len() as int, i);
}

/// The state in which the node, which is up, looks for leases to start.
spec fn looking(s: Sim, node: NodeId) -> Sim {
    s.abort_stale_writes(node).expire_stale_guards(node).expire_stale_renews(node)
}

/// What leads up to that moment leaves leases alone that are neither lapsing nor torn
/// down.
proof fn lemma_looking(s: Sim, node: NodeId)
    requires
        s.ok(),
        sized(s),
        node < s.nodes.len(),
    ensures
        ({
            let a = looking(s, node);
            let window = s.cfg.params.t_guard - s.cfg.params.t_delta;
            &&& s.leads_to(a, 0)
            &&& sized(a)
            &&& a.nodes == s.abort_stale_writes(node).nodes
            &&& s.rounds.len() == 0 ==> a.nodes == s.nodes && a.rng == s.rng && a.pending
                == s.pending
            &&& forall|i: int|
                0 <= i < s.leases.len() && !s.leases[i].grantor.reguard_on_thaw ==> {
                    let (g, h) = (s.leases[i].grantor, (#[trigger] a.leases[i]).grantor);
                    &&& a.leases[i].id == s.leases[i].id
                    &&& a.leases[i].grantee == s.leases[i].grantee
                    &&& s.leases[i].idle() ==> h == g
                    &&& g.status == LeaseStatus::Guarding && s.leases[i].id.grantor == node
                        && s.local(node) - g.guard_since >= window ==> h == (GrantorState {
                        status: LeaseStatus::Inactive,
                        intended: false,
                        ..g
                    })
                    &&& g.status == LeaseStatus::Active ==> h.status == LeaseStatus::Active
                }
        }),
{
    lemma_abort_leaves(s, node);
    lemma_abort_stale_writes(s, node);
    let s1 = s.abort_stale_writes(node);
    lemma_expire_stale_guards(s1, node);
    let s2 = s1.expire_stale_guards(node);
    lemma_expire_stale_renews(s2, node);
    let s3 = s2.expire_stale_renews(node);
    lemma_leads_to_trans(s, s1, s2, 0, 0);
    lemma_leads_to_trans(s, s2, s3, 0, 0);
    assert(s.rounds.len() == 0 ==> s1 == s) by {
        reveal(Sim::abort_stale_writes);
    }
    reveal(Sim::expire_stale_guards);
    reveal(Sim::expire_stale_renews);
    assert forall|i: int|
        0 <= i < s.leases.len() && !s.leases[i].grantor.reguard_on_thaw implies {
        let (g, h) = (s.leases[i].grantor, (#[trigger] s3.leases[i]).grantor);
        &&& s3.leases[i].id == s.leases[i].id
        &&& s3.leases[i].grantee == s.leases[i].grantee
        &&& s.leases[i].idle() ==> h == g
        &&& g.status == LeaseStatus::Guarding && s.leases[i].id.grantor == node && s.local(node)
            - g.guard_since >= s.cfg.params.t_guard - s.cfg.params.t_delta ==> h == (GrantorState {
            status: LeaseStatus::Inactive,
            intended: false,
            ..g
        })
        &&& g.status == LeaseStatus::Active ==> h.status == LeaseStatus::Active
    } by {
        assert(s1.leases[i] == s.leases[i]);
        assert(s2.leases[i] == crate::sim::guard_given_up(
            s1.leases[i],
            node,
            s1.local(node),
            s1.params().guard_len(),
        ));
        assert(s3.leases[i] == crate::sim::renew_given_up(s2.leases[i], node, s2.local(node)));
    }
}

/// The trials of later leases leave what the trial of lease `i` did.
proof fn lemma_initiate_from(s: Sim, node: NodeId, k: int, i: int)
    requires
        s.ok(),
        sized(s),
        0 <= i < k <= s.leases.len(),
        !s.nodes[node as int].write_frozen,
    ensures
        ({
            let a = s.maybe_initiate(node, i);
            let c = a.initiate_trial(node, i as usize);
            let b = s.maybe_initiate(node, k);
            &&& a.ok()
            &&& c.ok()
            &&& a.nodes == s.nodes
            &&& a.cfg == s.cfg
            &&& a.now == s.now
            &&& a.leases[i] == s.leases[i]
            &&& a.leases.len() == s.leases.len()
            &&& s.pending.is_prefix_of(a.pending)
            &&& b.leases[i] == c.leases[i]
            &&& c.pending.is_prefix_of(b.pending)
        }),
    decreases k,
{
    lemma_maybe_initiate(s, node, i);
    lemma_initiate_leaves(s, node, i);
    let a = s.maybe_initiate(node, i);
    lemma_initiate_trial(a, node, i as usize);
    let c = a.initiate_trial(node, i as usize);
    if k == i + 1 {
        assert(s.maybe_initiate(node, k) == c);
        assert(c.pending.is_prefix_of(c.pending));
    } else {
        lemma_initiate_from(s, node, k - 1, i);
        lemma_maybe_initiate(s, node, k - 1);
        lemma_initiate_leaves(s, node, k - 1);
        let d = s.maybe_initiate(node, k - 1);
        lemma_trial_leaves(d, node, (k - 1) as usize);
        lemma_initiate_trial(d, node, (k - 1) as usize);
        let b = s.maybe_initiate(node, k);
        assert(b.leases[i] == d.leases[i]);
        assert(c.pending.is_prefix_of(b.pending)) by {
            assert forall|m: int| 0 <= m < c.pending.len() implies c.pending[m]
                == b.pending[m] by {
                assert(c.pending[m] == d.pending[m]);
            }
            assert(c.pending =~= b.pending.take(c.pending.len() as int));
        }
    }
}

/// What one trial does to its lease.
proof fn lemma_trial(s: Sim, node: NodeId, i: usize)
    requires
        s.ok(),
        i < s.leases.len(),
        s.leases[i as int].id.grantor == node,
        s.leases[i as int].idle(),
    ensures
        ({
            let b = s.initiate_trial(node, i);
            let l = s.leases[i as int];
            let opens = s.rng.unit() < s.cfg.nodes[node as int].initiate_chance.num;
            &&& b.leases[i as int] == if opens {
                LeaseState { grantor: guarded(l.grantor, s.local(node)), ..l }
            } else {
                l
            }
            &&& opens ==> b.pending.len() == s.pending.len() + 1 && sends_guard(
                b.pending.last(),
                l.id,
            ) && b.pending.last().at == s.now
        }),
{
    let a = s.draw();
    crate::upkeep::lemma_draw(s, s.rng.next());
    lemma_parties(a, i as int);
    lemma_guard_told(a, i);
}

/// The event reports that a guard of the lease was sent.
pub open spec fn sends_guard(e: Event, id: crate::event::LeaseId) -> bool {
    e.kind matches EventKind::MessageSent { from, to, kind, .. } && from == id.grantor && to
        == id.grantee && kind == MsgKind::Guard
}

/// The grantor's side after it opened a guard when its clock showed `local`.
pub open spec fn guarded(g: GrantorState, local: int) -> GrantorState {
    GrantorState {
        status: LeaseStatus::Guarding,
        intended: true,
        awaiting_reply: false,
        reguard_on_thaw: false,
        guard_since: local as Time,
        ..g
    }
}

/// A guard that is opened is told.
pub proof fn lemma_guard_told(s: Sim, i: usize)
    requires
        s.ok(),
        i < s.leases.len(),
    ensures
        ({
            let b = s.begin_guard(i);
            let l = s.leases[i as int];
            &&& b.leases == s.leases.update(
                i as int,
                LeaseState { grantor: guarded(l.grantor, s.local(l.id.grantor)), ..l },
            )
            &&& b.pending.len() == s.pending.len() + 1
            &&& sends_guard(b.pending.last(), l.id)
            &&& b.pending.last().at == s.now
        }),
{
    reveal(Sim::begin_guard);
    lemma_parties(s, i as int);
    let l = s.leases[i as int];
    let g = guarded(l.grantor, s.local(l.id.grantor));
    lemma_with_grantor(s, i as int, g);
    let s1 = s.with_grantor(i as int, g);
    lemma_send(s1, l.id.grantor, l.id.grantee, MsgKind::Guard, i);
    lemma_send_live(s1, l.id.grantor, l.id.grantee, MsgKind::Guard, i);
}

/// What a node that is up does for a lease that it grants and that is idle once lapsed
/// guards are given up: nothing, or it starts it.
proof fn lemma_idle_lease(s: Sim, node: NodeId, i: int)
    requires
        s.ok(),
        sized(s),
        node < s.nodes.len(),
        0 <= i < s.leases.len(),
        s.leases[i].id.grantor == node,
        !s.leases[i].grantor.reguard_on_thaw,
        s.leases[i].idle() || s.leases[i].grantor.status == LeaseStatus::Guarding && s.local(node)
            - s.leases[i].grantor.guard_since >= s.cfg.params.t_guard - s.cfg.params.t_delta,
    ensures
        ({
            let b = s.tend(node);
            let l = s.leases[i];
            let chance = s.cfg.nodes[node as int].initiate_chance.num;
            let frozen = looking(s, node).nodes[node as int].write_frozen;
            let idle = if l.idle() {
                l.grantor
            } else {
                GrantorState { status: LeaseStatus::Inactive, intended: false, ..l.grantor }
            };
            let h = b.leases[i].grantor;
            let draw = looking(s, node).maybe_initiate(node, i).rng.unit();
            let opens = !frozen && draw < chance;
            &&& b.leases.len() == s.leases.len()
            &&& b.leases[i].id == l.id
            &&& b.leases[i].grantee == l.grantee
            &&& h == if opens {
                guarded(idle, s.local(node))
            } else {
                idle
            }
            &&& opens ==> exists|m: int|
                s.pending.len() <= m < b.pending.len() && sends_guard(#[trigger] b.pending[m], l.id)
                    && b.pending[m].at == s.now
        }),
{
    reveal(Sim::tend);
    lemma_looking(s, node);
    lemma_parties(s, i);
    let s3 = looking(s, node);
    let n = s3.leases.len() as int;
    lemma_maybe_initiate(s3, node, n);
    let s4 = s3.maybe_initiate(node, n);
    lemma_service_lease(s4, node, s4.leases.len() as int, i);
    lemma_service_grants(s4, node, s4.leases.len() as int);
    let b = s.tend(node);
    if s3.nodes[node as int].write_frozen {
        assert(s4 == s3);
    } else {
        lemma_initiate_from(s3, node, n, i);
        let a = s3.maybe_initiate(node, i);
        lemma_trial(a, node, i as usize);
        let c = a.initiate_trial(node, i as usize);
        if a.rng.unit() < s.cfg.nodes[node as int].initiate_chance.num {
            let m = a.pending.len() as int;
            assert(c.pending[m] == c.pending.last());
            assert(s4.pending[m] == c.pending[m]);
            assert(b.pending[m] == s4.pending[m]);
        }
    }
}

/// As long as no lease is up for a trial, no draw is taken.
proof fn lemma_no_trials(s: Sim, node: NodeId, k: int)
    requires
        0 <= k <= s.leases.len(),
        forall|j: int|
            0 <= j < k ==> (#[trigger] s.leases[j]).id.grantor != node || !s.leases[j].idle(),
        s.leases.len() <= usize::MAX,
    ensures
        s.maybe_initiate(node, k) == s,
    decreases k,
{
    if k > 0 && !s.nodes[node as int].write_frozen {
        lemma_no_trials(s, node, k - 1);
        assert(s.leases[k - 1].id.grantor != node || !s.leases[k - 1].idle());
    }
}

/// A node that is up starts a lease that it grants and that is idle, when it wakes,
/// exactly if its draw is below its chance of starting one: for the first such lease,
/// the draw after the one that decides on a crash. Then it guards from that moment on, and
/// the guard goes out. If it does not start it, its side stays as it is.
pub proof fn law_waking_may_start_lease(s: Sim, node: NodeId, i: int)
    requires
        wakes(s, node),
        s.nodes[node as int].up,
        wakes_up(s, node),
        !s.nodes[node as int].write_frozen,
        s.rounds.len() == 0,
        0 <= i < s.leases.len(),
        s.leases[i].id.grantor == node,
        s.leases[i].idle(),
        !s.leases[i].grantor.reguard_on_thaw,
        forall|j: int|
            0 <= j < i && (#[trigger] s.leases[j]).id.grantor == node ==> s.leases[j].grantor.status
                == LeaseStatus::Active && !s.leases[j].grantor.reguard_on_thaw,
    ensures
        ({
            let b = s.step();
            let (g, h) = (s.leases[i].grantor, b.leases[i].grantor);
            let starts = s.rng.next().unit() < s.cfg.nodes[node as int].initiate_chance.num;
            &&& starts ==> h == guarded(g, shows(s, node)) && exists|m: int|
                s.pending.len() <= m < b.pending.len() && sends_guard(
                    #[trigger] b.pending[m],
                    s.cfg.leases[i],
                ) && b.pending[m].at == s.queue[0].at
            &&& !starts ==> h == g
        }),
{
    lemma_popped(s);
    let a = s.popped();
    lemma_poll_parts(a, node);
    lemma_fault_trial_effect(a, node);
    let s1 = a.fault_trial(node);
    lemma_parties(a, i);
    lemma_looking(s1, node);
    let s3 = looking(s1, node);
    assert forall|j: int| 0 <= j < i implies (#[trigger] s3.leases[j]).id.grantor != node
        || !s3.leases[j].idle() by {
        lemma_parties(s1, j);
        lemma_parties(s3, j);
        if s1.leases[j].id.grantor == node {
            assert(s.leases[j].id.grantor == node);
            assert(s3.leases[j].grantor.status == LeaseStatus::Active);
        }
    }
    lemma_no_trials(s3, node, i);
    lemma_idle_lease(s1, node, i);
    let s2 = s1.tend(node);
    lemma_recompute_lease(s2, node, s2.leases.len() as int, i);
    let b = s.step();
    if s.rng.next().unit() < s.cfg.nodes[node as int].initiate_chance.num {
        let m = choose|m: int|
            s1.pending.len() <= m < s2.pending.len() && sends_guard(
                #[trigger] s2.pending[m],
                s1.leases[i].id,
            ) && s2.pending[m].at == s1.now;
        assert(b.pending[m] == s2.pending[m]);
    }
}

/// Where no write is outstanding, a node that is certain to start leases starts, when it
/// wakes up and is not frozen for a write, every idle lease that it grants; one that
/// never starts any by itself, or is frozen, starts none.
pub proof fn law_certain_starts_happen(s: Sim, node: NodeId, i: int)
    requires
        wakes(s, node),
        s.nodes[node as int].up,
        wakes_up(s, node),
        s.rounds.len() == 0,
        0 <= i < s.leases.len(),
        s.leases[i].id.grantor == node,
        s.leases[i].idle(),
        !s.leases[i].grantor.reguard_on_thaw,
    ensures
        ({
            let (g, h) = (s.leases[i].grantor, s.step().leases[i].grantor);
            let chance = s.cfg.nodes[node as int].initiate_chance.num;
            let frozen = s.nodes[node as int].write_frozen;
            &&& chance >= crate::rounding::UNIT && !frozen ==> h == guarded(g, shows(s, node))
            &&& chance == 0 || frozen ==> h == g
        }),
{
    lemma_popped(s);
    let a = s.popped();
    lemma_poll_parts(a, node);
    lemma_fault_trial_effect(a, node);
    let s1 = a.fault_trial(node);
    lemma_parties(a, i);
    lemma_looking(s1, node);
    lemma_idle_lease(s1, node, i);
    let s2 = s1.tend(node);
    lemma_recompute_lease(s2, node, s2.leases.len() as int, i);
    let x = looking(s1, node).maybe_initiate(node, i).rng.output();
    assert(x >> 11 < 9_007_199_254_740_992) by (bit_vector);
}

// ---- Holds and other parties -----------------------------------------------

/// Starting and renewing is done by grantors, for their own leases.
proof fn lemma_tend_others(s: Sim, node: NodeId, i: int)
    requires
        s.ok(),
        sized(s),
        node < s.nodes.len(),
        0 <= i < s.leases.len(),
        !s.leases[i].grantor.reguard_on_thaw,
    ensures
        ({
            let b = s.tend(node);
            &&& b.leases.len() == s.leases.len()
            &&& b.leases[i].id == s.leases[i].id
            &&& b.leases[i].grantee == s.leases[i].grantee
            &&& s.leases[i].id.grantor != node ==> b.leases[i] == s.leases[i]
        }),
{
    reveal(Sim::tend);
    lemma_abort_leaves(s, node);
    lemma_abort_stale_writes(s, node);
    let s1 = s.abort_stale_writes(node);
    lemma_expire_stale_guards(s1, node);
    let s2 = s1.expire_stale_guards(node);
    lemma_expire_stale_renews(s2, node);
    let s3 = s2.expire_stale_renews(node);
    assert(s1.leases[i] == s.leases[i]);
    assert(s2.leases[i] == crate::sim::guard_given_up(
        s1.leases[i],
        node,
        s1.local(node),
        s1.params().guard_len(),
    )) by {
        reveal(Sim::expire_stale_guards);
    }
    assert(s3.leases[i] == crate::sim::renew_given_up(s2.leases[i], node, s2.local(node))) by {
        reveal(Sim::expire_stale_renews);
    }
    let n = s3.leases.len() as int;
    lemma_maybe_initiate(s3, node, n);
    lemma_initiate_leaves(s3, node, n);
    let s4 = s3.maybe_initiate(node, n);
    lemma_initiate_grantee(s3, node, n, i);
    lemma_service_lease(s4, node, s4.leases.len() as int, i);
}

/// When a node wakes, up or down, what it holds ends exactly if its clock is past the
/// end of the hold, and a guard that it has answered exactly if its clock is past the
/// guard window; leases between other nodes are left alone. (A grant that a write tore
/// down is another matter.)
pub proof fn law_waking_ends_lapsed_holds(s: Sim, node: NodeId, i: int)
    requires
        wakes(s, node),
        0 <= i < s.leases.len(),
        !s.leases[i].grantor.reguard_on_thaw,
    ensures
        ({
            let (l, m) = (s.leases[i], s.step().leases[i]);
            let (g, h) = (l.grantee, m.grantee);
            let over = g.status == LeaseStatus::Active && shows(s, node) > g.hold_expiry
                || g.status == LeaseStatus::Guarding && shows(s, node) > g.guard_deadline;
            &&& m.id == l.id
            &&& l.id.grantee == node && over ==> h == (GranteeState {
                status: LeaseStatus::Expired,
                ..g
            })
            &&& l.id.grantee != node || !over ==> h == g
            &&& l.id.grantor != node ==> m.grantor == l.grantor
        }),
{
    lemma_popped(s);
    let a = s.popped();
    lemma_poll_parts(a, node);
    lemma_fault_trial_effect(a, node);
    let s1 = a.fault_trial(node);
    lemma_parties(a, i);
    if s1.nodes[node as int].up {
        lemma_tend_others(s1, node, i);
    }
    let s2 = attended(s1, node);
    lemma_recompute_lease(s2, node, s2.leases.len() as int, i);
}

/// A node that is down when it has woken sends nothing and touches no write; of its
/// grants it does no more than notice that a promise is over, and one that crashes stops
/// intending them.
pub proof fn law_down_node_only_notices(s: Sim, node: NodeId, i: int)
    requires
        wakes(s, node),
        !wakes_up(s, node),
        0 <= i < s.leases.len(),
        s.leases[i].id.grantor == node,
    ensures
        ({
            let b = s.step();
            let (g, h) = (s.leases[i].grantor, b.leases[i].grantor);
            let over = g.status == LeaseStatus::Active && shows(s, node) > g.grant_expiry;
            &&& b.in_flight == s.in_flight
            &&& b.rounds == s.rounds
            &&& h.status == if over {
                LeaseStatus::Expired
            } else {
                g.status
            }
            &&& h.intended == (g.intended && !s.nodes[node as int].up)
            &&& h.grant_expiry == g.grant_expiry
        }),
{
    lemma_popped(s);
    let a = s.popped();
    lemma_poll_parts(a, node);
    lemma_fault_trial_effect(a, node);
    let s1 = a.fault_trial(node);
    lemma_parties(a, i);
    assert(s1.leases[i].grantor.status == s.leases[i].grantor.status);
    lemma_recompute_lease(s1, node, s1.leases.len() as int, i);
}

/// Whether it is up or down, a node wakes again 50 ticks later, as long as the run lasts.
pub proof fn law_nodes_wake_regularly(s: Sim, node: NodeId)
    requires
        wakes(s, node),
        s.queue[0].at + 50 <= s.cfg.duration,
    ensures
        s.step().queue.contains(
            Timed { at: (s.queue[0].at + 50) as Time, item: Scheduled::Poll { node } },
        ),
{
    lemma_popped(s);
    crate::polling::law_poll_notices(s.popped(), node);
}

} // verus!
