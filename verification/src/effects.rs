//! What the parties of a lease do when a message reaches them or a command is given: the
//! whole of what follows at once.

use crate::clock::Time;
use crate::commits::{happens, sends};
use crate::delivery::{answers_after, lemma_reply_scheduled};
use crate::dist::is_rng_after;
use crate::event::{Command, Event, EventKind, LeaseId, LeaseStatus, MsgFate, MsgKind, NodeId};
use crate::moves::lemma_send_live;
use crate::sim::{GranteeState, GrantorState, LeaseState, NodeState, Sim};
use crate::tending::{guarded, lemma_guard_told, lemma_send_renew_told};
use crate::timeline::{Scheduled, Timed};
use crate::upkeep::{
    lemma_begin_guard, lemma_emit, lemma_lease_position, lemma_parties, lemma_popped, lemma_reply,
    lemma_send, lemma_send_renew, lemma_with_grantee, lemma_with_grantor,
};
use vstd::prelude::*;

verus! {

/// A message about lease `i` is the next thing to reach its destination, which is up.
pub open spec fn reaches(s: Sim, kind: MsgKind, i: usize) -> bool {
    let id = s.cfg.leases[i as int];
    let (from, to) = if kind.is_from_grantor() {
        (id.grantor, id.grantee)
    } else {
        (id.grantee, id.grantor)
    };
    &&& i < s.leases.len()
    &&& happens(s, Scheduled::Arrival { from, to, kind, tag: i, fate: MsgFate::Delivered })
    &&& s.nodes[to as int].up
}

/// What the clock of lease `i`'s grantor shows when the next thing happens.
pub open spec fn grantor_clock(s: Sim, i: usize) -> int {
    s.cfg.nodes[s.cfg.leases[i as int].grantor as int].clock.reading(s.queue[0].at as int)
}

/// What the clock of lease `i`'s grantee shows when the next thing happens.
pub open spec fn grantee_clock(s: Sim, i: usize) -> int {
    s.cfg.nodes[s.cfg.leases[i as int].grantee as int].clock.reading(s.queue[0].at as int)
}

/// Nothing has become of any other lease, nor of any node or write.
pub open spec fn only_lease(s: Sim, b: Sim, i: usize) -> bool {
    &&& b.nodes == s.nodes
    &&& b.rounds == s.rounds
    &&& b.leases.len() == s.leases.len()
    &&& b.leases[i as int].id == s.leases[i as int].id
    &&& forall|j: int|
        0 <= j < s.leases.len() && j != i ==> #[trigger] b.leases[j] == s.leases[j]
}

/// That the message was delivered is reported, and after it only `more`.
pub open spec fn delivered_and(
    s: Sim,
    b: Sim,
    kind: MsgKind,
    i: usize,
    more: Seq<EventKind>,
) -> bool {
    let id = s.cfg.leases[i as int];
    let at = s.queue[0].at;
    let n = s.pending.len() as int;
    let first = if kind.is_from_grantor() {
        EventKind::MessageDelivered { from: id.grantor, to: id.grantee, kind }
    } else {
        EventKind::MessageDelivered { from: id.grantee, to: id.grantor, kind }
    };
    &&& b.pending.len() == n + 1 + more.len()
    &&& b.pending[n] == (Event { at, kind: first })
    &&& forall|m: int|
        0 <= m < more.len() ==> #[trigger] b.pending[n + 1 + m] == (Event { at, kind: more[m] })
}

/// The grantee answers after its response delay, which is all that is drawn.
pub open spec fn grantee_answers(s: Sim, b: Sim, kind: MsgKind, i: usize) -> bool {
    let id = s.cfg.leases[i as int];
    &&& is_rng_after(s.cfg.nodes[id.grantee as int].response_delay, s.rng, b.rng)
    &&& exists|at: Time|
        answers_after(s, id.grantee, at) && #[trigger] b.queue.contains(
            Timed {
                at,
                item: Scheduled::Send { from: id.grantee, to: id.grantor, kind, tag: i },
            },
        )
}

/// The state in which a party acts on the message, and what it has from before.
proof fn lemma_reaches(s: Sim, kind: MsgKind, i: usize) -> (q: Sim)
    requires
        reaches(s, kind, i),
        !kind.is_write_path(),
    ensures
        q.ok(),
        q.cfg == s.cfg,
        q.normal == s.normal,
        q.rng == s.rng,
        q.now == s.queue[0].at,
        q.queue == s.queue.drop_first(),
        q.leases == s.leases,
        q.nodes == s.nodes,
        q.rounds == s.rounds,
        delivered_and(s, q, kind, i, Seq::empty()),
        s.step() == q.receive(
            if kind.is_from_grantor() {
                s.cfg.leases[i as int].grantor
            } else {
                s.cfg.leases[i as int].grantee
            },
            if kind.is_from_grantor() {
                s.cfg.leases[i as int].grantee
            } else {
                s.cfg.leases[i as int].grantor
            },
            kind,
            i,
        ),
{
    lemma_popped(s);
    let a = s.popped();
    lemma_parties(a, i as int);
    reveal(Sim::arrive);
    let id = s.cfg.leases[i as int];
    let ev = if kind.is_from_grantor() {
        EventKind::MessageDelivered { from: id.grantor, to: id.grantee, kind }
    } else {
        EventKind::MessageDelivered { from: id.grantee, to: id.grantor, kind }
    };
    lemma_emit(a, ev);
    a.emit(ev)
}

// ---- Messages --------------------------------------------------------------

/// A guard that reaches the grantee makes it guard, with a window of `t_guard - t_delta`
/// ticks of its clock, and answer.
pub proof fn law_guard_arrives(s: Sim, i: usize)
    requires
        reaches(s, MsgKind::Guard, i),
    ensures
        ({
            let b = s.step();
            let l = s.leases[i as int];
            let p = s.cfg.params;
            &&& only_lease(s, b, i)
            &&& b.leases[i as int].grantor == l.grantor
            &&& b.leases[i as int].grantee.status == LeaseStatus::Guarding
            &&& b.leases[i as int].grantee.guard_deadline == grantee_clock(s, i) + p.t_guard
                - p.t_delta
            &&& b.leases[i as int].grantee.hold_expiry == l.grantee.hold_expiry
            &&& delivered_and(
                s,
                b,
                MsgKind::Guard,
                i,
                seq![EventKind::GranteeLease { lease: l.id, status: LeaseStatus::Guarding }],
            )
            &&& grantee_answers(s, b, MsgKind::GuardReply, i)
        }),
{
    let q = lemma_reaches(s, MsgKind::Guard, i);
    lemma_parties(q, i as int);
    reveal(Sim::on_guard);
    let l = q.leases[i as int];
    let g = GranteeState {
        guard_deadline: (q.local(l.id.grantee) + q.params().guard_len()) as Time,
        status: LeaseStatus::Guarding,
        ..l.grantee
    };
    let ev = EventKind::GranteeLease { lease: l.id, status: LeaseStatus::Guarding };
    lemma_with_grantee(q, i as int, g);
    let q1 = q.with_grantee(i as int, g);
    lemma_emit(q1, ev);
    let q2 = q1.emit(ev);
    lemma_reply(q2, l.id.grantee, l.id.grantor, MsgKind::GuardReply, i);
    lemma_reply_scheduled(q2, l.id.grantee, l.id.grantor, MsgKind::GuardReply, i);
}

/// The answer to a guard makes the grantor's side active, if it still guards: it promises
/// the lease for `t_guard + t_lease + 2 t_delta` ticks of its clock (or longer, if it has),
/// sends the first renew there and then, and waits for the answer; the next renew is due
/// the renew interval later. If it does not guard any more, nothing happens.
pub proof fn law_guard_reply_arrives(s: Sim, i: usize)
    requires
        reaches(s, MsgKind::GuardReply, i),
    ensures
        ({
            let b = s.step();
            let l = s.leases[i as int];
            let g = b.leases[i as int].grantor;
            let p = s.cfg.params;
            let d = grantor_clock(s, i);
            let n = s.pending.len() as int;
            &&& only_lease(s, b, i)
            &&& b.leases[i as int].grantee == l.grantee
            &&& l.grantor.status == LeaseStatus::Guarding ==> {
                &&& g.status == LeaseStatus::Active
                &&& g.last_reply == d
                &&& g.next_renew_due == d + p.renew_interval
                &&& g.awaiting_reply
                &&& g.intended == l.grantor.intended
                &&& g.grant_expiry >= d + p.t_guard + p.t_lease + 2 * p.t_delta
                &&& g.grant_expiry == d + p.t_guard + p.t_lease + 2 * p.t_delta || g.grant_expiry
                    == l.grantor.grant_expiry
                &&& g.grant_expiry >= l.grantor.grant_expiry
                &&& b.pending.len() == n + 3
                &&& b.pending[n + 1] == (Event {
                    at: s.queue[0].at,
                    kind: EventKind::GrantorLease { lease: l.id, status: LeaseStatus::Active },
                })
                &&& sends(b.pending[n + 2], l.id.grantor, l.id.grantee, MsgKind::Renew)
            }
            &&& l.grantor.status != LeaseStatus::Guarding ==> g == l.grantor && delivered_and(
                s,
                b,
                MsgKind::GuardReply,
                i,
                Seq::empty(),
            )
        }),
{
    let q = lemma_reaches(s, MsgKind::GuardReply, i);
    lemma_parties(q, i as int);
    reveal(Sim::on_guard_reply);
    let l = q.leases[i as int];
    if l.grantor.status == LeaseStatus::Guarding {
        let d = q.local(l.id.grantor) as Time;
        let g = GrantorState {
            status: LeaseStatus::Active,
            last_reply: d,
            next_renew_due: d,
            ..l.grantor
        };
        let ev = EventKind::GrantorLease { lease: l.id, status: LeaseStatus::Active };
        assert(crate::upkeep::grantor_ok(l.grantor));
        lemma_with_grantor(q, i as int, g);
        let q1 = q.with_grantor(i as int, g);
        lemma_emit(q1, ev);
        let q2 = q1.emit(ev);
        lemma_parties(q2, i as int);
        lemma_send_renew_told(q2, i);
        lemma_send_renew(q2, i);
        let b = s.step();
        let n = s.pending.len() as int;
        assert(q2.pending[n + 1] == (Event { at: s.queue[0].at, kind: ev }));
        assert(b.pending[n + 1] == q2.pending[n + 1]);
        assert(b.pending[n + 2] == b.pending.last());
    }
}

/// A renew that reaches the grantee, while it is not frozen for a write, makes it hold the
/// lease for `t_lease - t_delta` ticks of its clock from now, and answer, if it holds it
/// already or still guards with its clock before the end of the window. Otherwise nothing
/// happens. That it came to hold the lease is reported, that it goes on holding it is not.
pub proof fn law_renew_arrives(s: Sim, i: usize)
    requires
        reaches(s, MsgKind::Renew, i),
    ensures
        ({
            let b = s.step();
            let l = s.leases[i as int];
            let (g, h) = (l.grantee, b.leases[i as int].grantee);
            let p = s.cfg.params;
            let c = grantee_clock(s, i);
            let takes = !s.nodes[l.id.grantee as int].write_frozen && (g.status
                == LeaseStatus::Active || g.status == LeaseStatus::Guarding && c
                < g.guard_deadline);
            let report = EventKind::GranteeLease { lease: l.id, status: LeaseStatus::Active };
            &&& only_lease(s, b, i)
            &&& b.leases[i as int].grantor == l.grantor
            &&& takes ==> {
                &&& h.status == LeaseStatus::Active
                &&& h.hold_expiry == c + p.t_lease - p.t_delta
                &&& h.guard_deadline == g.guard_deadline
                &&& grantee_answers(s, b, MsgKind::RenewReply, i)
                &&& g.status == LeaseStatus::Active ==> delivered_and(
                    s,
                    b,
                    MsgKind::Renew,
                    i,
                    Seq::empty(),
                )
                &&& g.status != LeaseStatus::Active ==> delivered_and(
                    s,
                    b,
                    MsgKind::Renew,
                    i,
                    seq![report],
                )
            }
            &&& !takes ==> h == g && delivered_and(s, b, MsgKind::Renew, i, Seq::empty())
                && b.queue == s.queue.drop_first()
        }),
{
    let q = lemma_reaches(s, MsgKind::Renew, i);
    lemma_parties(q, i as int);
    reveal(Sim::on_renew);
    let l = q.leases[i as int];
    if q.accepts_renew(i as int) {
        let g = GranteeState {
            hold_expiry: (q.local(l.id.grantee) + q.params().hold_len()) as Time,
            status: LeaseStatus::Active,
            ..l.grantee
        };
        let ev = EventKind::GranteeLease { lease: l.id, status: LeaseStatus::Active };
        lemma_with_grantee(q, i as int, g);
        let q1 = q.with_grantee(i as int, g);
        lemma_emit(q1, ev);
        let q2 = if l.grantee.status != LeaseStatus::Active {
            q1.emit(ev)
        } else {
            q1
        };
        lemma_reply(q2, l.id.grantee, l.id.grantor, MsgKind::RenewReply, i);
        lemma_reply_scheduled(q2, l.id.grantee, l.id.grantor, MsgKind::RenewReply, i);
    }
}

/// The answer to a renew confirms an active grantor, and lets it send the next renew when
/// that is due: its promise is cut down to `t_lease + t_delta` ticks of its clock from
/// now, if it was longer. A grantor that is not active ignores it.
pub proof fn law_renew_reply_arrives(s: Sim, i: usize)
    requires
        reaches(s, MsgKind::RenewReply, i),
    ensures
        ({
            let b = s.step();
            let l = s.leases[i as int];
            let (g, h) = (l.grantor, b.leases[i as int].grantor);
            let d = grantor_clock(s, i);
            let bound = d + s.cfg.params.t_lease + s.cfg.params.t_delta;
            &&& only_lease(s, b, i)
            &&& b.leases[i as int].grantee == l.grantee
            &&& delivered_and(s, b, MsgKind::RenewReply, i, Seq::empty())
            &&& g.status == LeaseStatus::Active ==> {
                &&& h.status == LeaseStatus::Active
                &&& h.last_reply == d
                &&& !h.awaiting_reply
                &&& h.intended == g.intended
                &&& h.next_renew_due == g.next_renew_due
                &&& g.grant_expiry >= bound ==> h.grant_expiry == bound
                &&& g.grant_expiry <= bound ==> h.grant_expiry == g.grant_expiry
            }
            &&& g.status != LeaseStatus::Active ==> h == g
        }),
{
    let q = lemma_reaches(s, MsgKind::RenewReply, i);
    lemma_parties(q, i as int);
    reveal(Sim::on_renew_reply);
}

/// A revocation that reaches the grantee ends, there and then, what it holds or guards,
/// which is reported; it answers in any case.
pub proof fn law_revoke_arrives(s: Sim, i: usize)
    requires
        reaches(s, MsgKind::Revoke, i),
    ensures
        ({
            let b = s.step();
            let l = s.leases[i as int];
            let (g, h) = (l.grantee, b.leases[i as int].grantee);
            let had = g.status == LeaseStatus::Active || g.status == LeaseStatus::Guarding;
            let report = EventKind::GranteeLease { lease: l.id, status: LeaseStatus::Expired };
            &&& only_lease(s, b, i)
            &&& b.leases[i as int].grantor == l.grantor
            &&& grantee_answers(s, b, MsgKind::RevokeReply, i)
            &&& had ==> h.status == LeaseStatus::Expired && h.hold_expiry == grantee_clock(s, i)
                && delivered_and(s, b, MsgKind::Revoke, i, seq![report])
            &&& !had ==> h == g && delivered_and(s, b, MsgKind::Revoke, i, Seq::empty())
        }),
{
    let q = lemma_reaches(s, MsgKind::Revoke, i);
    lemma_parties(q, i as int);
    reveal(Sim::on_revoke);
    let l = q.leases[i as int];
    let g = GranteeState {
        status: LeaseStatus::Expired,
        hold_expiry: q.local(l.id.grantee) as Time,
        ..l.grantee
    };
    let ev = EventKind::GranteeLease { lease: l.id, status: LeaseStatus::Expired };
    lemma_with_grantee(q, i as int, g);
    let q1 = q.with_grantee(i as int, g);
    lemma_emit(q1, ev);
    let q2 = if l.holding() {
        q1.emit(ev)
    } else {
        q
    };
    lemma_reply(q2, l.id.grantee, l.id.grantor, MsgKind::RevokeReply, i);
    lemma_reply_scheduled(q2, l.id.grantee, l.id.grantor, MsgKind::RevokeReply, i);
}

/// The answer to a revocation ends, there and then, a grant that is active or guarded,
/// which is reported; the promise itself stays as it was.
pub proof fn law_revoke_reply_arrives(s: Sim, i: usize)
    requires
        reaches(s, MsgKind::RevokeReply, i),
    ensures
        ({
            let b = s.step();
            let l = s.leases[i as int];
            let (g, h) = (l.grantor, b.leases[i as int].grantor);
            let had = g.status == LeaseStatus::Active || g.status == LeaseStatus::Guarding;
            let report = EventKind::GrantorLease { lease: l.id, status: LeaseStatus::Expired };
            &&& only_lease(s, b, i)
            &&& b.leases[i as int].grantee == l.grantee
            &&& had ==> h == (GrantorState { status: LeaseStatus::Expired, intended: false, ..g })
                && delivered_and(s, b, MsgKind::RevokeReply, i, seq![report])
            &&& !had ==> h == g && delivered_and(s, b, MsgKind::RevokeReply, i, Seq::empty())
        }),
{
    let q = lemma_reaches(s, MsgKind::RevokeReply, i);
    lemma_parties(q, i as int);
    reveal(Sim::on_revoke_reply);
}

// ---- Commands --------------------------------------------------------------

/// The lease is the first declared between its parties.
pub open spec fn first_declared(s: Sim, i: usize) -> bool {
    &&& i < s.leases.len()
    &&& forall|j: int| 0 <= j < i ==> (#[trigger] s.cfg.leases[j]) != s.cfg.leases[i as int]
}

proof fn lemma_first_declared(s: Sim, i: usize)
    requires
        s.ok(),
        first_declared(s, i),
    ensures
        s.declared(s.cfg.leases[i as int]),
        s.lease_index(s.cfg.leases[i as int]) == i,
{
    let id = s.cfg.leases[i as int];
    lemma_lease_position(s.leases, id, 0);
    let p = s.lease_index(id);
    if p < i {
        assert(s.cfg.leases[p] != id);
    }
    if p > i {
        assert(s.leases[i as int].id != id);
    }
}

/// The command to start a lease makes its grantor, if it is up and idle, guard from now
/// on and send the guard; otherwise nothing happens.
pub proof fn law_initiate_command(s: Sim, i: usize)
    requires
        first_declared(s, i),
        happens(s, Scheduled::Command(Command::Initiate(s.cfg.leases[i as int]))),
    ensures
        ({
            let b = s.step();
            let l = s.leases[i as int];
            let n = s.pending.len() as int;
            let starts = s.nodes[l.id.grantor as int].up && (l.grantor.status
                == LeaseStatus::Inactive || l.grantor.status == LeaseStatus::Expired);
            &&& only_lease(s, b, i)
            &&& b.leases[i as int].grantee == l.grantee
            &&& starts ==> b.leases[i as int].grantor == guarded(l.grantor, grantor_clock(s, i))
                && b.pending.len() == n + 1 && sends(
                b.pending[n],
                l.id.grantor,
                l.id.grantee,
                MsgKind::Guard,
            ) && b.pending[n].at == s.queue[0].at
            &&& !starts ==> b.leases == s.leases && b.pending == s.pending && b.queue
                == s.queue.drop_first()
        }),
{
    lemma_popped(s);
    let a = s.popped();
    lemma_first_declared(a, i);
    lemma_parties(a, i as int);
    reveal(Sim::apply);
    lemma_guard_told(a, i);
    lemma_begin_guard(a, i);
}

/// The command to revoke a lease makes its grantor, if it is up and grants or guards it,
/// stop intending it and send the revocation, and leaves its promise as it is; otherwise
/// nothing happens.
pub proof fn law_revoke_command(s: Sim, i: usize)
    requires
        first_declared(s, i),
        happens(s, Scheduled::Command(Command::Revoke(s.cfg.leases[i as int]))),
    ensures
        ({
            let b = s.step();
            let l = s.leases[i as int];
            let n = s.pending.len() as int;
            let revokes = s.nodes[l.id.grantor as int].up && (l.grantor.status
                == LeaseStatus::Active || l.grantor.status == LeaseStatus::Guarding);
            &&& only_lease(s, b, i)
            &&& b.leases[i as int].grantee == l.grantee
            &&& revokes ==> b.leases[i as int].grantor == (GrantorState {
                intended: false,
                ..l.grantor
            }) && b.pending.len() == n + 1 && sends(
                b.pending[n],
                l.id.grantor,
                l.id.grantee,
                MsgKind::Revoke,
            ) && b.pending[n].at == s.queue[0].at
            &&& !revokes ==> b.leases == s.leases && b.pending == s.pending && b.queue
                == s.queue.drop_first()
        }),
{
    lemma_popped(s);
    let a = s.popped();
    lemma_first_declared(a, i);
    lemma_parties(a, i as int);
    reveal(Sim::apply);
    reveal(Sim::begin_revoke);
    let l = a.leases[i as int];
    let g = GrantorState { intended: false, ..l.grantor };
    assert(crate::upkeep::grantor_ok(l.grantor));
    lemma_with_grantor(a, i as int, g);
    let a1 = a.with_grantor(i as int, g);
    lemma_send(a1, l.id.grantor, l.id.grantee, MsgKind::Revoke, i);
    lemma_send_live(a1, l.id.grantor, l.id.grantee, MsgKind::Revoke, i);
}

/// A command about a lease that is not declared does nothing.
pub proof fn law_unknown_lease_is_ignored(s: Sim, id: LeaseId, cmd: Command)
    requires
        happens(s, Scheduled::Command(cmd)),
        cmd == Command::Initiate(id) || cmd == Command::Revoke(id),
        forall|j: int| 0 <= j < s.cfg.leases.len() ==> (#[trigger] s.cfg.leases[j]) != id,
    ensures
        s.step() == s.popped(),
{
    lemma_popped(s);
    let a = s.popped();
    reveal(Sim::apply);
    lemma_lease_position(a.leases, id, 0);
    if a.declared(id) {
        assert(a.cfg.leases[a.lease_index(id)] == id);
    }
}

/// The command to fail takes a node down, if it is up: that is reported, and it stops
/// intending what it grants. Nothing else happens, and nothing at all if it is down.
pub proof fn law_fail_command(s: Sim, node: NodeId)
    requires
        happens(s, Scheduled::Command(Command::FailNode(node))),
    ensures
        ({
            let b = s.step();
            let up = s.nodes[node as int].up;
            &&& b.nodes == s.nodes.update(
                node as int,
                NodeState { up: false, ..s.nodes[node as int] },
            )
            &&& b.rounds == s.rounds
            &&& b.queue == s.queue.drop_first()
            &&& b.leases.len() == s.leases.len()
            &&& forall|i: int|
                0 <= i < s.leases.len() ==> #[trigger] b.leases[i] == (LeaseState {
                    grantor: GrantorState {
                        intended: s.leases[i].grantor.intended && !(up && s.leases[i].id.grantor
                            == node),
                        ..s.leases[i].grantor
                    },
                    ..s.leases[i]
                })
            &&& up ==> b.pending == s.pending.push(
                Event { at: s.queue[0].at, kind: EventKind::NodeFailed { node } },
            )
            &&& !up ==> b.pending == s.pending
        }),
{
    lemma_popped(s);
    reveal(Sim::apply);
    reveal(Sim::fail_node);
    let b = s.step();
    assert(b.nodes =~= s.nodes.update(
        node as int,
        NodeState { up: false, ..s.nodes[node as int] },
    ));
}

/// The command to recover brings a node back, if it is down, which is reported. Nothing
/// else happens, and nothing at all if it is up.
pub proof fn law_recover_command(s: Sim, node: NodeId)
    requires
        happens(s, Scheduled::Command(Command::RecoverNode(node))),
    ensures
        ({
            let b = s.step();
            &&& b.nodes == s.nodes.update(
                node as int,
                NodeState { up: true, ..s.nodes[node as int] },
            )
            &&& b.leases == s.leases
            &&& b.rounds == s.rounds
            &&& b.queue == s.queue.drop_first()
            &&& !s.nodes[node as int].up ==> b.pending == s.pending.push(
                Event { at: s.queue[0].at, kind: EventKind::NodeRecovered { node } },
            )
            &&& s.nodes[node as int].up ==> b.pending == s.pending
        }),
{
    lemma_popped(s);
    reveal(Sim::apply);
    reveal(Sim::recover_node);
    let b = s.step();
    assert(b.nodes =~= s.nodes.update(
        node as int,
        NodeState { up: true, ..s.nodes[node as int] },
    ));
}

} // verus!
