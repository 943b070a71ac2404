//! What the events tell is how things stand. Over all that is reported of a run: a node
//! is up, and a side of a lease is active, exactly if the last event about it says so,
//! and a frame shows it so. And renews of a lease keep the renew interval.

use crate::clock::Time;
use crate::dist::NormalDraw;
use crate::event::{Command, Event, EventKind, LeaseId, LeaseStatus, MsgFate, MsgKind, NodeId};
use crate::frame::NodeViz;
use crate::history::lemma_steps_after_history;
use crate::moves::{
    grants_after, hold_after, is_guard, is_plain, is_quiet, is_renewal, is_retreat, is_write_move,
    keep_apply, keep_poll, keep_receive_write, keep_write_tick, kept_by_moves, lemma_send_live,
    moves, told, told_by, up_after,
};
use crate::pacing::{declared_once, sends_renew};
use crate::progress::{
    lemma_advanced, lemma_initial, lemma_run_is, lemma_settles, lemma_steps_next, lemma_steps_ok,
    sized,
};
use crate::scenario::Config;
use crate::sim::{max_of, GranteeState, GrantorState, Sim};
use crate::timeline::Scheduled;
use crate::upkeep::{
    events_ok, lemma_emit, lemma_lease_position, lemma_parties, lemma_popped, lemma_reply,
    lemma_send, lemma_with_grantee, lemma_with_grantor, message_ok, normal_ok,
};
use vstd::prelude::*;

verus! {

/// Whether the events leave a node up: it starts up, and the last event about it counts.
pub open spec fn is_up(events: Seq<Event>, node: int) -> bool
    decreases events.len(),
{
    if events.len() == 0 {
        true
    } else {
        up_after(is_up(events.drop_last(), node), events.last().kind, node)
    }
}

/// The status in which the events leave the grantee's side of a lease.
pub open spec fn hold_status(events: Seq<Event>, id: LeaseId) -> LeaseStatus
    decreases events.len(),
{
    if events.len() == 0 {
        LeaseStatus::Inactive
    } else {
        hold_after(hold_status(events.drop_last(), id), events.last().kind, id)
    }
}

/// Whether the events leave the grantor's side of a lease active.
pub open spec fn is_granted(events: Seq<Event>, id: LeaseId) -> bool
    decreases events.len(),
{
    if events.len() == 0 {
        false
    } else {
        grants_after(is_granted(events.drop_last(), id), events.last().kind, id)
    }
}

/// The event reports that the grantor's side of the lease became active.
pub open spec fn starts_grant(e: Event, id: LeaseId) -> bool {
    e.kind == (EventKind::GrantorLease { lease: id, status: LeaseStatus::Active })
}

/// When the last renew since the grantor's side last became active was sent.
pub open spec fn last_renew(events: Seq<Event>, id: LeaseId) -> Option<Time>
    decreases events.len(),
{
    if events.len() == 0 {
        None
    } else if sends_renew(events.last(), id) {
        Some(events.last().at)
    } else if starts_grant(events.last(), id) {
        None
    } else {
        last_renew(events.drop_last(), id)
    }
}

/// What the clock of the lease's grantor shows at a time.
pub open spec fn grantor_reads(cfg: Config, i: int, t: Time) -> int {
    cfg.nodes[cfg.leases[i].grantor as int].clock.reading(t as int)
}

/// Every renew but the first of a grant comes the renew interval after the one before.
pub open spec fn spaced(cfg: Config, i: int, events: Seq<Event>) -> bool {
    forall|k: int|
        0 <= k < events.len() && sends_renew(#[trigger] events[k], cfg.leases[i]) ==> (last_renew(
            events.take(k),
            cfg.leases[i],
        ) matches Some(t) ==> grantor_reads(cfg, i, events[k].at) - grantor_reads(cfg, i, t)
            >= cfg.params.renew_interval)
}

/// Where the pending events are all that have happened so far: nodes are as told.
pub open spec fn nodes_told(s: Sim) -> bool {
    forall|k: int| 0 <= k < s.nodes.len() ==> (#[trigger] s.nodes[k]).up == is_up(s.pending, k)
}

/// Where the pending events are all that have happened so far: both sides of lease `i`
/// are as told, and its renews are spaced.
pub open spec fn lease_told(s: Sim, i: int) -> bool {
    let id = s.cfg.leases[i];
    let g = s.leases[i].grantor;
    &&& s.leases[i].grantee.status == hold_status(s.pending, id)
    &&& (g.status == LeaseStatus::Active) == is_granted(s.pending, id)
    &&& s.leases[i].granting() ==> !g.reguard_on_thaw
    &&& spaced(s.cfg, i, s.pending)
}

/// An active grantor knows when its next renew is due: the renew interval after it sent
/// the last one.
pub open spec fn renew_timed(s: Sim, i: int) -> bool {
    let g = s.leases[i].grantor;
    g.status == LeaseStatus::Active ==> (last_renew(s.pending, s.cfg.leases[i]) matches Some(t)
        && g.next_renew_due == grantor_reads(s.cfg, i, t) + s.params().renew_interval)
}

/// Where the pending events are all that have happened so far, they tell how things
/// stand.
pub open spec fn faithful(s: Sim, i: int) -> bool {
    &&& nodes_told(s)
    &&& declared_once(s.cfg, i) ==> lease_told(s, i) && renew_timed(s, i)
}

// ---- Changes of a state ----------------------------------------------------

/// One more event.
proof fn lemma_push(events: Seq<Event>, e: Event)
    ensures
        forall|node: int|
            #[trigger] is_up(events.push(e), node) == up_after(is_up(events, node), e.kind, node),
        forall|id: LeaseId|
            #[trigger] hold_status(events.push(e), id) == hold_after(
                hold_status(events, id),
                e.kind,
                id,
            ),
        forall|id: LeaseId|
            #[trigger] is_granted(events.push(e), id) == grants_after(
                is_granted(events, id),
                e.kind,
                id,
            ),
        forall|id: LeaseId|
            #[trigger] last_renew(events.push(e), id) == if sends_renew(e, id) {
                Some(e.at)
            } else if starts_grant(e, id) {
                None
            } else {
                last_renew(events, id)
            },
{
    assert(events.push(e).drop_last() =~= events);
    assert(events.push(e).last() == e);
}

/// One more event keeps renews spaced, if it is no renew or comes in time.
proof fn lemma_push_spaced(cfg: Config, i: int, events: Seq<Event>, e: Event)
    requires
        spaced(cfg, i, events),
        sends_renew(e, cfg.leases[i]) ==> (last_renew(events, cfg.leases[i]) matches Some(t)
            ==> grantor_reads(cfg, i, e.at) - grantor_reads(cfg, i, t)
            >= cfg.params.renew_interval),
    ensures
        spaced(cfg, i, events.push(e)),
{
    let all = events.push(e);
    assert forall|k: int|
        0 <= k < all.len() && sends_renew(#[trigger] all[k], cfg.leases[i]) implies (last_renew(
        all.take(k),
        cfg.leases[i],
    ) matches Some(t) ==> grantor_reads(cfg, i, all[k].at) - grantor_reads(cfg, i, t)
        >= cfg.params.renew_interval) by {
        assert(all.take(k) =~= events.take(k));
        if k < events.len() {
            assert(sends_renew(events[k], cfg.leases[i]));
        } else {
            assert(events.take(k) =~= events);
        }
    }
}

/// What is told of the nodes and of lease `i` changes as the event says.
spec fn told_at(a: Sim, b: Sim, i: int, kind: EventKind) -> bool {
    let id = a.cfg.leases[i];
    &&& b.cfg == a.cfg
    &&& b.nodes.len() == a.nodes.len()
    &&& forall|k: int|
        0 <= k < a.nodes.len() ==> (#[trigger] b.nodes[k]).up == up_after(a.nodes[k].up, kind, k)
    &&& declared_once(a.cfg, i) ==> {
        &&& b.leases[i].grantee.status == hold_after(a.leases[i].grantee.status, kind, id)
        &&& (b.leases[i].grantor.status == LeaseStatus::Active) == grants_after(
            a.leases[i].grantor.status == LeaseStatus::Active,
            kind,
            id,
        )
    }
}

/// At most one event happens, and no renew of lease `i` nor the start of its grant; a
/// grantor that is active keeps its appointment.
proof fn lemma_kept(a: Sim, b: Sim, i: int, kind: EventKind)
    requires
        faithful(a, i),
        told_at(a, b, i, kind),
        b.pending == a.emit(kind).pending || b.pending == a.pending && is_plain(kind),
        declared_once(a.cfg, i) ==> {
            let (g, h) = (a.leases[i].grantor, b.leases[i].grantor);
            &&& !sends_renew(Event { at: a.now, kind }, a.cfg.leases[i])
            &&& !starts_grant(Event { at: a.now, kind }, a.cfg.leases[i])
            &&& h.status == LeaseStatus::Active ==> h.next_renew_due == g.next_renew_due
            &&& b.leases[i].granting() ==> a.leases[i].granting() && h.reguard_on_thaw
                == g.reguard_on_thaw
        },
    ensures
        faithful(b, i),
{
    let e = Event { at: a.now, kind };
    lemma_push(a.pending, e);
    if declared_once(a.cfg, i) {
        lemma_push_spaced(a.cfg, i, a.pending, e);
    }
}

/// A message goes out, other than a renew of lease `i`.
proof fn lemma_sent_kept(a: Sim, i: int, from: NodeId, to: NodeId, kind: MsgKind, tag: usize)
    requires
        a.ok(),
        faithful(a, i),
        message_ok(a.cfg, from, to, kind, tag),
        declared_once(a.cfg, i) && kind == MsgKind::Renew ==> from != a.cfg.leases[i].grantor || to
            != a.cfg.leases[i].grantee,
    ensures
        faithful(a.send(from, to, kind, tag), i),
{
    lemma_send(a, from, to, kind, tag);
    lemma_send_live(a, from, to, kind, tag);
    lemma_kept(
        a,
        a.send(from, to, kind, tag),
        i,
        EventKind::MessageSent {
            from,
            to,
            kind,
            sent: a.now,
            arrival: a.arrival_of(from, to) as Time,
            fate: a.fate_of(from, to, kind),
        },
    );
}

/// A renew goes out; if of lease `i`, not before the interval is over.
proof fn lemma_send_renew_kept(s: Sim, i: int, j: usize)
    requires
        s.ok(),
        nodes_told(s),
        j < s.leases.len(),
        declared_once(s.cfg, i) ==> lease_told(s, i) && (j != i ==> renew_timed(s, i)),
        declared_once(s.cfg, i) && j == i ==> (last_renew(s.pending, s.cfg.leases[i]) matches Some(
            t,
        ) ==> grantor_reads(s.cfg, i, s.now) - grantor_reads(s.cfg, i, t)
            >= s.params().renew_interval),
    ensures
        faithful(s.send_renew(j), i),
        s.send_renew(j).cfg == s.cfg,
{
    reveal(Sim::send_renew);
    lemma_parties(s, j as int);
    let l = s.leases[j as int];
    let b = s.local(l.id.grantor);
    let g = GrantorState {
        grant_expiry: max_of(l.grantor.grant_expiry as int, b + s.params().grant_len()) as Time,
        next_renew_due: (b + s.params().renew_interval) as Time,
        awaiting_reply: true,
        ..l.grantor
    };
    lemma_with_grantor(s, j as int, g);
    let s1 = s.with_grantor(j as int, g);
    let (from, to) = (l.id.grantor, l.id.grantee);
    lemma_send(s1, from, to, MsgKind::Renew, j);
    lemma_send_live(s1, from, to, MsgKind::Renew, j);
    if declared_once(s.cfg, i) && j != i {
        assert(s.cfg.leases[j as int] != s.cfg.leases[i]);
        assert(faithful(s1, i));
        lemma_sent_kept(s1, i, from, to, MsgKind::Renew, j);
    } else {
        let kind = EventKind::MessageSent {
            from,
            to,
            kind: MsgKind::Renew,
            sent: s1.now,
            arrival: s1.arrival_of(from, to) as Time,
            fate: s1.fate_of(from, to, MsgKind::Renew),
        };
        let e = Event { at: s.now, kind };
        lemma_push(s.pending, e);
        assert(s.send_renew(j).pending == s.pending.push(e));
        if declared_once(s.cfg, i) {
            lemma_push_spaced(s.cfg, i, s.pending, e);
        }
    }
}

/// A guard opens.
proof fn lemma_begin_guard_kept(s: Sim, i: int, j: usize)
    requires
        s.ok(),
        faithful(s, i),
        j < s.leases.len(),
        s.leases[j as int].grantor.status != LeaseStatus::Active
            || s.leases[j as int].grantor.reguard_on_thaw,
    ensures
        faithful(s.begin_guard(j), i),
        s.begin_guard(j).cfg == s.cfg,
{
    reveal(Sim::begin_guard);
    lemma_parties(s, j as int);
    let l = s.leases[j as int];
    let g = GrantorState {
        status: LeaseStatus::Guarding,
        intended: true,
        awaiting_reply: false,
        reguard_on_thaw: false,
        guard_since: s.local(l.id.grantor) as Time,
        ..l.grantor
    };
    lemma_with_grantor(s, j as int, g);
    let s1 = s.with_grantor(j as int, g);
    assert(faithful(s1, i));
    lemma_sent_kept(s1, i, l.id.grantor, l.id.grantee, MsgKind::Guard, j);
    lemma_send(s1, l.id.grantor, l.id.grantee, MsgKind::Guard, j);
}

spec fn faithful_in(cfg: Config, i: int) -> spec_fn(Sim) -> bool {
    |s: Sim| s.cfg == cfg && faithful(s, i)
}

/// The event by which something is told, among those that the pending events allow.
proof fn lemma_told_kept(a: Sim, b: Sim, i: int, none: EventKind)
    requires
        a.ok(),
        faithful(a, i),
        told(a, b),
        b.cfg == a.cfg,
        none == (EventKind::WriteStarted { leader: 0 }),
        forall|kind: EventKind|
            b.pending == #[trigger] a.emit(kind).pending ==> !crate::moves::is_activation(kind)
                && !sends_renew(Event { at: a.now, kind }, a.cfg.leases[i]),
        declared_once(a.cfg, i) ==> {
            let (g, h) = (a.leases[i].grantor, b.leases[i].grantor);
            &&& h.status == LeaseStatus::Active ==> h.next_renew_due == g.next_renew_due
            &&& b.leases[i].granting() ==> a.leases[i].granting() && h.reguard_on_thaw
                == g.reguard_on_thaw
        },
    ensures
        faithful(b, i),
{
    if b.pending == a.pending && told_by(a, b, none) {
        assert(told_at(a, b, i, none));
        lemma_kept(a, b, i, none);
    } else {
        let kind = choose|kind: EventKind|
            b.pending == #[trigger] a.emit(kind).pending && told_by(a, b, kind);
        assert(told_at(a, b, i, kind));
        lemma_kept(a, b, i, kind);
    }
}

proof fn lemma_faithful_moves(cfg: Config, i: int)
    ensures
        kept_by_moves(faithful_in(cfg, i), true),
{
    let prop = faithful_in(cfg, i);
    let none = EventKind::WriteStarted { leader: 0 };
    assert forall|a: Sim, b: Sim|
        a.ok() && b.ok() && prop(a) && #[trigger] moves(a, b, true) implies prop(b) by {
        if is_quiet(a, b) || is_retreat(a, b) {
            lemma_last_event(a);
            if is_retreat(a, b) && declared_once(cfg, i) {
                assert(b.leases[i].id == a.leases[i].id);
            }
            lemma_told_kept(a, b, i, none);
        } else if is_write_move(a, b) {
            lemma_last_event(a);
            if crate::mail::is_unposted(a, b) {
                lemma_told_kept(a, b, i, none);
            } else {
                let (from, to, kind, tag) = choose|
                    from: NodeId,
                    to: NodeId,
                    kind: MsgKind,
                    tag: usize,
                |
                    kind.is_write_path() && message_ok(a.cfg, from, to, kind, tag) && b
                        == #[trigger] a.send(from, to, kind, tag);
                lemma_sent_kept(a, i, from, to, kind, tag);
            }
        } else if exists|j: usize| is_guard(a, b, j) {
            let j = choose|j: usize| is_guard(a, b, j);
            lemma_begin_guard_kept(a, i, j);
        } else {
            let j = choose|j: usize| is_renewal(a, b, j);
            lemma_parties(a, j as int);
            lemma_send_renew_kept(a, i, j);
        }
    }
}

/// What was emitted last can be told from the pending events.
proof fn lemma_last_event(a: Sim)
    ensures
        forall|x: EventKind, y: EventKind|
            #![trigger a.emit(x), a.emit(y)]
            a.emit(x).pending == a.emit(y).pending ==> x == y,
        forall|x: EventKind| (#[trigger] a.emit(x)).pending != a.pending,
{
    assert forall|x: EventKind, y: EventKind|
        #![trigger a.emit(x), a.emit(y)]
        a.emit(x).pending == a.emit(y).pending implies x == y by {
        assert(a.emit(x).pending.last() == a.emit(y).pending.last());
    }
    assert forall|x: EventKind| (#[trigger] a.emit(x)).pending != a.pending by {
        assert(a.emit(x).pending.len() == a.pending.len() + 1);
    }
}

/// A party acts on a lease message.
proof fn lemma_receive_kept(s: Sim, i: int, from: NodeId, to: NodeId, kind: MsgKind, tag: usize)
    requires
        s.ok(),
        faithful(s, i),
        message_ok(s.cfg, from, to, kind, tag),
        !kind.is_write_path(),
    ensures
        faithful(s.receive(from, to, kind, tag), i),
{
    let j = tag as int;
    let l = s.leases[j];
    let b = s.receive(from, to, kind, tag);
    let none = EventKind::WriteStarted { leader: 0 };
    lemma_parties(s, j);
    if declared_once(s.cfg, i) && i != j {
        assert(s.cfg.leases[j] != s.cfg.leases[i]);
    }
    match kind {
        MsgKind::Guard => {
            reveal(Sim::on_guard);
            let g = GranteeState {
                guard_deadline: (s.local(l.id.grantee) + s.params().guard_len()) as Time,
                status: LeaseStatus::Guarding,
                ..l.grantee
            };
            let ev = EventKind::GranteeLease { lease: l.id, status: LeaseStatus::Guarding };
            lemma_with_grantee(s, j, g);
            let s1 = s.with_grantee(j, g);
            lemma_emit(s1, ev);
            lemma_reply(s1.emit(ev), l.id.grantee, l.id.grantor, MsgKind::GuardReply, tag);
            assert(b.pending == s.emit(ev).pending);
            lemma_kept(s, b, i, ev);
        },
        MsgKind::GuardReply => {
            reveal(Sim::on_guard_reply);
            if l.grantor.status == LeaseStatus::Guarding {
                let d = s.local(l.id.grantor) as Time;
                let g = GrantorState {
                    status: LeaseStatus::Active,
                    last_reply: d,
                    next_renew_due: d,
                    ..l.grantor
                };
                let ev = EventKind::GrantorLease { lease: l.id, status: LeaseStatus::Active };
                lemma_with_grantor(s, j, g);
                let s1 = s.with_grantor(j, g);
                lemma_emit(s1, ev);
                let s2 = s1.emit(ev);
                let e = Event { at: s.now, kind: ev };
                lemma_push(s.pending, e);
                assert(s2.pending == s.pending.push(e));
                if declared_once(s.cfg, i) {
                    lemma_push_spaced(s.cfg, i, s.pending, e);
                }
                lemma_send_renew_kept(s2, i, tag);
            }
        },
        MsgKind::Renew => {
            reveal(Sim::on_renew);
            if s.accepts_renew(j) {
                let g = GranteeState {
                    hold_expiry: (s.local(l.id.grantee) + s.params().hold_len()) as Time,
                    status: LeaseStatus::Active,
                    ..l.grantee
                };
                let ev = EventKind::GranteeLease { lease: l.id, status: LeaseStatus::Active };
                lemma_with_grantee(s, j, g);
                let s1 = s.with_grantee(j, g);
                lemma_emit(s1, ev);
                let s2 = if l.grantee.status != LeaseStatus::Active {
                    s1.emit(ev)
                } else {
                    s1
                };
                lemma_reply(s2, l.id.grantee, l.id.grantor, MsgKind::RenewReply, tag);
                assert(s1.emit(ev).pending == s.emit(ev).pending);
                if l.grantee.status != LeaseStatus::Active {
                    lemma_kept(s, b, i, ev);
                } else {
                    lemma_kept(s, b, i, none);
                }
            }
        },
        MsgKind::RenewReply => {
            reveal(Sim::on_renew_reply);
            lemma_kept(s, b, i, none);
        },
        MsgKind::Revoke => {
            reveal(Sim::on_revoke);
            let g = GranteeState {
                status: LeaseStatus::Expired,
                hold_expiry: s.local(l.id.grantee) as Time,
                ..l.grantee
            };
            let ev = EventKind::GranteeLease { lease: l.id, status: LeaseStatus::Expired };
            lemma_with_grantee(s, j, g);
            let s1 = s.with_grantee(j, g);
            lemma_emit(s1, ev);
            let s2 = if l.holding() {
                s1.emit(ev)
            } else {
                s
            };
            lemma_reply(s2, l.id.grantee, l.id.grantor, MsgKind::RevokeReply, tag);
            assert(s1.emit(ev).pending == s.emit(ev).pending);
            if l.holding() {
                lemma_kept(s, b, i, ev);
            } else {
                lemma_kept(s, b, i, none);
            }
        },
        _ => {
            reveal(Sim::on_revoke_reply);
            let ev = EventKind::GrantorLease { lease: l.id, status: LeaseStatus::Expired };
            if l.granting() {
                assert(b.pending == s.emit(ev).pending);
                lemma_kept(s, b, i, ev);
            }
        },
    }
}

/// A lease is revoked.
proof fn lemma_begin_revoke_kept(s: Sim, i: int, j: usize)
    requires
        s.ok(),
        faithful(s, i),
        j < s.leases.len(),
    ensures
        faithful(s.begin_revoke(j), i),
{
    reveal(Sim::begin_revoke);
    lemma_parties(s, j as int);
    let l = s.leases[j as int];
    let g = GrantorState { intended: false, ..l.grantor };
    lemma_with_grantor(s, j as int, g);
    let s1 = s.with_grantor(j as int, g);
    assert(faithful(s1, i));
    lemma_sent_kept(s1, i, l.id.grantor, l.id.grantee, MsgKind::Revoke, j);
}

/// One step.
proof fn lemma_step_kept(s: Sim, i: int)
    requires
        s.ok(),
        sized(s),
        s.queue.len() > 0,
        s.queue[0].at <= s.cfg.duration,
        faithful(s, i),
    ensures
        faithful(s.step(), i),
{
    lemma_popped(s);
    lemma_faithful_moves(s.cfg, i);
    let a = s.popped();
    let prop = faithful_in(s.cfg, i);
    assert(prop(a));
    match s.queue[0].item {
        Scheduled::Poll { node } => {
            keep_poll(prop, true, a, node);
            assert(prop(a.poll(node)));
        },
        Scheduled::WriteTick => {
            keep_write_tick(prop, true, a);
            assert(prop(a.write_tick()));
        },
        Scheduled::Command(cmd) => {
            if let Command::Revoke(id) = cmd {
                reveal(Sim::apply);
                lemma_lease_position(a.leases, id, 0);
                if a.declared(id) {
                    lemma_begin_revoke_kept(a, i, a.lease_index(id) as usize);
                }
            } else {
                keep_apply(prop, true, a, cmd);
                assert(prop(a.apply(cmd)));
            }
        },
        Scheduled::Send { from, to, kind, tag } => {
            lemma_sent_kept(a, i, from, to, kind, tag);
        },
        Scheduled::Arrival { from, to, kind, tag, fate } => {
            reveal(Sim::arrive);
            let lost = EventKind::MessageDropped { from, to, kind };
            lemma_kept(a, a.emit(lost), i, lost);
            let ev = EventKind::MessageDelivered { from, to, kind };
            lemma_emit(a, ev);
            let q = a.emit(ev);
            lemma_kept(a, q, i, ev);
            if fate == MsgFate::Delivered && a.nodes[to as int].up {
                if kind.is_write_path() {
                    assert(prop(q));
                    keep_receive_write(prop, true, q, from, to, kind, tag);
                    assert(prop(q.receive(from, to, kind, tag)));
                } else {
                    lemma_receive_kept(q, i, from, to, kind, tag);
                }
            }
        },
    }
}

proof fn lemma_steps_kept(s: Sim, i: int, t: int, n: nat)
    requires
        s.ok(),
        sized(s),
        t <= s.cfg.duration,
        faithful(s, i),
    ensures
        faithful(s.steps(t, n), i),
    decreases n,
{
    if n > 0 {
        lemma_steps_kept(s, i, t, (n - 1) as nat);
        let before = s.steps(t, (n - 1) as nat);
        lemma_steps_next(s, t, (n - 1) as nat);
        lemma_steps_ok(s, t, (n - 1) as nat);
        if !before.settled(t) {
            lemma_step_kept(before, i);
        }
    }
}

// ---- Laws ------------------------------------------------------------------

/// A run between two calls, of which `events` are all the events so far: they tell how
/// the nodes and lease `i` stand.
pub open spec fn faithful_so_far(s: Sim, events: Seq<Event>, i: int) -> bool {
    &&& s.pending.len() == 0
    &&& events_ok(s.now, events)
    &&& faithful(Sim { pending: events, ..s }, i)
}

/// Before anything has happened, there is nothing to tell.
pub proof fn law_faithful_at_start(cfg: Config, normal: spec_fn(NormalDraw) -> Time, i: int)
    requires
        cfg.valid(),
        normal_ok(normal),
        sized(Sim::blank(cfg, normal)),
    ensures
        faithful_so_far(Sim::initial(cfg, normal), Seq::empty(), i),
{
    lemma_initial(cfg, normal);
}

/// Advancing a run adds its events to those before, and they still tell how things
/// stand.
pub proof fn law_advancing_keeps_faithful(s: Sim, events: Seq<Event>, i: int, t: int)
    requires
        s.ok(),
        sized(s),
        faithful_so_far(s, events, i),
    ensures
        faithful_so_far(s.advanced(t).taken(), events + s.advanced(t).pending, i),
{
    let h = Sim { pending: events, ..s };
    let target = s.target(t);
    let n = lemma_settles(s, target);
    lemma_run_is(s, target, n);
    lemma_advanced(s, t);
    lemma_steps_ok(s, target, n);
    let r = s.steps(target, n);
    let b = s.advanced(t);
    assert(h =~= s.after_history(events, Seq::empty()));
    lemma_steps_after_history(s, target, n, events, Seq::empty());
    assert(h.ok());
    lemma_steps_kept(h, i, target, n);
    lemma_steps_ok(h, target, n);
    let g = h.steps(target, n);
    assert(g.pending == events + r.pending);
    let c = Sim { pending: events + b.pending, ..b.taken() };
    assert(c.pending == g.pending && c.leases == g.leases && c.cfg == g.cfg && c.nodes == g.nodes);
    assert(events_ok(b.now, c.pending));
}

/// A command given to a run changes nothing before it takes effect.
pub proof fn law_commands_keep_faithful(
    s: Sim,
    events: Seq<Event>,
    i: int,
    at: Time,
    cmd: Command,
)
    requires
        faithful_so_far(s, events, i),
    ensures
        faithful_so_far(s.schedule(at as int, Scheduled::Command(cmd)), events, i),
{
    let h = Sim { pending: events, ..s };
    let b = Sim { pending: events, ..s.schedule(at as int, Scheduled::Command(cmd)) };
    assert forall|k: int| 0 <= k < b.nodes.len() implies (#[trigger] b.nodes[k]).up == is_up(
        events,
        k,
    ) by {
        assert(h.nodes[k].up == is_up(h.pending, k));
    }
}

/// The last fault event of a node.
proof fn lemma_is_up(events: Seq<Event>, node: NodeId)
    ensures
        is_up(events, node as int) <==> !exists|j: int|
            #![trigger events[j]]
            0 <= j < events.len() && events[j].kind == (EventKind::NodeFailed { node }) && forall|
                m: int,
            |
                j < m < events.len() ==> (#[trigger] events[m]).kind != (EventKind::NodeRecovered {
                    node,
                }),
    decreases events.len(),
{
    if events.len() > 0 {
        let rest = events.drop_last();
        let n = rest.len() as int;
        lemma_is_up(rest, node);
        assert(events[n] == events.last());
        if is_up(rest, node as int) {
            if exists|j: int|
                #![trigger events[j]]
                0 <= j < events.len() && events[j].kind == (EventKind::NodeFailed { node })
                    && forall|m: int|
                    j < m < events.len() ==> (#[trigger] events[m]).kind
                        != (EventKind::NodeRecovered { node }) {
                let j = choose|j: int|
                    #![trigger events[j]]
                    0 <= j < events.len() && events[j].kind == (EventKind::NodeFailed { node })
                        && forall|m: int|
                        j < m < events.len() ==> (#[trigger] events[m]).kind
                            != (EventKind::NodeRecovered { node });
                if j < n {
                    assert(rest[j].kind == (EventKind::NodeFailed { node }));
                    assert forall|m: int| j < m < rest.len() implies (#[trigger] rest[m]).kind
                        != (EventKind::NodeRecovered { node }) by {
                        assert(rest[m] == events[m]);
                    }
                }
            }
        } else {
            let j = choose|j: int|
                #![trigger rest[j]]
                0 <= j < rest.len() && rest[j].kind == (EventKind::NodeFailed { node }) && forall|
                    m: int,
                |
                    j < m < rest.len() ==> (#[trigger] rest[m]).kind != (
                    EventKind::NodeRecovered { node });
            assert(events[j] == rest[j]);
            if events.last().kind != (EventKind::NodeRecovered { node }) {
                assert forall|m: int| j < m < events.len() implies (#[trigger] events[m]).kind != (
                EventKind::NodeRecovered { node }) by {
                    if m < n {
                        assert(rest[m] == events[m]);
                    }
                }
            }
        }
    }
}

/// A frame shows each node, in order, and shows it down exactly if it has failed and not
/// recovered since.
pub proof fn law_frame_shows_who_is_down(s: Sim, events: Seq<Event>, i: int, t: int, node: NodeId)
    requires
        s.ok(),
        sized(s),
        faithful_so_far(s, events, i),
        node < s.nodes.len(),
    ensures
        s.picture(t).nodes.len() == s.cfg.nodes.len(),
        s.picture(t).nodes[node as int].id == node,
        s.picture(t).nodes[node as int].viz == NodeViz::Down <==> exists|j: int|
            #![trigger events[j]]
            0 <= j < events.len() && events[j].kind == (EventKind::NodeFailed { node }) && forall|
                m: int,
            |
                j < m < events.len() ==> (#[trigger] events[m]).kind != (EventKind::NodeRecovered {
                    node,
                }),
{
    lemma_is_up(events, node);
    let h = Sim { pending: events, ..s };
    assert(h.nodes[node as int].up == is_up(events, node as int));
}

/// A frame shows the grantee's side of a lease as the last event about it says, and the
/// grantor's side active exactly if the last event about that says so.
pub proof fn law_frame_shows_what_was_told(s: Sim, events: Seq<Event>, i: int, t: int)
    requires
        s.ok(),
        faithful_so_far(s, events, i),
        declared_once(s.cfg, i),
    ensures
        s.picture(t).leases.len() == s.cfg.leases.len(),
        s.picture(t).leases[i].grantor == s.cfg.leases[i].grantor,
        s.picture(t).leases[i].grantee == s.cfg.leases[i].grantee,
        s.picture(t).leases[i].grantee_status == hold_status(events, s.cfg.leases[i]),
        s.picture(t).leases[i].grantor_status == LeaseStatus::Active <==> is_granted(
            events,
            s.cfg.leases[i],
        ),
{
}

/// A renew that is the last one so far.
proof fn lemma_last_renew(events: Seq<Event>, id: LeaseId, j: int)
    requires
        0 <= j < events.len(),
        sends_renew(events[j], id),
        forall|m: int|
            j < m < events.len() ==> !sends_renew(#[trigger] events[m], id) && !starts_grant(
                events[m],
                id,
            ),
    ensures
        last_renew(events, id) == Some(events[j].at),
    decreases events.len(),
{
    if j < events.len() - 1 {
        let rest = events.drop_last();
        assert(rest[j] == events[j]);
        assert(!sends_renew(events[events.len() - 1], id));
        assert forall|m: int| j < m < rest.len() implies !sends_renew(#[trigger] rest[m], id)
            && !starts_grant(rest[m], id) by {
            assert(rest[m] == events[m]);
        }
        lemma_last_renew(rest, id, j);
    }
}

/// Renews keep the renew interval: between two consecutive renews of a lease that belong
/// to the same grant, at least that many ticks of the grantor's clock pass.
pub proof fn law_renews_keep_the_interval(s: Sim, events: Seq<Event>, i: int, j: int, k: int)
    requires
        faithful_so_far(s, events, i),
        declared_once(s.cfg, i),
        0 <= j < k < events.len(),
        sends_renew(events[j], s.cfg.leases[i]),
        sends_renew(events[k], s.cfg.leases[i]),
        forall|m: int|
            j < m < k ==> !sends_renew(#[trigger] events[m], s.cfg.leases[i]) && !starts_grant(
                events[m],
                s.cfg.leases[i],
            ),
    ensures
        ({
            let clock = s.cfg.nodes[s.cfg.leases[i].grantor as int].clock;
            clock.reading(events[k].at as int) - clock.reading(events[j].at as int)
                >= s.cfg.params.renew_interval
        }),
{
    let id = s.cfg.leases[i];
    let before = events.take(k);
    assert(before[j] == events[j]);
    assert forall|m: int| j < m < before.len() implies !sends_renew(#[trigger] before[m], id)
        && !starts_grant(before[m], id) by {
        assert(before[m] == events[m]);
    }
    lemma_last_renew(before, id, j);
    assert(sends_renew(events[k], id));
}

/// While a grant is active, a renew has been sent in it, and the next one is due the
/// renew interval after the last.
pub proof fn law_next_renew_is_known(s: Sim, events: Seq<Event>, i: int, j: int)
    requires
        faithful_so_far(s, events, i),
        declared_once(s.cfg, i),
        s.leases[i].grantor.status == LeaseStatus::Active,
        0 <= j < events.len(),
        sends_renew(events[j], s.cfg.leases[i]),
        forall|m: int| j < m < events.len() ==> !sends_renew(#[trigger] events[m], s.cfg.leases[i]),
    ensures
        s.leases[i].grantor.next_renew_due == s.cfg.nodes[s.cfg.leases[i].grantor as int].clock.reading(
            events[j].at as int,
        ) + s.cfg.params.renew_interval,
{
    let id = s.cfg.leases[i];
    lemma_started(events, id, j);
    lemma_last_renew(events, id, j);
}

/// Since an active grantor has sent a renew in its grant, the last renew is of it.
proof fn lemma_started(events: Seq<Event>, id: LeaseId, j: int)
    requires
        last_renew(events, id) is Some,
        0 <= j < events.len(),
        sends_renew(events[j], id),
        forall|m: int| j < m < events.len() ==> !sends_renew(#[trigger] events[m], id),
    ensures
        forall|m: int| j < m < events.len() ==> !starts_grant(#[trigger] events[m], id),
    decreases events.len(),
{
    if j < events.len() - 1 {
        let rest = events.drop_last();
        assert(rest[j] == events[j]);
        assert(!sends_renew(events[events.len() - 1], id));
        assert forall|m: int| j < m < rest.len() implies !sends_renew(#[trigger] rest[m], id) by {
            assert(rest[m] == events[m]);
        }
        lemma_started(rest, id, j);
        assert forall|m: int| j < m < events.len() implies !starts_grant(
            #[trigger] events[m],
            id,
        ) by {
            if m < rest.len() {
                assert(rest[m] == events[m]);
            }
        }
    }
}

} // verus!
