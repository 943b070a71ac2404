//! Revocations. A grantor revokes a lease only when it is told to: every `Revoke` that
//! is sent uses up a command.

use crate::clock::Time;
use crate::dist::NormalDraw;
use crate::event::{Command, Event, EventKind, LeaseId, LeaseStatus, MsgFate, MsgKind, NodeId};
use crate::mail::{
    gives, is_message, is_unposted, lemma_reply_unposted, lemma_send_orders, orders,
};
use crate::moves::{
    is_guard, is_quiet, is_renewal, is_retreat, is_write_move, keep_apply, keep_poll,
    keep_receive_write, keep_write_tick, kept_by_moves, lemma_send_live, moves,
};
use crate::once::{lemma_initial_orders, lemma_no_tally};
use crate::progress::{
    lemma_initial, lemma_run_is, lemma_settles, lemma_steps_next, lemma_steps_ok, sized,
};
use crate::scenario::Config;
use crate::sim::{max_of, GranteeState, GrantorState, Sim};
use crate::timeline::{lemma_tally_first, Scheduled};
use crate::upkeep::{
    lemma_emit, lemma_lease_position, lemma_parties, lemma_popped, lemma_reply, lemma_send,
    lemma_with_grantee, lemma_with_grantor, message_ok, normal_ok,
};
use vstd::prelude::*;

verus! {

/// The event reports that a `Revoke` of the lease was sent.
pub open spec fn sends_revoke(e: Event, id: LeaseId) -> bool {
    e.kind matches EventKind::MessageSent { from, to, kind, .. } && from == id.grantor && to
        == id.grantee && kind == MsgKind::Revoke
}

/// How many times a `Revoke` of the lease was sent.
pub open spec fn revokes_sent(events: Seq<Event>, id: LeaseId) -> nat
    decreases events.len(),
{
    if events.len() == 0 {
        0
    } else {
        revokes_sent(events.drop_last(), id) + if sends_revoke(events.last(), id) {
            1nat
        } else {
            0nat
        }
    }
}

/// How many revocations of the lease have been sent or are commanded.
pub open spec fn revocations(s: Sim, id: LeaseId) -> nat {
    revokes_sent(s.pending, id) + orders(s.queue, Command::Revoke(id))
}

/// No `Revoke` of the lease goes out, and no command is added or taken.
spec fn leaves_revocations(a: Sim, b: Sim, id: LeaseId) -> bool {
    &&& b.cfg == a.cfg
    &&& revocations(b, id) == revocations(a, id)
}

proof fn lemma_push(events: Seq<Event>, e: Event, id: LeaseId)
    ensures
        revokes_sent(events.push(e), id) == revokes_sent(events, id) + if sends_revoke(e, id) {
            1nat
        } else {
            0nat
        },
{
    assert(events.push(e).drop_last() =~= events);
}

/// Where no message is sent.
proof fn lemma_unposted_revocations(a: Sim, b: Sim, id: LeaseId)
    requires
        b.cfg == a.cfg,
        is_unposted(a, b),
    ensures
        leaves_revocations(a, b, id),
{
    assert(orders(b.queue, Command::Revoke(id)) == orders(a.queue, Command::Revoke(id)));
    if b.pending != a.pending {
        let kind = choose|kind: EventKind|
            !is_message(kind) && b.pending == #[trigger] a.emit(kind).pending;
        lemma_push(a.pending, Event { at: a.now, kind }, id);
    }
}

/// A message is sent.
proof fn lemma_send_revocations(
    s: Sim,
    id: LeaseId,
    from: NodeId,
    to: NodeId,
    kind: MsgKind,
    tag: usize,
)
    requires
        s.ok(),
        message_ok(s.cfg, from, to, kind, tag),
    ensures
        s.send(from, to, kind, tag).cfg == s.cfg,
        revocations(s.send(from, to, kind, tag), id) <= revocations(s, id) + 1,
        kind != MsgKind::Revoke || from != id.grantor || to != id.grantee ==> leaves_revocations(
            s,
            s.send(from, to, kind, tag),
            id,
        ),
{
    lemma_send(s, from, to, kind, tag);
    lemma_send_live(s, from, to, kind, tag);
    lemma_send_orders(s, from, to, kind, tag);
    let b = s.send(from, to, kind, tag);
    assert(orders(b.queue, Command::Revoke(id)) == orders(s.queue, Command::Revoke(id)));
    let ev = EventKind::MessageSent {
        from,
        to,
        kind,
        sent: s.now,
        arrival: s.arrival_of(from, to) as Time,
        fate: s.fate_of(from, to, kind),
    };
    assert(b.pending == s.pending.push(Event { at: s.now, kind: ev }));
    lemma_push(s.pending, Event { at: s.now, kind: ev }, id);
}

/// A reply is deferred.
proof fn lemma_reply_revocations(
    s: Sim,
    id: LeaseId,
    from: NodeId,
    to: NodeId,
    kind: MsgKind,
    tag: usize,
)
    requires
        s.ok(),
        kind.is_reply(),
        message_ok(s.cfg, from, to, kind, tag),
    ensures
        leaves_revocations(s, s.reply_after_delay(from, to, kind, tag), id),
{
    lemma_reply(s, from, to, kind, tag);
    lemma_reply_unposted(s, from, to, kind, tag);
    lemma_unposted_revocations(s, s.reply_after_delay(from, to, kind, tag), id);
}

proof fn lemma_begin_guard_revocations(s: Sim, id: LeaseId, i: usize)
    requires
        s.ok(),
        i < s.leases.len(),
    ensures
        leaves_revocations(s, s.begin_guard(i), id),
{
    reveal(Sim::begin_guard);
    lemma_parties(s, i as int);
    let l = s.leases[i as int];
    let g = GrantorState {
        status: LeaseStatus::Guarding,
        intended: true,
        awaiting_reply: false,
        reguard_on_thaw: false,
        guard_since: s.local(l.id.grantor) as Time,
        ..l.grantor
    };
    lemma_with_grantor(s, i as int, g);
    let s1 = s.with_grantor(i as int, g);
    lemma_send_revocations(s1, id, l.id.grantor, l.id.grantee, MsgKind::Guard, i);
}

proof fn lemma_send_renew_revocations(s: Sim, id: LeaseId, i: usize)
    requires
        s.ok(),
        i < s.leases.len(),
    ensures
        leaves_revocations(s, s.send_renew(i), id),
{
    reveal(Sim::send_renew);
    lemma_parties(s, i as int);
    let l = s.leases[i as int];
    let b = s.local(l.id.grantor);
    let g = GrantorState {
        grant_expiry: max_of(l.grantor.grant_expiry as int, b + s.params().grant_len()) as Time,
        next_renew_due: (b + s.params().renew_interval) as Time,
        awaiting_reply: true,
        ..l.grantor
    };
    lemma_with_grantor(s, i as int, g);
    let s1 = s.with_grantor(i as int, g);
    lemma_send_revocations(s1, id, l.id.grantor, l.id.grantee, MsgKind::Renew, i);
}

spec fn at_most(cfg: Config, id: LeaseId, n: nat) -> spec_fn(Sim) -> bool {
    |s: Sim| s.cfg == cfg && revocations(s, id) <= n
}

proof fn lemma_moves_revoke_nothing(cfg: Config, id: LeaseId, n: nat)
    ensures
        kept_by_moves(at_most(cfg, id, n), true),
{
    let prop = at_most(cfg, id, n);
    assert forall|a: Sim, b: Sim|
        a.ok() && b.ok() && prop(a) && #[trigger] moves(a, b, true) implies prop(b) by {
        if is_quiet(a, b) || is_retreat(a, b) {
            lemma_unposted_revocations(a, b, id);
        } else if is_write_move(a, b) {
            if is_unposted(a, b) {
                lemma_unposted_revocations(a, b, id);
            } else {
                let (from, to, kind, tag) = choose|
                    from: NodeId,
                    to: NodeId,
                    kind: MsgKind,
                    tag: usize,
                |
                    kind.is_write_path() && message_ok(a.cfg, from, to, kind, tag) && b
                        == #[trigger] a.send(from, to, kind, tag);
                lemma_send_revocations(a, id, from, to, kind, tag);
            }
        } else if exists|i: usize| is_guard(a, b, i) {
            let i = choose|i: usize| is_guard(a, b, i);
            lemma_begin_guard_revocations(a, id, i);
        } else {
            let i = choose|i: usize| is_renewal(a, b, i);
            lemma_send_renew_revocations(a, id, i);
        }
    }
}

/// A party acts on a lease message.
proof fn lemma_receive_revocations(
    s: Sim,
    id: LeaseId,
    from: NodeId,
    to: NodeId,
    kind: MsgKind,
    tag: usize,
)
    requires
        s.ok(),
        message_ok(s.cfg, from, to, kind, tag),
        !kind.is_write_path(),
    ensures
        leaves_revocations(s, s.receive(from, to, kind, tag), id),
{
    let j = tag as int;
    let l = s.leases[j];
    lemma_parties(s, j);
    match kind {
        MsgKind::Guard => {
            reveal(Sim::on_guard);
            let g = GranteeState {
                guard_deadline: (s.local(l.id.grantee) + s.params().guard_len()) as Time,
                status: LeaseStatus::Guarding,
                ..l.grantee
            };
            let ev = EventKind::GranteeLease { lease: l.id, status: LeaseStatus::Guarding };
            lemma_with_grantee(s, j, g);
            let s1 = s.with_grantee(j, g);
            lemma_emit(s1, ev);
            lemma_push(s.pending, Event { at: s.now, kind: ev }, id);
            lemma_reply_revocations(
                s1.emit(ev),
                id,
                l.id.grantee,
                l.id.grantor,
                MsgKind::GuardReply,
                tag,
            );
        },
        MsgKind::GuardReply => {
            reveal(Sim::on_guard_reply);
            if l.grantor.status == LeaseStatus::Guarding {
                let d = s.local(l.id.grantor) as Time;
                let g = GrantorState {
                    status: LeaseStatus::Active,
                    last_reply: d,
                    next_renew_due: d,
                    ..l.grantor
                };
                let ev = EventKind::GrantorLease { lease: l.id, status: LeaseStatus::Active };
                lemma_with_grantor(s, j, g);
                let s1 = s.with_grantor(j, g);
                lemma_emit(s1, ev);
                lemma_push(s.pending, Event { at: s.now, kind: ev }, id);
                lemma_send_renew_revocations(s1.emit(ev), id, tag);
            }
        },
        MsgKind::Renew => {
            reveal(Sim::on_renew);
            if s.accepts_renew(j) {
                let g = GranteeState {
                    hold_expiry: (s.local(l.id.grantee) + s.params().hold_len()) as Time,
                    status: LeaseStatus::Active,
                    ..l.grantee
                };
                let ev = EventKind::GranteeLease { lease: l.id, status: LeaseStatus::Active };
                lemma_with_grantee(s, j, g);
                let s1 = s.with_grantee(j, g);
                lemma_emit(s1, ev);
                lemma_push(s.pending, Event { at: s.now, kind: ev }, id);
                let s2 = if l.grantee.status != LeaseStatus::Active {
                    s1.emit(ev)
                } else {
                    s1
                };
                lemma_reply_revocations(
                    s2,
                    id,
                    l.id.grantee,
                    l.id.grantor,
                    MsgKind::RenewReply,
                    tag,
                );
            }
        },
        MsgKind::RenewReply => {
            reveal(Sim::on_renew_reply);
        },
        MsgKind::Revoke => {
            reveal(Sim::on_revoke);
            let g = GranteeState {
                status: LeaseStatus::Expired,
                hold_expiry: s.local(l.id.grantee) as Time,
                ..l.grantee
            };
            let ev = EventKind::GranteeLease { lease: l.id, status: LeaseStatus::Expired };
            lemma_with_grantee(s, j, g);
            let s1 = s.with_grantee(j, g);
            lemma_emit(s1, ev);
            lemma_push(s.pending, Event { at: s.now, kind: ev }, id);
            let s2 = if l.holding() {
                s1.emit(ev)
            } else {
                s
            };
            lemma_reply_revocations(s2, id, l.id.grantee, l.id.grantor, MsgKind::RevokeReply, tag);
        },
        _ => {
            reveal(Sim::on_revoke_reply);
            let ev = EventKind::GrantorLease { lease: l.id, status: LeaseStatus::Expired };
            lemma_push(s.pending, Event { at: s.now, kind: ev }, id);
        },
    }
}

/// One step.
proof fn lemma_step_revocations(s: Sim, id: LeaseId)
    requires
        s.ok(),
        sized(s),
        s.queue.len() > 0,
        s.queue[0].at <= s.cfg.duration,
    ensures
        revocations(s.step(), id) <= revocations(s, id),
{
    lemma_popped(s);
    lemma_tally_first(s.queue, gives(Command::Revoke(id)));
    let a = s.popped();
    let n = revocations(a, id);
    let prop = at_most(s.cfg, id, n);
    lemma_moves_revoke_nothing(s.cfg, id, n);
    assert(prop(a));
    match s.queue[0].item {
        Scheduled::Poll { node } => {
            keep_poll(prop, true, a, node);
            assert(prop(a.poll(node)));
        },
        Scheduled::WriteTick => {
            keep_write_tick(prop, true, a);
            assert(prop(a.write_tick()));
        },
        Scheduled::Command(cmd) => {
            if let Command::Revoke(other) = cmd {
                reveal(Sim::apply);
                reveal(Sim::begin_revoke);
                lemma_lease_position(a.leases, other, 0);
                if a.declared(other) {
                    let j = a.lease_index(other) as usize;
                    let l = a.leases[j as int];
                    let g = GrantorState { intended: false, ..l.grantor };
                    lemma_parties(a, j as int);
                    lemma_with_grantor(a, j as int, g);
                    let a1 = a.with_grantor(j as int, g);
                    lemma_send_revocations(a1, id, l.id.grantor, l.id.grantee, MsgKind::Revoke, j);
                    assert(revocations(a1, id) == n);
                }
            } else {
                keep_apply(prop, true, a, cmd);
                assert(prop(a.apply(cmd)));
            }
        },
        Scheduled::Send { from, to, kind, tag } => {
            lemma_send_revocations(a, id, from, to, kind, tag);
        },
        Scheduled::Arrival { from, to, kind, tag, fate } => {
            reveal(Sim::arrive);
            let lost = EventKind::MessageDropped { from, to, kind };
            lemma_push(a.pending, Event { at: a.now, kind: lost }, id);
            let ev = EventKind::MessageDelivered { from, to, kind };
            lemma_push(a.pending, Event { at: a.now, kind: ev }, id);
            lemma_emit(a, ev);
            let q = a.emit(ev);
            if fate == MsgFate::Delivered && a.nodes[to as int].up {
                if kind.is_write_path() {
                    assert(prop(q));
                    keep_receive_write(prop, true, q, from, to, kind, tag);
                    assert(prop(q.receive(from, to, kind, tag)));
                } else {
                    lemma_receive_revocations(q, id, from, to, kind, tag);
                }
            }
        },
    }
}

proof fn lemma_steps_revocations(s: Sim, id: LeaseId, t: int, n: nat)
    requires
        s.ok(),
        sized(s),
        t <= s.cfg.duration,
    ensures
        revocations(s.steps(t, n), id) <= revocations(s, id),
    decreases n,
{
    if n > 0 {
        lemma_steps_revocations(s, id, t, (n - 1) as nat);
        let before = s.steps(t, (n - 1) as nat);
        lemma_steps_next(s, t, (n - 1) as nat);
        lemma_steps_ok(s, t, (n - 1) as nat);
        if !before.settled(t) {
            lemma_step_revocations(before, id);
        }
    }
}

/// An event that counts.
proof fn lemma_counted(events: Seq<Event>, id: LeaseId, k: int)
    requires
        0 <= k < events.len(),
        sends_revoke(events[k], id),
    ensures
        revokes_sent(events, id) >= 1,
    decreases events.len(),
{
    if k < events.len() - 1 {
        lemma_counted(events.drop_last(), id, k);
    }
}

/// Every `Revoke` of a lease that goes out uses up a command to revoke it: as a run
/// goes on, those sent and those still commanded never become more.
pub proof fn law_every_revoke_takes_a_command(s: Sim, id: LeaseId, t: int)
    requires
        s.ok(),
        sized(s),
    ensures
        revocations(s.advanced(t), id) <= revocations(s, id),
{
    let target = s.target(t);
    let n = lemma_settles(s, target);
    lemma_run_is(s, target, n);
    lemma_steps_revocations(s, id, target, n);
}

/// Where no command to revoke is due, no `Revoke` goes out.
pub proof fn law_no_revoke_without_command(s: Sim, t: int)
    requires
        s.ok(),
        sized(s),
        s.pending.len() == 0,
        forall|k: int|
            0 <= k < s.queue.len() ==> !((#[trigger] s.queue[k]).item matches Scheduled::Command(
                cmd,
            ) && cmd is Revoke),
    ensures
        forall|k: int|
            0 <= k < s.advanced(t).pending.len() ==> !((
            #[trigger] s.advanced(t).pending[k]).kind matches EventKind::MessageSent { kind, .. }
                && kind == MsgKind::Revoke),
{
    let b = s.advanced(t);
    assert forall|k: int| 0 <= k < b.pending.len() implies !((
    #[trigger] b.pending[k]).kind matches EventKind::MessageSent { kind, .. } && kind
        == MsgKind::Revoke) by {
        if let EventKind::MessageSent { from, to, kind, .. } = b.pending[k].kind {
            if kind == MsgKind::Revoke {
                let id = LeaseId { grantor: from, grantee: to };
                lemma_no_tally(s.queue, gives(Command::Revoke(id)));
                law_every_revoke_takes_a_command(s, id, t);
                lemma_counted(b.pending, id, k);
            }
        }
    }
}

/// In a run whose script revokes nothing, no `Revoke` is ever sent: leases end by
/// themselves.
pub proof fn law_no_revoke_without_script(
    cfg: Config,
    normal: spec_fn(NormalDraw) -> Time,
    t: int,
)
    requires
        cfg.valid(),
        normal_ok(normal),
        sized(Sim::blank(cfg, normal)),
        forall|k: int| 0 <= k < cfg.commands.len() ==> !((#[trigger] cfg.commands[k]).1 is Revoke),
    ensures
        forall|k: int|
            0 <= k < Sim::initial(cfg, normal).advanced(t).pending.len() ==> !((
            #[trigger] Sim::initial(cfg, normal).advanced(
                t,
            ).pending[k]).kind matches EventKind::MessageSent { kind, .. } && kind
                == MsgKind::Revoke),
{
    let s = Sim::initial(cfg, normal);
    lemma_initial(cfg, normal);
    let b = s.advanced(t);
    assert forall|k: int| 0 <= k < b.pending.len() implies !((
    #[trigger] b.pending[k]).kind matches EventKind::MessageSent { kind, .. } && kind
        == MsgKind::Revoke) by {
        if let EventKind::MessageSent { from, to, kind, .. } = b.pending[k].kind {
            if kind == MsgKind::Revoke {
                let id = LeaseId { grantor: from, grantee: to };
                lemma_initial_orders(cfg, normal, Command::Revoke(id));
                law_every_revoke_takes_a_command(s, id, t);
                lemma_counted(b.pending, id, k);
            }
        }
    }
}

} // verus!
