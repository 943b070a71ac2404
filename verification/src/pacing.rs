//! One renew at a time. Over all that is reported of a run: between two renews of a
//! lease, an answer of the grantee reached the grantor. So a grantor that gets no
//! answer sends no further renew.

use crate::clock::Time;
use crate::dist::NormalDraw;
use crate::event::{Command, Event, EventKind, LeaseId, LeaseStatus, MsgFate, MsgKind, NodeId};
use crate::history::lemma_steps_after_history;
use crate::mail::is_message;
use crate::moves::{
    is_guard, is_quiet, is_renewal, is_retreat, is_write_move, keep_apply, keep_poll,
    keep_receive_write, keep_write_tick, kept_by_moves, lemma_send_live, moves,
};
use crate::progress::{
    lemma_advanced, lemma_initial, lemma_run_is, lemma_settles, lemma_steps_next, lemma_steps_ok,
    sized,
};
use crate::scenario::Config;
use crate::sim::{max_of, GranteeState, GrantorState, Sim};
use crate::timeline::Scheduled;
use crate::upkeep::{
    events_ok, lemma_emit, lemma_lease_position, lemma_parties, lemma_popped, lemma_reply,
    lemma_send, lemma_with_grantee, lemma_with_grantor, message_ok, normal_ok,
};
use vstd::prelude::*;

verus! {

/// The event reports that a renew of the lease was sent.
pub open spec fn sends_renew(e: Event, id: LeaseId) -> bool {
    e.kind matches EventKind::MessageSent { from, to, kind, .. } && from == id.grantor && to
        == id.grantee && kind == MsgKind::Renew
}

/// The event reports that the grantee's answer to a renew or a guard reached the
/// grantor.
pub open spec fn brings_answer(e: Event, id: LeaseId) -> bool {
    e.kind matches EventKind::MessageDelivered { from, to, kind } && from == id.grantee && to
        == id.grantor && (kind == MsgKind::RenewReply || kind == MsgKind::GuardReply)
}

/// A renew was sent, and no answer has come since.
pub open spec fn unanswered(events: Seq<Event>, id: LeaseId) -> bool {
    exists|j: int|
        0 <= j < events.len() && sends_renew(#[trigger] events[j], id) && forall|m: int|
            j < m < events.len() ==> !brings_answer(#[trigger] events[m], id)
}

/// Between any two renews an answer came.
pub open spec fn answered_between(events: Seq<Event>, id: LeaseId) -> bool {
    forall|j: int, k: int|
        0 <= j < k < events.len() && sends_renew(#[trigger] events[j], id) && sends_renew(
            #[trigger] events[k],
            id,
        ) ==> exists|m: int| j < m < k && brings_answer(#[trigger] events[m], id)
}

/// The lease is declared once.
pub open spec fn declared_once(cfg: Config, i: int) -> bool {
    &&& 0 <= i < cfg.leases.len()
    &&& forall|j: int|
        0 <= j < cfg.leases.len() && #[trigger] cfg.leases[j] == cfg.leases[i] ==> j == i
}

/// Where the pending events are all that have happened so far: the renews of lease
/// `i` were answered in between, and the last one too if the grantor would send
/// another.
pub open spec fn paced(s: Sim, i: int) -> bool {
    let id = s.cfg.leases[i];
    let g = s.leases[i].grantor;
    &&& answered_between(s.pending, id)
    &&& g.status == LeaseStatus::Active && !g.awaiting_reply ==> !unanswered(s.pending, id)
}

// ---- Changes of a state ----------------------------------------------------

/// One more event.
proof fn lemma_push(events: Seq<Event>, e: Event, id: LeaseId)
    requires
        answered_between(events, id),
        sends_renew(e, id) ==> !unanswered(events, id),
    ensures
        answered_between(events.push(e), id),
        brings_answer(e, id) ==> !unanswered(events.push(e), id),
        !sends_renew(e, id) && unanswered(events.push(e), id) ==> unanswered(events, id),
{
    let n = events.len() as int;
    let all = events.push(e);
    assert forall|j: int, k: int|
        0 <= j < k < all.len() && sends_renew(#[trigger] all[j], id) && sends_renew(
            #[trigger] all[k],
            id,
        ) implies exists|m: int| j < m < k && brings_answer(#[trigger] all[m], id) by {
        assert(events[j] == all[j]);
        if k < n {
            assert(events[k] == all[k]);
            let m = choose|m: int| j < m < k && brings_answer(#[trigger] events[m], id);
            assert(all[m] == events[m]);
        } else {
            assert(!unanswered(events, id));
            let m = choose|m: int| j < m < events.len() && brings_answer(#[trigger] events[m], id);
            assert(all[m] == events[m]);
        }
    }
    if unanswered(all, id) {
        let j = choose|j: int|
            0 <= j < all.len() && sends_renew(#[trigger] all[j], id) && forall|m: int|
                j < m < all.len() ==> !brings_answer(#[trigger] all[m], id);
        if j < n {
            assert(!brings_answer(all[n], id));
            assert(sends_renew(events[j], id));
            assert forall|m: int| j < m < events.len() implies !brings_answer(
                #[trigger] events[m],
                id,
            ) by {
                assert(all[m] == events[m]);
            }
            assert(unanswered(events, id));
        }
    }
}

/// At most one more event happens, and it is no renew of the lease; a grantor that
/// would send another renew would have before.
proof fn lemma_paced_kept(a: Sim, b: Sim, i: int, kind: EventKind)
    requires
        paced(a, i),
        b.cfg == a.cfg,
        b.pending == a.pending || b.pending == a.emit(kind).pending,
        !sends_renew(Event { at: a.now, kind }, a.cfg.leases[i]),
        ({
            let (g, h) = (a.leases[i].grantor, b.leases[i].grantor);
            h.status == LeaseStatus::Active && !h.awaiting_reply ==> g.status
                == LeaseStatus::Active && !g.awaiting_reply
        }),
    ensures
        paced(b, i),
{
    lemma_push(a.pending, Event { at: a.now, kind }, a.cfg.leases[i]);
}

/// A message of lease `j` goes out, other than a renew of lease `i`.
proof fn lemma_sent_paced(
    a: Sim,
    i: int,
    from: NodeId,
    to: NodeId,
    kind: MsgKind,
    tag: usize,
)
    requires
        a.ok(),
        paced(a, i),
        message_ok(a.cfg, from, to, kind, tag),
        kind == MsgKind::Renew ==> from != a.cfg.leases[i].grantor || to
            != a.cfg.leases[i].grantee,
    ensures
        paced(a.send(from, to, kind, tag), i),
{
    lemma_send(a, from, to, kind, tag);
    lemma_send_live(a, from, to, kind, tag);
    lemma_paced_kept(
        a,
        a.send(from, to, kind, tag),
        i,
        EventKind::MessageSent {
            from,
            to,
            kind,
            sent: a.now,
            arrival: a.arrival_of(from, to) as Time,
            fate: a.fate_of(from, to, kind),
        },
    );
}

/// A renew goes out: if of lease `i`, every earlier one has been answered.
proof fn lemma_send_renew_paced(s: Sim, i: int, j: usize)
    requires
        s.ok(),
        declared_once(s.cfg, i),
        paced(s, i),
        j < s.leases.len(),
        j == i ==> !unanswered(s.pending, s.cfg.leases[i]),
    ensures
        paced(s.send_renew(j), i),
        s.send_renew(j).cfg == s.cfg,
{
    reveal(Sim::send_renew);
    lemma_parties(s, j as int);
    let l = s.leases[j as int];
    let b = s.local(l.id.grantor);
    let g = GrantorState {
        grant_expiry: max_of(l.grantor.grant_expiry as int, b + s.params().grant_len()) as Time,
        next_renew_due: (b + s.params().renew_interval) as Time,
        awaiting_reply: true,
        ..l.grantor
    };
    lemma_with_grantor(s, j as int, g);
    let s1 = s.with_grantor(j as int, g);
    let (from, to) = (l.id.grantor, l.id.grantee);
    lemma_send(s1, from, to, MsgKind::Renew, j);
    lemma_send_live(s1, from, to, MsgKind::Renew, j);
    if j == i {
        let kind = EventKind::MessageSent {
            from,
            to,
            kind: MsgKind::Renew,
            sent: s1.now,
            arrival: s1.arrival_of(from, to) as Time,
            fate: s1.fate_of(from, to, MsgKind::Renew),
        };
        lemma_push(s.pending, Event { at: s.now, kind }, s.cfg.leases[i]);
    } else {
        assert(s.cfg.leases[j as int] != s.cfg.leases[i]);
        assert(paced(s1, i));
        lemma_sent_paced(s1, i, from, to, MsgKind::Renew, j);
    }
}

/// A guard opens.
proof fn lemma_begin_guard_paced(s: Sim, i: int, j: usize)
    requires
        s.ok(),
        declared_once(s.cfg, i),
        paced(s, i),
        j < s.leases.len(),
    ensures
        paced(s.begin_guard(j), i),
        s.begin_guard(j).cfg == s.cfg,
{
    reveal(Sim::begin_guard);
    lemma_parties(s, j as int);
    let l = s.leases[j as int];
    let g = GrantorState {
        status: LeaseStatus::Guarding,
        intended: true,
        awaiting_reply: false,
        reguard_on_thaw: false,
        guard_since: s.local(l.id.grantor) as Time,
        ..l.grantor
    };
    lemma_with_grantor(s, j as int, g);
    let s1 = s.with_grantor(j as int, g);
    assert(paced(s1, i));
    lemma_sent_paced(s1, i, l.id.grantor, l.id.grantee, MsgKind::Guard, j);
    lemma_send(s1, l.id.grantor, l.id.grantee, MsgKind::Guard, j);
}

spec fn paced_in(cfg: Config, i: int) -> spec_fn(Sim) -> bool {
    |s: Sim| s.cfg == cfg && paced(s, i)
}

proof fn lemma_paced_moves(cfg: Config, i: int)
    requires
        declared_once(cfg, i),
    ensures
        kept_by_moves(paced_in(cfg, i), true),
{
    let prop = paced_in(cfg, i);
    let none = EventKind::WriteStarted { leader: 0 };
    assert forall|a: Sim, b: Sim|
        a.ok() && b.ok() && prop(a) && #[trigger] moves(a, b, true) implies prop(b) by {
        if is_quiet(a, b) || is_retreat(a, b) {
            if is_retreat(a, b) {
                assert(b.leases[i].id == a.leases[i].id);
            }
            if b.pending == a.pending {
                lemma_paced_kept(a, b, i, none);
            } else {
                let kind = choose|kind: EventKind|
                    !is_message(kind) && b.pending == #[trigger] a.emit(kind).pending;
                lemma_paced_kept(a, b, i, kind);
            }
        } else if is_write_move(a, b) {
            if crate::mail::is_unposted(a, b) {
                if b.pending == a.pending {
                    lemma_paced_kept(a, b, i, none);
                } else {
                    let kind = choose|kind: EventKind|
                        !is_message(kind) && b.pending == #[trigger] a.emit(kind).pending;
                    lemma_paced_kept(a, b, i, kind);
                }
            } else {
                let (from, to, kind, tag) = choose|
                    from: NodeId,
                    to: NodeId,
                    kind: MsgKind,
                    tag: usize,
                |
                    kind.is_write_path() && message_ok(a.cfg, from, to, kind, tag) && b
                        == #[trigger] a.send(from, to, kind, tag);
                lemma_sent_paced(a, i, from, to, kind, tag);
            }
        } else if exists|j: usize| is_guard(a, b, j) {
            let j = choose|j: usize| is_guard(a, b, j);
            lemma_begin_guard_paced(a, i, j);
        } else {
            let j = choose|j: usize| is_renewal(a, b, j);
            lemma_send_renew_paced(a, i, j);
        }
    }
}

/// A party acts on a lease message. If it is the grantee's answer, that has just been
/// reported.
proof fn lemma_receive_paced(
    s: Sim,
    i: int,
    from: NodeId,
    to: NodeId,
    kind: MsgKind,
    tag: usize,
)
    requires
        s.ok(),
        declared_once(s.cfg, i),
        paced(s, i),
        message_ok(s.cfg, from, to, kind, tag),
        !kind.is_write_path(),
        tag == i && (kind == MsgKind::RenewReply || kind == MsgKind::GuardReply) ==> !unanswered(
            s.pending,
            s.cfg.leases[i],
        ),
    ensures
        paced(s.receive(from, to, kind, tag), i),
{
    let j = tag as int;
    let l = s.leases[j];
    let b = s.receive(from, to, kind, tag);
    let none = EventKind::WriteStarted { leader: 0 };
    lemma_parties(s, j);
    match kind {
        MsgKind::Guard => {
            reveal(Sim::on_guard);
            let g = GranteeState {
                guard_deadline: (s.local(l.id.grantee) + s.params().guard_len()) as Time,
                status: LeaseStatus::Guarding,
                ..l.grantee
            };
            let ev = EventKind::GranteeLease { lease: l.id, status: LeaseStatus::Guarding };
            lemma_with_grantee(s, j, g);
            let s1 = s.with_grantee(j, g);
            lemma_emit(s1, ev);
            lemma_reply(s1.emit(ev), l.id.grantee, l.id.grantor, MsgKind::GuardReply, tag);
            assert(b.pending == s.emit(ev).pending);
            lemma_paced_kept(s, b, i, ev);
        },
        MsgKind::GuardReply => {
            reveal(Sim::on_guard_reply);
            if l.grantor.status == LeaseStatus::Guarding {
                let d = s.local(l.id.grantor) as Time;
                let g = GrantorState {
                    status: LeaseStatus::Active,
                    last_reply: d,
                    next_renew_due: d,
                    ..l.grantor
                };
                let ev = EventKind::GrantorLease { lease: l.id, status: LeaseStatus::Active };
                lemma_with_grantor(s, j, g);
                let s1 = s.with_grantor(j, g);
                lemma_emit(s1, ev);
                let s2 = s1.emit(ev);
                lemma_push(s.pending, Event { at: s.now, kind: ev }, s.cfg.leases[i]);
                assert(s2.pending == s.pending.push(Event { at: s.now, kind: ev }));
                lemma_send_renew_paced(s2, i, tag);
            }
        },
        MsgKind::Renew => {
            reveal(Sim::on_renew);
            if s.accepts_renew(j) {
                let g = GranteeState {
                    hold_expiry: (s.local(l.id.grantee) + s.params().hold_len()) as Time,
                    status: LeaseStatus::Active,
                    ..l.grantee
                };
                let ev = EventKind::GranteeLease { lease: l.id, status: LeaseStatus::Active };
                lemma_with_grantee(s, j, g);
                let s1 = s.with_grantee(j, g);
                lemma_emit(s1, ev);
                let s2 = if l.grantee.status != LeaseStatus::Active {
                    s1.emit(ev)
                } else {
                    s1
                };
                lemma_reply(s2, l.id.grantee, l.id.grantor, MsgKind::RenewReply, tag);
                assert(s1.emit(ev).pending == s.emit(ev).pending);
                lemma_paced_kept(s, b, i, ev);
            }
        },
        MsgKind::RenewReply => {
            reveal(Sim::on_renew_reply);
            if j != i {
                lemma_paced_kept(s, b, i, none);
            }
        },
        MsgKind::Revoke => {
            reveal(Sim::on_revoke);
            let g = GranteeState {
                status: LeaseStatus::Expired,
                hold_expiry: s.local(l.id.grantee) as Time,
                ..l.grantee
            };
            let ev = EventKind::GranteeLease { lease: l.id, status: LeaseStatus::Expired };
            lemma_with_grantee(s, j, g);
            let s1 = s.with_grantee(j, g);
            lemma_emit(s1, ev);
            let s2 = if l.holding() {
                s1.emit(ev)
            } else {
                s
            };
            lemma_reply(s2, l.id.grantee, l.id.grantor, MsgKind::RevokeReply, tag);
            assert(s1.emit(ev).pending == s.emit(ev).pending);
            lemma_paced_kept(s, b, i, ev);
        },
        _ => {
            reveal(Sim::on_revoke_reply);
            let ev = EventKind::GrantorLease { lease: l.id, status: LeaseStatus::Expired };
            if l.granting() {
                assert(b.pending == s.emit(ev).pending);
            }
            lemma_paced_kept(s, b, i, ev);
        },
    }
}

/// A lease is revoked.
proof fn lemma_begin_revoke_paced(s: Sim, i: int, j: usize)
    requires
        s.ok(),
        0 <= i < s.leases.len(),
        paced(s, i),
        j < s.leases.len(),
    ensures
        paced(s.begin_revoke(j), i),
{
    reveal(Sim::begin_revoke);
    lemma_parties(s, j as int);
    let l = s.leases[j as int];
    let g = GrantorState { intended: false, ..l.grantor };
    lemma_with_grantor(s, j as int, g);
    let s1 = s.with_grantor(j as int, g);
    assert(paced(s1, i));
    lemma_sent_paced(s1, i, l.id.grantor, l.id.grantee, MsgKind::Revoke, j);
}

/// One step.
proof fn lemma_step_paced(s: Sim, i: int)
    requires
        s.ok(),
        sized(s),
        s.queue.len() > 0,
        s.queue[0].at <= s.cfg.duration,
        declared_once(s.cfg, i),
        paced(s, i),
    ensures
        paced(s.step(), i),
{
    lemma_popped(s);
    lemma_paced_moves(s.cfg, i);
    let a = s.popped();
    let prop = paced_in(s.cfg, i);
    assert(prop(a));
    match s.queue[0].item {
        Scheduled::Poll { node } => {
            keep_poll(prop, true, a, node);
            assert(prop(a.poll(node)));
        },
        Scheduled::WriteTick => {
            keep_write_tick(prop, true, a);
            assert(prop(a.write_tick()));
        },
        Scheduled::Command(cmd) => {
            if let Command::Revoke(id) = cmd {
                reveal(Sim::apply);
                lemma_lease_position(a.leases, id, 0);
                if a.declared(id) {
                    lemma_begin_revoke_paced(a, i, a.lease_index(id) as usize);
                }
            } else {
                keep_apply(prop, true, a, cmd);
                assert(prop(a.apply(cmd)));
            }
        },
        Scheduled::Send { from, to, kind, tag } => {
            lemma_sent_paced(a, i, from, to, kind, tag);
        },
        Scheduled::Arrival { from, to, kind, tag, fate } => {
            reveal(Sim::arrive);
            let lost = EventKind::MessageDropped { from, to, kind };
            lemma_paced_kept(a, a.emit(lost), i, lost);
            let ev = EventKind::MessageDelivered { from, to, kind };
            lemma_emit(a, ev);
            let q = a.emit(ev);
            lemma_paced_kept(a, q, i, ev);
            if fate == MsgFate::Delivered && a.nodes[to as int].up {
                if kind.is_write_path() {
                    assert(prop(q));
                    keep_receive_write(prop, true, q, from, to, kind, tag);
                    assert(prop(q.receive(from, to, kind, tag)));
                } else {
                    lemma_push(a.pending, Event { at: a.now, kind: ev }, s.cfg.leases[i]);
                    lemma_receive_paced(q, i, from, to, kind, tag);
                }
            }
        },
    }
}

proof fn lemma_steps_paced(s: Sim, i: int, t: int, n: nat)
    requires
        s.ok(),
        sized(s),
        t <= s.cfg.duration,
        declared_once(s.cfg, i),
        paced(s, i),
    ensures
        paced(s.steps(t, n), i),
    decreases n,
{
    if n > 0 {
        lemma_steps_paced(s, i, t, (n - 1) as nat);
        let before = s.steps(t, (n - 1) as nat);
        lemma_steps_next(s, t, (n - 1) as nat);
        lemma_steps_ok(s, t, (n - 1) as nat);
        if !before.settled(t) {
            lemma_step_paced(before, i);
        }
    }
}

// ---- Laws ------------------------------------------------------------------

/// A run between two calls, of which `events` are all the events so far: renews of
/// lease `i` have waited for answers.
pub open spec fn paced_so_far(s: Sim, events: Seq<Event>, i: int) -> bool {
    &&& s.pending.len() == 0
    &&& events_ok(s.now, events)
    &&& paced(Sim { pending: events, ..s }, i)
}

/// Before anything has happened, no renew was sent.
pub proof fn law_paced_at_start(cfg: Config, normal: spec_fn(NormalDraw) -> Time, i: int)
    requires
        cfg.valid(),
        normal_ok(normal),
        sized(Sim::blank(cfg, normal)),
        0 <= i < cfg.leases.len(),
    ensures
        paced_so_far(Sim::initial(cfg, normal), Seq::empty(), i),
{
    lemma_initial(cfg, normal);
}

/// Advancing a run adds its events to those before, and renews still wait for
/// answers.
pub proof fn law_advancing_keeps_paced(s: Sim, events: Seq<Event>, i: int, t: int)
    requires
        s.ok(),
        sized(s),
        declared_once(s.cfg, i),
        paced_so_far(s, events, i),
    ensures
        paced_so_far(s.advanced(t).taken(), events + s.advanced(t).pending, i),
{
    let h = Sim { pending: events, ..s };
    let target = s.target(t);
    let n = lemma_settles(s, target);
    lemma_run_is(s, target, n);
    lemma_advanced(s, t);
    lemma_steps_ok(s, target, n);
    let r = s.steps(target, n);
    let b = s.advanced(t);
    assert(h =~= s.after_history(events, Seq::empty()));
    lemma_steps_after_history(s, target, n, events, Seq::empty());
    assert(h.ok());
    lemma_steps_paced(h, i, target, n);
    lemma_steps_ok(h, target, n);
    let g = h.steps(target, n);
    assert(g.pending == events + r.pending);
    let c = Sim { pending: events + b.pending, ..b.taken() };
    assert(c.pending == g.pending && c.leases == g.leases && c.cfg == g.cfg);
    assert(events_ok(b.now, c.pending));
}

/// A command given to a run does not change what renews wait for.
pub proof fn law_commands_keep_paced(s: Sim, events: Seq<Event>, i: int, at: Time, cmd: Command)
    requires
        paced_so_far(s, events, i),
    ensures
        paced_so_far(s.schedule(at as int, Scheduled::Command(cmd)), events, i),
{
}

/// Between two renews of a lease, the grantee's answer to a renew or a guard reached
/// the grantor: at most one renew is without an answer.
pub proof fn law_renews_wait_for_answers(s: Sim, events: Seq<Event>, i: int, j: int, k: int)
    requires
        paced_so_far(s, events, i),
        0 <= j < k < events.len(),
        sends_renew(events[j], s.cfg.leases[i]),
        sends_renew(events[k], s.cfg.leases[i]),
    ensures
        exists|m: int| j < m < k && brings_answer(#[trigger] events[m], s.cfg.leases[i]),
{
}

} // verus!
