//! What becomes of messages. Every message that is sent arrives or is lost, once and
//! at the time that was fixed when it was sent; nothing else arrives or is lost; and
//! until then it is in flight.

use crate::clock::Time;
use crate::dist::NormalDraw;
use crate::event::{Command, Event, EventKind, MsgFate, MsgKind, NodeId};
use crate::frame::{msg_shape, under_way, MsgShape};
use crate::history::lemma_steps_after_history;
use crate::moves::{
    is_guard, is_quiet, is_renewal, is_retreat, is_write_move, keep_apply, keep_poll,
    keep_receive_write, keep_write_tick, kept_by_moves, moves,
};
use crate::progress::{
    lemma_advanced, lemma_initial, lemma_run_is, lemma_settles, lemma_steps_next, lemma_steps_ok,
    sized,
};
use crate::scenario::Config;
use crate::sim::{max_of, GranteeState, GrantorState, InFlight, Sim};
use crate::timeline::{
    enqueue, in_time_order, lemma_enqueue, lemma_tally_enqueue, tally, Scheduled, Timed,
};
use crate::upkeep::{
    events_ok, lemma_arrival, lemma_emit, lemma_lease_position, lemma_parties, lemma_popped,
    lemma_reply, lemma_with_grantee, lemma_with_grantor, message_ok, normal_ok,
};
use vstd::multiset::Multiset;
use vstd::prelude::*;

verus! {

/// The end of a message's way: where, what, whether it is delivered or dropped, and
/// when.
pub struct Letter {
    pub from: NodeId,
    pub to: NodeId,
    pub kind: MsgKind,
    pub fate: MsgFate,
    pub at: Time,
}

/// The event is about a message.
pub open spec fn is_message(kind: EventKind) -> bool {
    kind is MessageSent || kind is MessageDelivered || kind is MessageDropped
}

/// What a timeline entry will bring to its end.
pub open spec fn ending(e: Timed) -> Multiset<Letter> {
    match e.item {
        Scheduled::Arrival { from, to, kind, fate, .. } => Multiset::singleton(
            Letter { from, to, kind, fate, at: e.at },
        ),
        _ => Multiset::empty(),
    }
}

/// The messages that have been sent and have yet to arrive or be lost.
pub open spec fn posted(queue: Seq<Timed>) -> Multiset<Letter>
    decreases queue.len(),
{
    if queue.len() == 0 {
        Multiset::empty()
    } else {
        posted(queue.drop_last()).add(ending(queue.last()))
    }
}

/// What an event announces, if it reports that a message was sent.
pub open spec fn announced(e: Event) -> Multiset<Letter> {
    match e.kind {
        EventKind::MessageSent { from, to, kind, arrival, fate, .. } => Multiset::singleton(
            Letter { from, to, kind, fate, at: arrival },
        ),
        _ => Multiset::empty(),
    }
}

/// What an event concludes, if it reports that a message was delivered or dropped.
pub open spec fn concluded(e: Event) -> Multiset<Letter> {
    match e.kind {
        EventKind::MessageDelivered { from, to, kind } => Multiset::singleton(
            Letter { from, to, kind, fate: MsgFate::Delivered, at: e.at },
        ),
        EventKind::MessageDropped { from, to, kind } => Multiset::singleton(
            Letter { from, to, kind, fate: MsgFate::Dropped, at: e.at },
        ),
        _ => Multiset::empty(),
    }
}

/// What the events announce: one letter for each `MessageSent`.
pub open spec fn sends(events: Seq<Event>) -> Multiset<Letter>
    decreases events.len(),
{
    if events.len() == 0 {
        Multiset::empty()
    } else {
        sends(events.drop_last()).add(announced(events.last()))
    }
}

/// What the events conclude: one letter for each `MessageDelivered` and
/// `MessageDropped`.
pub open spec fn ends(events: Seq<Event>) -> Multiset<Letter>
    decreases events.len(),
{
    if events.len() == 0 {
        Multiset::empty()
    } else {
        ends(events.drop_last()).add(concluded(events.last()))
    }
}

/// The messages that the events report as sent, in that order.
pub open spec fn flights(events: Seq<Event>) -> Seq<InFlight>
    decreases events.len(),
{
    if events.len() == 0 {
        Seq::empty()
    } else {
        let before = flights(events.drop_last());
        match events.last().kind {
            EventKind::MessageSent { from, to, kind, sent, arrival, fate } => before.push(
                InFlight { from, to, kind, sent, arrival, fate },
            ),
            _ => before,
        }
    }
}

/// The message arrives, or is lost, after time `now`.
pub open spec fn later(now: Time) -> spec_fn(InFlight) -> bool {
    |m: InFlight| m.arrival > now
}

/// A message is sent when it is reported as sent, and takes at least one tick.
pub open spec fn sends_are_dated(events: Seq<Event>) -> bool {
    forall|k: int|
        0 <= k < events.len() ==> ((#[trigger] events[k]).kind matches EventKind::MessageSent {
            sent,
            arrival,
            ..
        } ==> events[k].at == sent && sent < arrival)
}

/// Where the pending events are all that have happened so far: what was sent has
/// ended or is posted, what is posted was sent, and what was sent and has not ended
/// is in flight.
pub open spec fn mail_ok(s: Sim) -> bool {
    &&& sends(s.pending) == ends(s.pending).add(posted(s.queue))
    &&& sends_are_dated(s.pending)
    &&& s.in_flight.filter(later(s.now)) == flights(s.pending).filter(later(s.now))
}

/// The entry gives the command.
pub open spec fn gives(cmd: Command) -> spec_fn(Timed) -> bool {
    |e: Timed| e.item == Scheduled::Command(cmd)
}

/// How often the command is still to be given.
pub open spec fn orders(queue: Seq<Timed>, cmd: Command) -> nat {
    tally(queue, gives(cmd))
}

/// No message is sent, arrives or is lost, and no command is added or taken.
pub open spec fn is_unposted(a: Sim, b: Sim) -> bool {
    &&& b.in_flight == a.in_flight
    &&& forall|cmd: Command| #[trigger] orders(b.queue, cmd) == orders(a.queue, cmd)
    &&& posted(b.queue) == posted(a.queue)
    &&& b.pending == a.pending || exists|kind: EventKind|
        !is_message(kind) && b.pending == #[trigger] a.emit(kind).pending
}

// ---- Timelines and events --------------------------------------------------

/// One more entry on the timeline.
pub proof fn lemma_posted_enqueue(queue: Seq<Timed>, e: Timed)
    requires
        in_time_order(queue),
    ensures
        posted(enqueue(queue, e)) == posted(queue).add(ending(e)),
        !(e.item is Arrival) ==> posted(enqueue(queue, e)) == posted(queue),
    decreases queue.len(),
{
    lemma_enqueue(queue, e);
    if queue.len() == 0 || queue.last().at <= e.at {
        assert(enqueue(queue, e) =~= queue.push(e));
        assert(queue.push(e).drop_last() =~= queue);
    } else {
        let rest = queue.drop_last();
        lemma_posted_enqueue(rest, e);
        lemma_enqueue(rest, e);
        assert(enqueue(queue, e) =~= enqueue(rest, e).push(queue.last()));
        assert(enqueue(rest, e).push(queue.last()).drop_last() =~= enqueue(rest, e));
    }
    assert(posted(enqueue(queue, e)) =~= posted(queue).add(ending(e)));
    if !(e.item is Arrival) {
        assert(posted(queue).add(Multiset::empty()) =~= posted(queue));
    }
}

/// The first entry of a timeline.
proof fn lemma_posted_first(queue: Seq<Timed>)
    requires
        queue.len() > 0,
    ensures
        posted(queue) == ending(queue[0]).add(posted(queue.drop_first())),
    decreases queue.len(),
{
    let rest = queue.drop_first();
    if queue.len() == 1 {
        assert(queue.drop_last() =~= Seq::empty());
        assert(rest =~= Seq::empty());
    } else {
        let front = queue.drop_last();
        lemma_posted_first(front);
        assert(front.drop_first() =~= rest.drop_last());
    }
    assert(posted(queue) =~= ending(queue[0]).add(posted(rest)));
}

/// A posted letter is that of an entry.
proof fn lemma_posted_entry(queue: Seq<Timed>, l: Letter)
    requires
        posted(queue).count(l) > 0,
    ensures
        exists|k: int|
            0 <= k < queue.len() && (#[trigger] queue[k]).item is Arrival && queue[k].at == l.at,
    decreases queue.len(),
{
    let rest = queue.drop_last();
    if posted(rest).count(l) > 0 {
        lemma_posted_entry(rest, l);
        let k = choose|k: int|
            0 <= k < rest.len() && (#[trigger] rest[k]).item is Arrival && rest[k].at == l.at;
        assert(queue[k] == rest[k]);
    } else {
        assert(ending(queue.last()).count(l) > 0);
        assert(queue[queue.len() - 1].item is Arrival);
    }
}

/// A concluded letter is that of an event.
proof fn lemma_ends_event(events: Seq<Event>, l: Letter)
    requires
        ends(events).count(l) > 0,
    ensures
        exists|k: int| 0 <= k < events.len() && (#[trigger] events[k]).at == l.at,
    decreases events.len(),
{
    let rest = events.drop_last();
    if ends(rest).count(l) > 0 {
        lemma_ends_event(rest, l);
        let k = choose|k: int| 0 <= k < rest.len() && (#[trigger] rest[k]).at == l.at;
        assert(events[k] == rest[k]);
    } else {
        assert(concluded(events.last()).count(l) > 0);
        assert(events[events.len() - 1].at == l.at);
    }
}

/// One more event.
proof fn lemma_push_event(events: Seq<Event>, e: Event)
    ensures
        sends(events.push(e)) == sends(events).add(announced(e)),
        ends(events.push(e)) == ends(events).add(concluded(e)),
        !is_message(e.kind) ==> sends(events.push(e)) == sends(events) && ends(events.push(e))
            == ends(events) && flights(events.push(e)) == flights(events),
        e.kind is MessageDelivered || e.kind is MessageDropped ==> sends(events.push(e)) == sends(
            events,
        ) && flights(events.push(e)) == flights(events),
        e.kind is MessageSent ==> ends(events.push(e)) == ends(events),
        e.kind matches EventKind::MessageSent { from, to, kind, sent, arrival, fate } ==> flights(
            events.push(e),
        ) == flights(events).push(InFlight { from, to, kind, sent, arrival, fate }),
{
    assert(events.push(e).drop_last() =~= events);
    assert(sends(events).add(Multiset::empty()) =~= sends(events));
    assert(ends(events).add(Multiset::empty()) =~= ends(events));
}

/// What is in flight at a later time.
proof fn lemma_later_again(f: Seq<InFlight>, a: Time, b: Time)
    requires
        a <= b,
    ensures
        f.filter(later(a)).filter(later(b)) == f.filter(later(b)),
    decreases f.len(),
{
    reveal(Seq::filter);
    if f.len() > 0 {
        let rest = f.drop_last();
        lemma_later_again(rest, a, b);
        if later(a)(f.last()) {
            let x = rest.filter(later(a)).push(f.last());
            assert(f.filter(later(a)) == x);
            assert(x.drop_last() =~= rest.filter(later(a)));
        }
    }
}

/// One more message in flight.
proof fn lemma_later_push(f: Seq<InFlight>, m: InFlight, now: Time)
    ensures
        f.push(m).filter(later(now)) == if m.arrival > now {
            f.filter(later(now)).push(m)
        } else {
            f.filter(later(now))
        },
{
    reveal(Seq::filter);
    assert(f.push(m).drop_last() =~= f);
}

// ---- Moves -----------------------------------------------------------------

/// Where no message is sent, arrives or is lost.
proof fn lemma_unposted(a: Sim, b: Sim)
    requires
        mail_ok(a),
        b.now == a.now,
        is_unposted(a, b),
    ensures
        mail_ok(b),
{
    if b.pending != a.pending {
        let kind = choose|kind: EventKind|
            !is_message(kind) && b.pending == #[trigger] a.emit(kind).pending;
        let e = Event { at: a.now, kind };
        lemma_push_event(a.pending, e);
        assert(sends_are_dated(b.pending)) by {
            assert forall|k: int| 0 <= k < b.pending.len() implies ((
            #[trigger] b.pending[k]).kind matches EventKind::MessageSent { sent, arrival, .. }
                ==> b.pending[k].at == sent && sent < arrival) by {
                if k < a.pending.len() {
                    assert(b.pending[k] == a.pending[k]);
                }
            }
        }
    }
}

/// A message is sent.
proof fn lemma_send_mail(s: Sim, from: NodeId, to: NodeId, kind: MsgKind, tag: usize)
    requires
        s.ok(),
        mail_ok(s),
        message_ok(s.cfg, from, to, kind, tag),
    ensures
        mail_ok(s.send(from, to, kind, tag)),
{
    reveal(Sim::send);
    lemma_arrival(s, from, to);
    let b = s.send(from, to, kind, tag);
    let arrival = s.arrival_of(from, to) as Time;
    let fate = s.fate_of(from, to, kind);
    let sent = s.now;
    let ev = EventKind::MessageSent { from, to, kind, sent, arrival, fate };
    let e = Event { at: sent, kind: ev };
    let x = Timed { at: arrival, item: Scheduled::Arrival { from, to, kind, tag, fate } };
    let m = InFlight { from, to, kind, sent, arrival, fate };
    assert(b.pending == s.pending.push(e));
    assert(b.queue == enqueue(s.queue, x));
    lemma_push_event(s.pending, e);
    lemma_posted_enqueue(s.queue, x);
    assert(announced(e) == ending(x));
    assert(sends(b.pending) =~= ends(b.pending).add(posted(b.queue)));
    lemma_later_push(s.in_flight, m, s.now);
    lemma_later_push(flights(s.pending), m, s.now);
    assert forall|k: int| 0 <= k < b.pending.len() implies ((
    #[trigger] b.pending[k]).kind matches EventKind::MessageSent { sent, arrival, .. }
        ==> b.pending[k].at == sent && sent < arrival) by {
        if k < s.pending.len() {
            assert(b.pending[k] == s.pending[k]);
        }
    }
}

/// A reply is deferred.
proof fn lemma_reply_mail(s: Sim, from: NodeId, to: NodeId, kind: MsgKind, tag: usize)
    requires
        s.ok(),
        mail_ok(s),
        kind.is_reply(),
        message_ok(s.cfg, from, to, kind, tag),
    ensures
        mail_ok(s.reply_after_delay(from, to, kind, tag)),
{
    let b = s.reply_after_delay(from, to, kind, tag);
    lemma_reply(s, from, to, kind, tag);
    lemma_reply_unposted(s, from, to, kind, tag);
    lemma_unposted(s, b);
}

/// One more entry that gives no command.
pub proof fn lemma_orders_enqueue(queue: Seq<Timed>, e: Timed)
    requires
        in_time_order(queue),
        !(e.item is Command),
    ensures
        forall|cmd: Command| #[trigger] orders(enqueue(queue, e), cmd) == orders(queue, cmd),
{
    assert forall|cmd: Command| #[trigger] orders(enqueue(queue, e), cmd) == orders(
        queue,
        cmd,
    ) by {
        lemma_tally_enqueue(queue, e, gives(cmd));
    }
}

/// Sending a message gives no command.
pub proof fn lemma_send_orders(s: Sim, from: NodeId, to: NodeId, kind: MsgKind, tag: usize)
    requires
        in_time_order(s.queue),
    ensures
        forall|cmd: Command|
            #[trigger] orders(s.send(from, to, kind, tag).queue, cmd) == orders(s.queue, cmd),
{
    reveal(Sim::send);
    let e = Timed {
        at: max_of((s.arrival_of(from, to) as Time) as int, s.now as int) as Time,
        item: Scheduled::Arrival { from, to, kind, tag, fate: s.fate_of(from, to, kind) },
    };
    assert(s.send(from, to, kind, tag).queue == enqueue(s.queue, e));
    lemma_orders_enqueue(s.queue, e);
}

/// Deferring a reply sends nothing yet.
pub proof fn lemma_reply_unposted(s: Sim, from: NodeId, to: NodeId, kind: MsgKind, tag: usize)
    requires
        s.ok(),
        kind.is_reply(),
        message_ok(s.cfg, from, to, kind, tag),
    ensures
        is_unposted(s, s.reply_after_delay(from, to, kind, tag)),
{
    lemma_reply(s, from, to, kind, tag);
    reveal(Sim::reply_after_delay);
    let think = s.cfg.nodes[from as int].response_delay;
    let e = Timed {
        at: max_of(s.now + think.drawn(s.rng, s.normal), s.now as int) as Time,
        item: Scheduled::Send { from, to, kind, tag },
    };
    lemma_posted_enqueue(s.queue, e);
    lemma_orders_enqueue(s.queue, e);
}

spec fn mailing(cfg: Config) -> spec_fn(Sim) -> bool {
    |s: Sim| s.cfg == cfg && mail_ok(s)
}

proof fn lemma_begin_guard_mail(s: Sim, i: usize)
    requires
        s.ok(),
        mail_ok(s),
        i < s.leases.len(),
    ensures
        mail_ok(s.begin_guard(i)),
        s.begin_guard(i).cfg == s.cfg,
{
    reveal(Sim::begin_guard);
    lemma_parties(s, i as int);
    let l = s.leases[i as int];
    let g = GrantorState {
        status: crate::event::LeaseStatus::Guarding,
        intended: true,
        awaiting_reply: false,
        reguard_on_thaw: false,
        guard_since: s.local(l.id.grantor) as Time,
        ..l.grantor
    };
    lemma_with_grantor(s, i as int, g);
    lemma_send_mail(s.with_grantor(i as int, g), l.id.grantor, l.id.grantee, MsgKind::Guard, i);
    reveal(Sim::send);
}

proof fn lemma_send_renew_mail(s: Sim, i: usize)
    requires
        s.ok(),
        mail_ok(s),
        i < s.leases.len(),
    ensures
        mail_ok(s.send_renew(i)),
        s.send_renew(i).cfg == s.cfg,
{
    reveal(Sim::send_renew);
    lemma_parties(s, i as int);
    let l = s.leases[i as int];
    let b = s.local(l.id.grantor);
    let g = GrantorState {
        grant_expiry: max_of(l.grantor.grant_expiry as int, b + s.params().grant_len()) as Time,
        next_renew_due: (b + s.params().renew_interval) as Time,
        awaiting_reply: true,
        ..l.grantor
    };
    lemma_with_grantor(s, i as int, g);
    lemma_send_mail(s.with_grantor(i as int, g), l.id.grantor, l.id.grantee, MsgKind::Renew, i);
    reveal(Sim::send);
}

proof fn lemma_mail_moves(cfg: Config)
    ensures
        kept_by_moves(mailing(cfg), true),
{
    let prop = mailing(cfg);
    assert forall|a: Sim, b: Sim|
        a.ok() && b.ok() && prop(a) && #[trigger] moves(a, b, true) implies prop(b) by {
        if is_quiet(a, b) || is_retreat(a, b) {
            lemma_unposted(a, b);
        } else if is_write_move(a, b) {
            if is_unposted(a, b) {
                lemma_unposted(a, b);
            } else {
                let (from, to, kind, tag) = choose|
                    from: NodeId,
                    to: NodeId,
                    kind: MsgKind,
                    tag: usize,
                |
                    kind.is_write_path() && message_ok(a.cfg, from, to, kind, tag) && b
                        == #[trigger] a.send(from, to, kind, tag);
                lemma_send_mail(a, from, to, kind, tag);
            }
        } else if exists|i: usize| is_guard(a, b, i) {
            let i = choose|i: usize| is_guard(a, b, i);
            lemma_begin_guard_mail(a, i);
        } else {
            let i = choose|i: usize| is_renewal(a, b, i);
            lemma_send_renew_mail(a, i);
        }
    }
}

/// A party acts on a lease message.
proof fn lemma_receive_mail(s: Sim, from: NodeId, to: NodeId, kind: MsgKind, tag: usize)
    requires
        s.ok(),
        mail_ok(s),
        message_ok(s.cfg, from, to, kind, tag),
        !kind.is_write_path(),
    ensures
        mail_ok(s.receive(from, to, kind, tag)),
{
    let j = tag as int;
    let l = s.leases[j];
    lemma_parties(s, j);
    match kind {
        MsgKind::Guard => {
            reveal(Sim::on_guard);
            let g = GranteeState {
                guard_deadline: (s.local(l.id.grantee) + s.params().guard_len()) as Time,
                status: crate::event::LeaseStatus::Guarding,
                ..l.grantee
            };
            let ev = EventKind::GranteeLease {
                lease: l.id,
                status: crate::event::LeaseStatus::Guarding,
            };
            lemma_with_grantee(s, j, g);
            let s1 = s.with_grantee(j, g);
            lemma_emit(s1, ev);
            assert(s1.emit(ev).pending == s.emit(ev).pending);
            lemma_unposted(s, s1.emit(ev));
            lemma_reply_mail(s1.emit(ev), l.id.grantee, l.id.grantor, MsgKind::GuardReply, tag);
        },
        MsgKind::GuardReply => {
            reveal(Sim::on_guard_reply);
            if l.grantor.status == crate::event::LeaseStatus::Guarding {
                let d = s.local(l.id.grantor) as Time;
                let g = GrantorState {
                    status: crate::event::LeaseStatus::Active,
                    last_reply: d,
                    next_renew_due: d,
                    ..l.grantor
                };
                let ev = EventKind::GrantorLease {
                    lease: l.id,
                    status: crate::event::LeaseStatus::Active,
                };
                lemma_with_grantor(s, j, g);
                let s1 = s.with_grantor(j, g);
                lemma_emit(s1, ev);
                assert(s1.emit(ev).pending == s.emit(ev).pending);
                lemma_unposted(s, s1.emit(ev));
                lemma_send_renew_mail(s1.emit(ev), tag);
            }
        },
        MsgKind::Renew => {
            reveal(Sim::on_renew);
            if s.accepts_renew(j) {
                let g = GranteeState {
                    hold_expiry: (s.local(l.id.grantee) + s.params().hold_len()) as Time,
                    status: crate::event::LeaseStatus::Active,
                    ..l.grantee
                };
                let ev = EventKind::GranteeLease {
                    lease: l.id,
                    status: crate::event::LeaseStatus::Active,
                };
                lemma_with_grantee(s, j, g);
                let s1 = s.with_grantee(j, g);
                lemma_emit(s1, ev);
                let s2 = if l.grantee.status != crate::event::LeaseStatus::Active {
                    s1.emit(ev)
                } else {
                    s1
                };
                assert(s1.emit(ev).pending == s.emit(ev).pending);
                lemma_unposted(s, s2);
                lemma_reply_mail(s2, l.id.grantee, l.id.grantor, MsgKind::RenewReply, tag);
            }
        },
        MsgKind::RenewReply => {
            reveal(Sim::on_renew_reply);
            lemma_unposted(s, s.on_renew_reply(tag));
        },
        MsgKind::Revoke => {
            reveal(Sim::on_revoke);
            let g = GranteeState {
                status: crate::event::LeaseStatus::Expired,
                hold_expiry: s.local(l.id.grantee) as Time,
                ..l.grantee
            };
            let ev = EventKind::GranteeLease {
                lease: l.id,
                status: crate::event::LeaseStatus::Expired,
            };
            lemma_with_grantee(s, j, g);
            let s1 = s.with_grantee(j, g);
            lemma_emit(s1, ev);
            let s2 = if l.holding() {
                s1.emit(ev)
            } else {
                s
            };
            assert(s1.emit(ev).pending == s.emit(ev).pending);
            lemma_unposted(s, s2);
            lemma_reply_mail(s2, l.id.grantee, l.id.grantor, MsgKind::RevokeReply, tag);
        },
        _ => {
            reveal(Sim::on_revoke_reply);
            let ev = EventKind::GrantorLease {
                lease: l.id,
                status: crate::event::LeaseStatus::Expired,
            };
            let b = s.on_revoke_reply(tag);
            if l.granting() {
                assert(b.pending == s.emit(ev).pending);
            }
            lemma_unposted(s, b);
        },
    }
}

/// A lease is revoked.
proof fn lemma_begin_revoke_mail(s: Sim, j: usize)
    requires
        s.ok(),
        mail_ok(s),
        j < s.leases.len(),
    ensures
        mail_ok(s.begin_revoke(j)),
{
    reveal(Sim::begin_revoke);
    lemma_parties(s, j as int);
    let l = s.leases[j as int];
    let g = GrantorState { intended: false, ..l.grantor };
    lemma_with_grantor(s, j as int, g);
    lemma_send_mail(s.with_grantor(j as int, g), l.id.grantor, l.id.grantee, MsgKind::Revoke, j);
}

/// Time passes, and the first entry comes off the timeline. If it is a message, it
/// ends here.
proof fn lemma_popped_mail(s: Sim)
    requires
        s.ok(),
        mail_ok(s),
        s.queue.len() > 0,
        s.queue[0].at <= s.cfg.duration,
    ensures
        match s.queue[0].item {
            Scheduled::Arrival { from, to, kind, fate, .. } => mail_ok(
                s.popped().emit(
                    if fate == MsgFate::Delivered {
                        EventKind::MessageDelivered { from, to, kind }
                    } else {
                        EventKind::MessageDropped { from, to, kind }
                    },
                ),
            ),
            _ => mail_ok(s.popped()),
        },
{
    lemma_popped(s);
    let p = s.popped();
    lemma_posted_first(s.queue);
    lemma_later_again(s.in_flight, s.now, p.now);
    lemma_later_again(flights(s.pending), s.now, p.now);
    match s.queue[0].item {
        Scheduled::Arrival { from, to, kind, fate, .. } => {
            let ev = if fate == MsgFate::Delivered {
                EventKind::MessageDelivered { from, to, kind }
            } else {
                EventKind::MessageDropped { from, to, kind }
            };
            let e = Event { at: p.now, kind: ev };
            let b = p.emit(ev);
            lemma_push_event(s.pending, e);
            assert(concluded(e) == ending(s.queue[0]));
            assert(sends(b.pending) =~= ends(b.pending).add(posted(b.queue)));
            assert forall|k: int| 0 <= k < b.pending.len() implies ((
            #[trigger] b.pending[k]).kind matches EventKind::MessageSent { sent, arrival, .. }
                ==> b.pending[k].at == sent && sent < arrival) by {
                if k < s.pending.len() {
                    assert(b.pending[k] == s.pending[k]);
                }
            }
        },
        _ => {
            assert(posted(s.queue) =~= posted(p.queue));
        },
    }
}

/// One step.
proof fn lemma_step_mail(s: Sim)
    requires
        s.ok(),
        sized(s),
        s.queue.len() > 0,
        s.queue[0].at <= s.cfg.duration,
        mail_ok(s),
    ensures
        mail_ok(s.step()),
{
    lemma_popped(s);
    lemma_popped_mail(s);
    lemma_mail_moves(s.cfg);
    let a = s.popped();
    let prop = mailing(s.cfg);
    match s.queue[0].item {
        Scheduled::Poll { node } => {
            assert(prop(a));
            keep_poll(prop, true, a, node);
            assert(prop(a.poll(node)));
        },
        Scheduled::WriteTick => {
            assert(prop(a));
            keep_write_tick(prop, true, a);
            assert(prop(a.write_tick()));
        },
        Scheduled::Command(cmd) => {
            assert(prop(a));
            if let Command::Revoke(id) = cmd {
                reveal(Sim::apply);
                lemma_lease_position(a.leases, id, 0);
                if a.declared(id) {
                    lemma_begin_revoke_mail(a, a.lease_index(id) as usize);
                }
            } else {
                keep_apply(prop, true, a, cmd);
                assert(prop(a.apply(cmd)));
            }
        },
        Scheduled::Send { from, to, kind, tag } => {
            lemma_send_mail(a, from, to, kind, tag);
        },
        Scheduled::Arrival { from, to, kind, tag, fate } => {
            reveal(Sim::arrive);
            let ev = EventKind::MessageDelivered { from, to, kind };
            lemma_emit(a, ev);
            let q = a.emit(ev);
            if fate == MsgFate::Delivered && a.nodes[to as int].up {
                if kind.is_write_path() {
                    assert(prop(q));
                    keep_receive_write(prop, true, q, from, to, kind, tag);
                    assert(prop(q.receive(from, to, kind, tag)));
                } else {
                    lemma_receive_mail(q, from, to, kind, tag);
                }
            }
        },
    }
}

proof fn lemma_steps_mail(s: Sim, t: int, n: nat)
    requires
        s.ok(),
        sized(s),
        t <= s.cfg.duration,
        mail_ok(s),
    ensures
        mail_ok(s.steps(t, n)),
    decreases n,
{
    if n > 0 {
        lemma_steps_mail(s, t, (n - 1) as nat);
        let before = s.steps(t, (n - 1) as nat);
        lemma_steps_next(s, t, (n - 1) as nat);
        lemma_steps_ok(s, t, (n - 1) as nat);
        if !before.settled(t) {
            lemma_step_mail(before);
        }
    }
}

// ---- Laws ------------------------------------------------------------------

/// A run between two calls, of which `events` are all the events so far: the mail is
/// in order, and no message is overdue.
pub open spec fn accounted(s: Sim, events: Seq<Event>) -> bool {
    &&& s.pending.len() == 0
    &&& events_ok(s.now, events)
    &&& mail_ok(Sim { pending: events, ..s })
    &&& forall|k: int|
        0 <= k < s.queue.len() && (#[trigger] s.queue[k]).item is Arrival ==> s.queue[k].at > s.now
}

/// Before anything has happened, no message is under way.
pub proof fn law_accounted_at_start(cfg: Config, normal: spec_fn(NormalDraw) -> Time)
    requires
        cfg.valid(),
        normal_ok(normal),
        sized(Sim::blank(cfg, normal)),
    ensures
        accounted(Sim::initial(cfg, normal), Seq::empty()),
{
    lemma_initial(cfg, normal);
    let s0 = Sim::blank(cfg, normal);
    let s1 = s0.with_polls(cfg.nodes.len() as int);
    lemma_polls_unposted(s0, cfg.nodes.len() as int);
    let s2 = s1.with_commands(cfg.commands.len() as int);
    lemma_commands_unposted(s1, cfg.commands.len() as int);
    let s = Sim::initial(cfg, normal);
    if let Some(iv) = cfg.write_interval {
        let e = Timed {
            at: max_of(s2.jittered(iv as int), s2.now as int) as Time,
            item: Scheduled::WriteTick,
        };
        lemma_posted_enqueue(s2.queue, e);
    }
    assert(posted(s.queue) =~= Multiset::empty());
    assert forall|k: int| 0 <= k < s.queue.len() && (
    #[trigger] s.queue[k]).item is Arrival implies s.queue[k].at > s.now by {
        lemma_entry_posted(s.queue, k);
    }
    let x = Sim { pending: Seq::empty(), ..s };
    reveal(Seq::filter);
    assert(x.in_flight =~= Seq::empty());
    assert(sends(x.pending) =~= ends(x.pending).add(posted(x.queue)));
}

/// An arrival on the timeline is posted.
proof fn lemma_entry_posted(queue: Seq<Timed>, k: int)
    requires
        0 <= k < queue.len(),
        queue[k].item is Arrival,
    ensures
        exists|l: Letter| #[trigger] posted(queue).count(l) > 0,
    decreases queue.len(),
{
    let rest = queue.drop_last();
    if k < rest.len() {
        lemma_entry_posted(rest, k);
        let l = choose|l: Letter| #[trigger] posted(rest).count(l) > 0;
        assert(posted(queue).count(l) > 0);
    } else {
        if let Scheduled::Arrival { from, to, kind, fate, .. } = queue[k].item {
            let l = Letter { from, to, kind, fate, at: queue[k].at };
            assert(posted(queue).count(l) > 0);
        }
    }
}

proof fn lemma_polls_unposted(s: Sim, k: int)
    requires
        in_time_order(s.queue),
        0 <= k,
    ensures
        in_time_order(s.with_polls(k).queue),
        posted(s.with_polls(k).queue) == posted(s.queue),
        s.with_polls(k).in_flight == s.in_flight,
        s.with_polls(k).cfg == s.cfg,
    decreases k,
{
    if k > 0 {
        lemma_polls_unposted(s, k - 1);
        let a = s.with_polls(k - 1);
        let e = Timed {
            at: max_of(0, a.now as int) as Time,
            item: Scheduled::Poll { node: (k - 1) as usize },
        };
        lemma_posted_enqueue(a.queue, e);
        lemma_enqueue(a.queue, e);
    }
}

proof fn lemma_commands_unposted(s: Sim, k: int)
    requires
        in_time_order(s.queue),
        0 <= k,
    ensures
        in_time_order(s.with_commands(k).queue),
        posted(s.with_commands(k).queue) == posted(s.queue),
        s.with_commands(k).in_flight == s.in_flight,
        s.with_commands(k).cfg == s.cfg,
    decreases k,
{
    if k > 0 {
        lemma_commands_unposted(s, k - 1);
        let a = s.with_commands(k - 1);
        let e = Timed {
            at: max_of(s.cfg.commands[k - 1].0 as int, a.now as int) as Time,
            item: Scheduled::Command(s.cfg.commands[k - 1].1),
        };
        lemma_posted_enqueue(a.queue, e);
        lemma_enqueue(a.queue, e);
    }
}

/// Advancing a run adds its events to those before, and keeps account of every
/// message.
pub proof fn law_advancing_keeps_account(s: Sim, events: Seq<Event>, t: int)
    requires
        s.ok(),
        sized(s),
        accounted(s, events),
    ensures
        accounted(s.advanced(t).taken(), events + s.advanced(t).pending),
{
    let h = Sim { pending: events, ..s };
    let target = s.target(t);
    let n = lemma_settles(s, target);
    lemma_run_is(s, target, n);
    lemma_advanced(s, t);
    lemma_steps_ok(s, target, n);
    let r = s.steps(target, n);
    let b = s.advanced(t);
    // The same run, with all the events so far.
    assert(h =~= s.after_history(events, Seq::empty()));
    lemma_steps_after_history(s, target, n, events, Seq::empty());
    assert(h.ok());
    lemma_steps_mail(h, target, n);
    lemma_steps_ok(h, target, n);
    let g = h.steps(target, n);
    assert(g.in_flight =~= r.in_flight);
    assert(g.pending == events + r.pending);
    // The clock moves on, and what has arrived is forgotten.
    let c = Sim { pending: events + b.pending, ..b.taken() };
    assert(later(b.now) =~= (|m: InFlight| m.arrival > b.now));
    lemma_later_again(r.in_flight, r.now, b.now);
    lemma_later_again(flights(g.pending), r.now, b.now);
    lemma_later_again(r.in_flight, b.now, b.now);
    assert(c.in_flight == r.in_flight.filter(later(b.now)));
    assert(mail_ok(c));
    assert(events_ok(b.now, c.pending));
    assert forall|k: int| 0 <= k < b.queue.len() && (
    #[trigger] b.queue[k]).item is Arrival implies b.queue[k].at > b.now by {
        assert(b.queue == r.queue);
        if target >= s.now {
            assert(r.queue[0].at <= r.queue[k].at);
        } else {
            assert(s.settled(target)) by {
                if s.queue.len() > 0 {
                    assert(s.queue[0].at >= s.now);
                }
            }
            lemma_settled_stays(s, target, n);
        }
    }
}

proof fn lemma_settled_stays(s: Sim, t: int, n: nat)
    requires
        s.settled(t),
    ensures
        s.steps(t, n) == s,
{
}

/// A command given to a run keeps account of every message.
pub proof fn law_commands_keep_account(s: Sim, events: Seq<Event>, at: Time, cmd: Command)
    requires
        s.ok(),
        accounted(s, events),
    ensures
        accounted(s.schedule(at as int, Scheduled::Command(cmd)), events),
{
    let b = s.schedule(at as int, Scheduled::Command(cmd));
    let e = Timed {
        at: max_of(at as int, s.now as int) as Time,
        item: Scheduled::Command(cmd),
    };
    lemma_posted_enqueue(s.queue, e);
    lemma_enqueue(s.queue, e);
    assert forall|k: int| 0 <= k < b.queue.len() && (
    #[trigger] b.queue[k]).item is Arrival implies b.queue[k].at > b.now by {
        let p = crate::timeline::slot(s.queue, e.at);
        if k < p {
            assert(b.queue[k] == s.queue[k]);
        } else if k > p {
            assert(b.queue[k] == s.queue[k - 1]);
        }
    }
}

/// Every message that has been sent is dated when it was sent and takes at least one
/// tick. Once its arrival is not in the future any more, exactly one event, dated at
/// the arrival, reports its end: that it was delivered if that is its fate, that it
/// was dropped if not. And nothing else is delivered or dropped.
pub proof fn law_every_send_ends_once(s: Sim, events: Seq<Event>)
    requires
        accounted(s, events),
    ensures
        sends_are_dated(events),
        sends(events).filter(|l: Letter| l.at <= s.now) == ends(events),
{
    let h = Sim { pending: events, ..s };
    let past = sends(events).filter(|l: Letter| l.at <= s.now);
    assert forall|l: Letter| #[trigger] past.count(l) == ends(events).count(l) by {
        assert(sends(h.pending).count(l) == ends(h.pending).count(l) + posted(h.queue).count(l));
        if ends(events).count(l) > 0 {
            lemma_ends_event(events, l);
        }
        if posted(s.queue).count(l) > 0 {
            lemma_posted_entry(s.queue, l);
        }
    }
    assert(past =~= ends(events));
}

/// A frame shows exactly the messages that have been sent and have not ended yet,
/// each on its way by the share of its time that has passed.
pub proof fn law_frame_shows_what_is_under_way(s: Sim, events: Seq<Event>)
    requires
        s.ok(),
        accounted(s, events),
    ensures
        s.picture(s.now as int).messages == flights(events).filter(
            |m: InFlight| under_way(m, s.now as int),
        ).map_values(|m: InFlight| msg_shape(m, s.now as int)),
{
    let now = s.now;
    let shown = |m: InFlight| under_way(m, now as int);
    let h = Sim { pending: events, ..s };
    lemma_flights_dated(events, now);
    lemma_shown_is_later(s.in_flight, now);
    lemma_shown_is_later(flights(events), now);
    assert(s.in_flight.filter(shown) == flights(events).filter(shown));
}

/// Every reported message has been sent by now.
proof fn lemma_flights_dated(events: Seq<Event>, now: Time)
    requires
        sends_are_dated(events),
        forall|k: int| 0 <= k < events.len() ==> (#[trigger] events[k]).at <= now,
    ensures
        forall|k: int|
            0 <= k < flights(events).len() ==> (#[trigger] flights(events)[k]).sent <= now,
    decreases events.len(),
{
    if events.len() > 0 {
        let rest = events.drop_last();
        assert forall|k: int| 0 <= k < rest.len() implies (#[trigger] rest[k]).at <= now && (
        rest[k].kind matches EventKind::MessageSent { sent, arrival, .. } ==> rest[k].at == sent
            && sent < arrival) by {
            assert(rest[k] == events[k]);
        }
        lemma_flights_dated(rest, now);
        assert(events[events.len() - 1] == events.last());
    }
}

/// Of messages that have been sent, those under way are those that end later.
proof fn lemma_shown_is_later(f: Seq<InFlight>, now: Time)
    requires
        forall|k: int| 0 <= k < f.len() ==> (#[trigger] f[k]).sent <= now,
    ensures
        f.filter(|m: InFlight| under_way(m, now as int)) == f.filter(later(now)),
    decreases f.len(),
{
    reveal(Seq::filter);
    if f.len() > 0 {
        let rest = f.drop_last();
        assert forall|k: int| 0 <= k < rest.len() implies (#[trigger] rest[k]).sent <= now by {
            assert(rest[k] == f[k]);
        }
        lemma_shown_is_later(rest, now);
        assert(f[f.len() - 1].sent <= now);
    }
}

/// The message is one that an event reports as sent.
proof fn lemma_flights_events(events: Seq<Event>, m: InFlight)
    ensures
        flights(events).contains(m) <==> exists|k: int|
            0 <= k < events.len() && (#[trigger] events[k]).kind == (EventKind::MessageSent {
                from: m.from,
                to: m.to,
                kind: m.kind,
                sent: m.sent,
                arrival: m.arrival,
                fate: m.fate,
            }),
    decreases events.len(),
{
    if events.len() > 0 {
        let rest = events.drop_last();
        lemma_flights_events(rest, m);
        let ev = EventKind::MessageSent {
            from: m.from,
            to: m.to,
            kind: m.kind,
            sent: m.sent,
            arrival: m.arrival,
            fate: m.fate,
        };
        let (f, g) = (flights(events), flights(rest));
        assert(events[events.len() - 1] == events.last());
        if f.contains(m) {
            let j = choose|j: int| 0 <= j < f.len() && f[j] == m;
            if j < g.len() {
                assert(g[j] == m);
                assert(g.contains(m));
                let k = choose|k: int| 0 <= k < rest.len() && (#[trigger] rest[k]).kind == ev;
                assert(events[k].kind == ev);
            } else {
                assert(events[events.len() - 1].kind == ev);
            }
        }
        if exists|k: int| 0 <= k < events.len() && (#[trigger] events[k]).kind == ev {
            let k = choose|k: int| 0 <= k < events.len() && (#[trigger] events[k]).kind == ev;
            if k < rest.len() {
                assert(rest[k].kind == ev);
                let j = choose|j: int| 0 <= j < g.len() && g[j] == m;
                assert(f[j] == m);
            } else {
                assert(f[f.len() - 1] == m);
            }
        }
    } else {
        assert(flights(events) =~= Seq::empty());
    }
}

/// The event reports that the message that the frame shows was sent, and the message is
/// still under way: by as many ticks as have passed since, out of those it takes.
pub open spec fn is_shown_as(e: Event, x: MsgShape, now: Time) -> bool {
    e.kind matches EventKind::MessageSent { from, to, kind, sent, arrival, fate } && {
        &&& x.from == from
        &&& x.to == to
        &&& x.kind == kind
        &&& x.fate == fate
        &&& sent <= now < arrival
        &&& x.progress.num == now - sent
        &&& x.progress.den == arrival - sent
    }
}

/// A frame shows a message exactly if it was sent by now and its arrival lies ahead: every
/// such message is shown, and nothing else.
pub proof fn law_frame_shows_each_message(s: Sim, events: Seq<Event>)
    requires
        s.ok(),
        accounted(s, events),
    ensures
        ({
            let messages = s.picture(s.now as int).messages;
            &&& forall|j: int|
                0 <= j < messages.len() ==> exists|k: int|
                    0 <= k < events.len() && is_shown_as(
                        #[trigger] events[k],
                        #[trigger] messages[j],
                        s.now,
                    )
            &&& forall|k: int|
                0 <= k < events.len() && ((#[trigger] events[k]).kind matches EventKind::MessageSent {
                    sent,
                    arrival,
                    ..
                } && sent <= s.now < arrival) ==> exists|j: int|
                    0 <= j < messages.len() && is_shown_as(
                        events[k],
                        #[trigger] messages[j],
                        s.now,
                    )
        }),
{
    law_frame_shows_what_is_under_way(s, events);
    let now = s.now as int;
    let shown = |m: InFlight| under_way(m, now);
    let all = flights(events);
    let seen = all.filter(shown);
    let messages = s.picture(now).messages;
    assert(seen == s.in_flight.filter(shown)) by {
        lemma_flights_dated(events, s.now);
        lemma_shown_is_later(s.in_flight, s.now);
        lemma_shown_is_later(all, s.now);
    }
    assert forall|j: int| 0 <= j < messages.len() implies exists|k: int|
        0 <= k < events.len() && is_shown_as(#[trigger] events[k], #[trigger] messages[j], s.now) by {
        crate::upkeep::lemma_filter_from(all, shown, j);
        crate::upkeep::lemma_filter_from(s.in_flight, shown, j);
        let y = seen[j];
        let p = choose|p: int| 0 <= p < s.in_flight.len() && s.in_flight[p] == y;
        assert(s.in_flight[p].sent < s.in_flight[p].arrival);
        assert(messages[j] == msg_shape(y, now));
        lemma_flights_events(events, y);
        let k = choose|k: int|
            0 <= k < events.len() && (#[trigger] events[k]).kind == (EventKind::MessageSent {
                from: y.from,
                to: y.to,
                kind: y.kind,
                sent: y.sent,
                arrival: y.arrival,
                fate: y.fate,
            });
        assert(is_shown_as(events[k], messages[j], s.now));
    }
    assert forall|k: int|
        0 <= k < events.len() && ((#[trigger] events[k]).kind matches EventKind::MessageSent {
            sent,
            arrival,
            ..
        } && sent <= s.now < arrival) implies exists|j: int|
        0 <= j < messages.len() && is_shown_as(events[k], #[trigger] messages[j], s.now) by {
        if let EventKind::MessageSent { from, to, kind, sent, arrival, fate } = events[k].kind {
            let m = InFlight { from, to, kind, sent, arrival, fate };
            lemma_flights_events(events, m);
            let p = choose|p: int| 0 <= p < all.len() && all[p] == m;
            assert(shown(all[p]));
            crate::commits::lemma_filter_keeps(all, shown, p);
            let j = choose|j: int| 0 <= j < seen.len() && seen[j] == m;
            crate::upkeep::lemma_filter_from(s.in_flight, shown, j);
            let q = choose|q: int| 0 <= q < s.in_flight.len() && s.in_flight[q] == m;
            assert(s.in_flight[q].sent < s.in_flight[q].arrival);
            assert(messages[j] == msg_shape(m, now));
            assert(is_shown_as(events[k], messages[j], s.now));
        }
    }
}

} // verus!
