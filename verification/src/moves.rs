//! The elementary moves that polls, commands and writes are made of.
//!
//! Whatever a node does on a poll, on a command or on the write path comes down
//! to a chain of few kinds of moves, as far as leases are concerned: a guard
//! opens, a due renew goes out, a party gives up what it has, or nothing about
//! any lease happens. A property that every such move keeps is kept by all of
//! them. (What the parties do on the lease messages themselves is in
//! [`crate::sim`], one short function per message kind.)

use crate::clock::Time;
use crate::dist::NormalDraw;
use crate::event::{Command, EventKind, LeaseId, LeaseStatus, MsgFate, MsgKind, NodeId};
use crate::mail::{
    is_message, is_unposted, lemma_orders_enqueue, lemma_posted_enqueue, lemma_reply_unposted,
};
use crate::pacing::declared_once;
use crate::scenario::Config;
use crate::sim::{
    max_of, round_position, LeaseState, NodeState, Round, Sim, POLL_INTERVAL, RENEW_REPLY_TIMEOUT,
};
use crate::timeline::{enqueue, in_time_order, lemma_enqueue, slot, Scheduled, Timed};
use crate::upkeep::{
    item_ok, lemma_abort_stale_writes, lemma_begin_guard, lemma_broadcast, lemma_draw, lemma_emit,
    lemma_expire_stale_guards, lemma_expire_stale_renews, lemma_fail_node, lemma_fault_trial,
    lemma_jittered, lemma_leader, lemma_lease_position, lemma_maybe_initiate,
    lemma_recompute_grantee, lemma_recompute_grantor, lemma_recompute_statuses, lemma_recover_node,
    lemma_reguard, lemma_reply, lemma_round_position, lemma_rounds_filter, lemma_schedule,
    lemma_send, lemma_send_renew, lemma_service_grants, lemma_suspend, lemma_suspend_grant,
    lemma_suspend_hold, lemma_suspend_reads, lemma_tend, lemma_thaw_all, lemma_thaw_and_reguard,
    lemma_with_node, message_ok, rounds_ok,
};
use vstd::prelude::*;

verus! {

/// An entry that can still do something to a lease: a lease message that is to
/// be sent, one on its way that will be delivered, or a command to revoke.
pub open spec fn concerns_lease(e: Timed) -> bool {
    match e.item {
        Scheduled::Send { kind, .. } => !kind.is_write_path(),
        Scheduled::Arrival { kind, fate, .. } => !kind.is_write_path() && fate
            == MsgFate::Delivered,
        Scheduled::Command(cmd) => cmd is Revoke,
        _ => false,
    }
}

/// The entries of the timeline that can still do something to a lease.
pub open spec fn live(queue: Seq<Timed>) -> Seq<Timed> {
    queue.filter(|e: Timed| concerns_lease(e))
}

/// The event reports that a party's side of a lease became active.
pub open spec fn is_activation(kind: EventKind) -> bool {
    match kind {
        EventKind::GrantorLease { status, .. } => status == LeaseStatus::Active,
        EventKind::GranteeLease { status, .. } => status == LeaseStatus::Active,
        _ => false,
    }
}

/// The event is about the write path.
pub open spec fn is_write_event(kind: EventKind) -> bool {
    match kind {
        EventKind::MessageSent { kind, .. } => kind.is_write_path(),
        EventKind::MessageDelivered { kind, .. } => kind.is_write_path(),
        EventKind::MessageDropped { kind, .. } => kind.is_write_path(),
        EventKind::WriteStarted { .. } => true,
        EventKind::WriteCommitted { .. } => true,
        _ => false,
    }
}

/// An entry of the write path: a write that is due, or a message about one.
pub open spec fn concerns_write(e: Timed) -> bool {
    match e.item {
        Scheduled::Send { kind, .. } => kind.is_write_path(),
        Scheduled::Arrival { kind, .. } => kind.is_write_path(),
        Scheduled::Command(cmd) => cmd is Write,
        Scheduled::WriteTick => true,
        _ => false,
    }
}

/// The entries of the timeline that are about writes.
pub open spec fn writes(queue: Seq<Timed>) -> Seq<Timed> {
    queue.filter(|e: Timed| concerns_write(e))
}

/// Nothing is taken off the timeline.
pub open spec fn keeps_entries(a: Seq<Timed>, b: Seq<Timed>) -> bool {
    forall|e: Timed| #[trigger] a.contains(e) ==> b.contains(e)
}

/// Whether a node is up once an event was reported.
pub open spec fn up_after(up: bool, kind: EventKind, node: int) -> bool {
    match kind {
        EventKind::NodeFailed { node: n } => up && n != node,
        EventKind::NodeRecovered { node: n } => up || n == node,
        _ => up,
    }
}

/// The status of the grantee's side of a lease once an event was reported.
pub open spec fn hold_after(status: LeaseStatus, kind: EventKind, id: LeaseId) -> LeaseStatus {
    match kind {
        EventKind::GranteeLease { lease, status: now } => if lease == id {
            now
        } else {
            status
        },
        _ => status,
    }
}

/// Whether the grantor's side of a lease is active once an event was reported.
pub open spec fn grants_after(active: bool, kind: EventKind, id: LeaseId) -> bool {
    match kind {
        EventKind::GrantorLease { lease, status } => if lease == id {
            status == LeaseStatus::Active
        } else {
            active
        },
        _ => active,
    }
}

/// What has become of the nodes and of both sides of the leases is what the event
/// says, and nothing else.
pub open spec fn told_by(a: Sim, b: Sim, kind: EventKind) -> bool {
    &&& forall|k: int|
        0 <= k < a.nodes.len() ==> (#[trigger] b.nodes[k]).up == up_after(
            a.nodes[k].up,
            kind,
            k,
        )
    &&& forall|i: int|
        declared_once(a.cfg, i) ==> (#[trigger] b.leases[i]).grantee.status == hold_after(
            a.leases[i].grantee.status,
            kind,
            a.cfg.leases[i],
        ) && (b.leases[i].grantor.status == LeaseStatus::Active) == grants_after(
            a.leases[i].grantor.status == LeaseStatus::Active,
            kind,
            a.cfg.leases[i],
        )
}

/// An event that says nothing about nodes and leases.
pub open spec fn is_plain(kind: EventKind) -> bool {
    !(kind is NodeFailed) && !(kind is NodeRecovered) && !(kind is GranteeLease) && !(
    kind is GrantorLease)
}

/// Whatever becomes of the nodes, and of both sides of the leases, is reported by an
/// event.
pub open spec fn told(a: Sim, b: Sim) -> bool {
    &&& b.nodes.len() == a.nodes.len()
    &&& b.leases.len() == a.leases.len()
    &&& {
        ||| b.pending == a.pending && told_by(a, b, EventKind::WriteStarted { leader: 0 })
        ||| exists|kind: EventKind|
            b.pending == #[trigger] a.emit(kind).pending && told_by(a, b, kind)
    }
}

/// The same moment of the same run, with at most one more event, which reports
/// neither an activation nor anything about a write or a message.
pub open spec fn same_moment(a: Sim, b: Sim) -> bool {
    &&& b.cfg == a.cfg
    &&& b.normal == a.normal
    &&& b.now == a.now
    &&& b.rounds == a.rounds
    &&& b.pending == a.pending || exists|kind: EventKind|
        !is_activation(kind) && !is_write_event(kind) && b.pending == #[trigger] a.emit(
            kind,
        ).pending
    &&& is_unposted(a, b)
    &&& told(a, b)
}

/// Nothing about any lease or write happens.
pub open spec fn is_quiet(a: Sim, b: Sim) -> bool {
    &&& same_moment(a, b)
    &&& b.leases == a.leases
    &&& live(b.queue) == live(a.queue)
    &&& writes(b.queue) == writes(a.queue)
    &&& keeps_entries(a.queue, b.queue)
}

/// Something about a write happens, and nothing about any lease. Of the
/// outstanding rounds none is added, or one; for disruptive writes only to none. If
/// a message goes out, it is one of the write path.
pub open spec fn is_write_move(a: Sim, b: Sim) -> bool {
    &&& b.cfg == a.cfg
    &&& b.normal == a.normal
    &&& b.now == a.now
    &&& b.pending == a.pending || exists|kind: EventKind|
        !is_activation(kind) && b.pending == #[trigger] a.emit(kind).pending
    &&& b.leases == a.leases
    &&& live(b.queue) == live(a.queue)
    &&& keeps_entries(a.queue, b.queue)
    &&& told(a, b)
    &&& b.rounds.len() <= a.rounds.len() || (b.rounds.len() == a.rounds.len() + 1 && (
    a.cfg.write_disruptive ==> a.rounds.len() == 0))
    &&& is_unposted(a, b) || exists|from: NodeId, to: NodeId, kind: MsgKind, tag: usize|
        kind.is_write_path() && message_ok(a.cfg, from, to, kind, tag) && b == #[trigger] a.send(
            from,
            to,
            kind,
            tag,
        )
}

/// How a grantor gives up: it stops intending the lease, abandons a guard, is
/// past its promise, or (for a disruptive write) tears its grant down.
pub open spec fn grantor_gives_up(s: Sim, l: LeaseState, m: LeaseState) -> bool {
    let (g, h) = (l.grantor, m.grantor);
    &&& h.grant_expiry == g.grant_expiry
    &&& h.next_renew_due == g.next_renew_due
    &&& h.awaiting_reply == g.awaiting_reply
    &&& h.guard_since == g.guard_since
    &&& h.last_reply == g.last_reply
    &&& h.intended ==> g.intended
    &&& {
        ||| h.status == g.status && h.reguard_on_thaw == g.reguard_on_thaw
        ||| g.status == LeaseStatus::Guarding && h.status == LeaseStatus::Inactive
            && h.reguard_on_thaw == g.reguard_on_thaw
        ||| g.status == LeaseStatus::Active && h.status == LeaseStatus::Expired && s.local(
            l.id.grantor,
        ) > g.grant_expiry && h.reguard_on_thaw == g.reguard_on_thaw
        ||| s.cfg.write_disruptive && l.granting() && h.status == LeaseStatus::Inactive
            && h.reguard_on_thaw
    }
}

/// How a grantee gives up: its side expires.
pub open spec fn grantee_gives_up(l: LeaseState, m: LeaseState) -> bool {
    ||| m.grantee == l.grantee
    ||| m.grantee.status == LeaseStatus::Expired
}

/// Parties give up what they have.
pub open spec fn is_retreat(a: Sim, b: Sim) -> bool {
    &&& same_moment(a, b)
    &&& b.queue == a.queue
    &&& b.leases.len() == a.leases.len()
    &&& forall|i: int|
        0 <= i < a.leases.len() ==> (#[trigger] b.leases[i]).id == a.leases[i].id
            && grantor_gives_up(a, a.leases[i], b.leases[i]) && grantee_gives_up(
            a.leases[i],
            b.leases[i],
        )
}

/// A grantor that is idle, or whose grant a write tore down, opens a guard.
pub open spec fn is_guard(a: Sim, b: Sim, i: usize) -> bool {
    &&& i < a.leases.len()
    &&& a.leases[i as int].idle() || a.leases[i as int].grantor.reguard_on_thaw
    &&& b == a.begin_guard(i)
}

/// A grantor sends a renew that is due.
pub open spec fn is_renewal(a: Sim, b: Sim, i: usize) -> bool {
    &&& i < a.leases.len()
    &&& a.renew_due(a.leases[i as int].id.grantor, i as int)
    &&& b == a.send_renew(i)
}

/// One elementary move; moves of the write path only if `writing`.
pub open spec fn moves(a: Sim, b: Sim, writing: bool) -> bool {
    ||| is_quiet(a, b)
    ||| writing && is_write_move(a, b)
    ||| is_retreat(a, b)
    ||| exists|i: usize| is_guard(a, b, i)
    ||| exists|i: usize| is_renewal(a, b, i)
}

/// The grantor of lease `i` may open a guard without being told to: by chance, or
/// because a write tore the grant down.
pub open spec fn may_open(s: Sim, i: int) -> bool {
    ||| s.leases[i].grantor.reguard_on_thaw
    ||| s.cfg.nodes[s.leases[i].id.grantor as int].initiate_chance.num > 0
}

/// An elementary move that a node makes without being told to.
pub open spec fn own_moves(a: Sim, b: Sim, writing: bool) -> bool {
    &&& moves(a, b, writing)
    &&& {
        ||| is_quiet(a, b)
        ||| writing && is_write_move(a, b)
        ||| is_retreat(a, b)
        ||| exists|i: usize| is_guard(a, b, i) && may_open(a, i as int)
        ||| exists|i: usize| is_renewal(a, b, i)
    }
}

/// Every elementary move that a node makes without being told to keeps the property.
pub open spec fn kept_by_own_moves(prop: spec_fn(Sim) -> bool, writing: bool) -> bool {
    forall|a: Sim, b: Sim|
        a.ok() && b.ok() && prop(a) && #[trigger] own_moves(a, b, writing) ==> prop(b)
}

/// A node goes down or comes back, is frozen or thawed, only if there is cause: a
/// chance of failing, being down, or writes that disrupt.
pub open spec fn nodes_kept(a: Sim, b: Sim) -> bool {
    &&& b.nodes.len() == a.nodes.len()
    &&& forall|k: int|
        0 <= k < a.nodes.len() ==> #[trigger] b.nodes[k] == a.nodes[k] || a.cfg.write_disruptive
            || a.cfg.nodes[k].fail_chance.num > 0 || !a.nodes[k].up
}

/// A grantor gives up only if there is cause: it may crash, a write may tear the
/// grant down, its guard went unanswered for a whole window, the grantee was silent
/// for too long, or the promise is over.
pub open spec fn grantor_has_cause(s: Sim, l: LeaseState, m: LeaseState) -> bool {
    let local = s.local(l.id.grantor);
    ||| m.grantor == l.grantor
    ||| s.cfg.write_disruptive
    ||| s.cfg.nodes[l.id.grantor as int].fail_chance.num > 0
    ||| l.grantor.status == LeaseStatus::Guarding && local - l.grantor.guard_since
        >= s.params().guard_len()
    ||| l.grantor.status == LeaseStatus::Active && (local - l.grantor.last_reply
        >= RENEW_REPLY_TIMEOUT || local > l.grantor.grant_expiry)
}

/// A grantee gives up only if there is cause: a write may tear the hold down, or the
/// hold or the window is over.
pub open spec fn grantee_has_cause(s: Sim, l: LeaseState, m: LeaseState) -> bool {
    let local = s.local(l.id.grantee);
    ||| m.grantee == l.grantee
    ||| s.cfg.write_disruptive
    ||| l.grantee.status == LeaseStatus::Active && local > l.grantee.hold_expiry
    ||| l.grantee.status == LeaseStatus::Guarding && local > l.grantee.guard_deadline
}

/// Whatever the parties give up, there is cause.
pub open spec fn retreat_has_cause(a: Sim, b: Sim) -> bool {
    forall|i: int|
        0 <= i < a.leases.len() ==> grantor_has_cause(a, a.leases[i], #[trigger] b.leases[i])
            && grantee_has_cause(a, a.leases[i], b.leases[i])
}

/// An elementary move that a node makes without being told to, and with cause.
pub open spec fn due_moves(a: Sim, b: Sim, writing: bool) -> bool {
    &&& own_moves(a, b, writing)
    &&& nodes_kept(a, b)
    &&& {
        ||| is_quiet(a, b)
        ||| writing && is_write_move(a, b)
        ||| is_retreat(a, b) && retreat_has_cause(a, b)
        ||| exists|i: usize| is_guard(a, b, i) && may_open(a, i as int)
        ||| exists|i: usize| is_renewal(a, b, i)
    }
}

/// Every elementary move that a node makes without being told to, and with cause,
/// keeps the property.
pub open spec fn kept_by_due_moves(prop: spec_fn(Sim) -> bool, writing: bool) -> bool {
    forall|a: Sim, b: Sim|
        a.ok() && b.ok() && prop(a) && #[trigger] due_moves(a, b, writing) ==> prop(b)
}

/// Every elementary move keeps the property.
pub open spec fn kept_by_moves(prop: spec_fn(Sim) -> bool, writing: bool) -> bool {
    forall|a: Sim, b: Sim|
        a.ok() && b.ok() && prop(a) && #[trigger] moves(a, b, writing) ==> prop(b)
}

/// Filtering a timeline to which an entry of another kind was added.
pub proof fn lemma_writes_enqueue(queue: Seq<Timed>, e: Timed)
    requires
        in_time_order(queue),
        !concerns_write(e),
    ensures
        writes(enqueue(queue, e)) == writes(queue),
    decreases queue.len(),
{
    reveal(Seq::filter);
    lemma_enqueue(queue, e);
    if queue.len() == 0 || queue.last().at <= e.at {
        assert(enqueue(queue, e) =~= queue.push(e));
        assert(queue.push(e).drop_last() =~= queue);
    } else {
        let rest = queue.drop_last();
        lemma_writes_enqueue(rest, e);
        lemma_enqueue(rest, e);
        assert(enqueue(queue, e) =~= enqueue(rest, e).push(queue.last()));
        assert(enqueue(rest, e).push(queue.last()).drop_last() =~= enqueue(rest, e));
    }
}

/// Scheduling an entry takes none off the timeline.
pub proof fn lemma_enqueue_keeps(queue: Seq<Timed>, e: Timed)
    requires
        in_time_order(queue),
    ensures
        keeps_entries(queue, enqueue(queue, e)),
        enqueue(queue, e).contains(e),
{
    lemma_enqueue(queue, e);
    let p = slot(queue, e.at);
    assert(enqueue(queue, e)[p] == e);
    assert forall|x: Timed| #[trigger] queue.contains(x) implies enqueue(queue, e).contains(x) by {
        let k = choose|k: int| 0 <= k < queue.len() && queue[k] == x;
        if k < p {
            assert(enqueue(queue, e)[k] == x);
        } else {
            assert(enqueue(queue, e)[k + 1] == x);
        }
    }
}

/// Sending a message takes nothing off the timeline.
pub proof fn lemma_send_keeps(s: Sim, from: NodeId, to: NodeId, kind: MsgKind, tag: usize)
    requires
        in_time_order(s.queue),
    ensures
        keeps_entries(s.queue, s.send(from, to, kind, tag).queue),
{
    reveal(Sim::send);
    let at = s.arrival_of(from, to) as Time;
    let fate = s.fate_of(from, to, kind);
    let e = Timed {
        at: max_of(at as int, s.now as int) as Time,
        item: Scheduled::Arrival { from, to, kind, tag, fate },
    };
    lemma_enqueue_keeps(s.queue, e);
}

/// Deferring a reply takes nothing off the timeline.
pub proof fn lemma_reply_keeps(s: Sim, from: NodeId, to: NodeId, kind: MsgKind, tag: usize)
    requires
        in_time_order(s.queue),
    ensures
        keeps_entries(s.queue, s.reply_after_delay(from, to, kind, tag).queue),
{
    reveal(Sim::reply_after_delay);
    let think = s.cfg.nodes[from as int].response_delay;
    let e = Timed {
        at: max_of(s.now + think.drawn(s.rng, s.normal), s.now as int) as Time,
        item: Scheduled::Send { from, to, kind, tag },
    };
    lemma_enqueue_keeps(s.queue, e);
}

/// Filtering one more entry at the end.
pub proof fn lemma_live_push(queue: Seq<Timed>, e: Timed)
    ensures
        live(queue.push(e)) == if concerns_lease(e) {
            live(queue).push(e)
        } else {
            live(queue)
        },
{
    reveal(Seq::filter);
    assert(queue.push(e).drop_last() =~= queue);
}

/// Scheduling an entry schedules it among the live ones, if it is one.
pub proof fn lemma_live_enqueue(queue: Seq<Timed>, e: Timed)
    requires
        in_time_order(queue),
    ensures
        live(enqueue(queue, e)) == if concerns_lease(e) {
            enqueue(live(queue), e)
        } else {
            live(queue)
        },
        in_time_order(live(queue)),
    decreases queue.len(),
{
    lemma_enqueue(queue, e);
    lemma_live_ordered(queue);
    if queue.len() == 0 || queue.last().at <= e.at {
        assert(enqueue(queue, e) =~= queue.push(e));
        lemma_live_push(queue, e);
        lemma_live_last(queue);
        assert(enqueue(live(queue), e) =~= live(queue).push(e));
    } else {
        let rest = queue.drop_last();
        assert(queue =~= rest.push(queue.last()));
        lemma_live_enqueue(rest, e);
        lemma_enqueue(rest, e);
        assert(enqueue(queue, e) =~= enqueue(rest, e).push(queue.last()));
        lemma_live_push(enqueue(rest, e), queue.last());
        lemma_live_push(rest, queue.last());
        if concerns_lease(e) && concerns_lease(queue.last()) {
            let front = live(rest);
            assert(live(queue) == front.push(queue.last()));
            assert(front.push(queue.last()).drop_last() =~= front);
            lemma_enqueue(front, e);
            assert(enqueue(live(queue), e) =~= enqueue(front, e).push(queue.last()));
        }
    }
}

/// The live entries are in time order too.
pub proof fn lemma_live_ordered(queue: Seq<Timed>)
    requires
        in_time_order(queue),
    ensures
        in_time_order(live(queue)),
    decreases queue.len(),
{
    reveal(Seq::filter);
    if queue.len() > 0 {
        let rest = queue.drop_last();
        assert(queue =~= rest.push(queue.last()));
        lemma_live_ordered(rest);
        lemma_live_last(rest);
        lemma_live_push(rest, queue.last());
        let front = live(rest);
        if front.len() > 0 {
            lemma_live_entry(rest, front.len() - 1);
            let j = choose|j: int| 0 <= j < rest.len() && rest[j] == front[front.len() - 1];
            assert(queue[j].at <= queue.last().at);
        }
    }
}

/// A live entry is an entry.
pub proof fn lemma_live_entry(queue: Seq<Timed>, i: int)
    requires
        0 <= i < live(queue).len(),
    ensures
        queue.contains(live(queue)[i]),
        concerns_lease(live(queue)[i]),
{
    crate::upkeep::lemma_filter_from(queue, |e: Timed| concerns_lease(e), i);
}

/// The last live entry is not later than the last entry.
proof fn lemma_live_last(queue: Seq<Timed>)
    requires
        in_time_order(queue),
    ensures
        live(queue).len() > 0 ==> queue.len() > 0 && live(queue).last().at <= queue.last().at,
{
    reveal(Seq::filter);
    if live(queue).len() > 0 {
        lemma_live_entry(queue, live(queue).len() - 1);
        let j = choose|j: int| 0 <= j < queue.len() && queue[j] == live(queue).last();
        assert(queue[j].at <= queue[queue.len() - 1].at);
    }
}

/// Taking the first entry off the timeline.
pub proof fn lemma_live_drop_first(queue: Seq<Timed>)
    requires
        queue.len() > 0,
    ensures
        concerns_lease(queue[0]) ==> live(queue).len() > 0 && live(queue)[0] == queue[0] && live(
            queue.drop_first(),
        ) == live(queue).drop_first(),
        !concerns_lease(queue[0]) ==> live(queue.drop_first()) == live(queue),
{
    let head = seq![queue[0]];
    let rest = queue.drop_first();
    assert(queue =~= head + rest);
    let keep = |e: Timed| concerns_lease(e);
    Seq::filter_distributes_over_add(head, rest, keep);
    assert(live(queue) == live(head) + live(rest));
    reveal(Seq::filter);
    assert(head.drop_last() =~= Seq::<Timed>::empty());
    assert(live(Seq::<Timed>::empty()) =~= Seq::<Timed>::empty());
    if concerns_lease(queue[0]) {
        assert(live(head) =~= head);
        assert(live(queue).drop_first() =~= live(rest));
    } else {
        assert(live(head) =~= Seq::<Timed>::empty());
        assert(live(queue) =~= live(rest));
    }
}

// ---- Moves of the primitives ----------------------------------------------

/// Nothing that is told of changes, whatever else is reported.
proof fn lemma_told_nothing(a: Sim, b: Sim, kind: EventKind)
    requires
        b.leases == a.leases,
        b.nodes.len() == a.nodes.len(),
        forall|k: int| 0 <= k < a.nodes.len() ==> (#[trigger] b.nodes[k]).up == a.nodes[k].up,
        is_plain(kind),
        b.pending == a.pending || b.pending == a.emit(kind).pending,
    ensures
        told(a, b),
{
    assert(told_by(a, b, kind));
}

proof fn lemma_quiet(prop: spec_fn(Sim) -> bool, writing: bool, a: Sim, b: Sim)
    requires
        a.ok(),
        b.ok(),
        prop(a),
        kept_by_due_moves(prop, writing),
        is_quiet(a, b),
        nodes_kept(a, b),
    ensures
        prop(b),
{
    assert(moves(a, b, writing));
    assert(own_moves(a, b, writing));
    assert(due_moves(a, b, writing));
}

proof fn lemma_write_move(prop: spec_fn(Sim) -> bool, writing: bool, a: Sim, b: Sim)
    requires
        a.ok(),
        b.ok(),
        prop(a),
        kept_by_due_moves(prop, writing),
        writing,
        is_write_move(a, b),
        nodes_kept(a, b),
    ensures
        prop(b),
{
    assert(moves(a, b, writing));
    assert(own_moves(a, b, writing));
    assert(due_moves(a, b, writing));
}

proof fn lemma_retreat(prop: spec_fn(Sim) -> bool, writing: bool, a: Sim, b: Sim)
    requires
        a.ok(),
        b.ok(),
        prop(a),
        kept_by_due_moves(prop, writing),
        is_retreat(a, b),
        nodes_kept(a, b),
        retreat_has_cause(a, b),
    ensures
        prop(b),
{
    assert(moves(a, b, writing));
    assert(own_moves(a, b, writing));
    assert(due_moves(a, b, writing));
}

proof fn keep_emit(prop: spec_fn(Sim) -> bool, writing: bool, s: Sim, kind: EventKind)
    requires
        s.ok(),
        prop(s),
        kept_by_due_moves(prop, writing),
        writing || !is_write_event(kind),
        !is_activation(kind),
        !is_message(kind),
        is_plain(kind),
    ensures
        prop(s.emit(kind)),
{
    lemma_emit(s, kind);
    lemma_told_nothing(s, s.emit(kind), kind);
    if is_write_event(kind) {
        lemma_write_move(prop, writing, s, s.emit(kind));
    } else {
        lemma_quiet(prop, writing, s, s.emit(kind));
    }
}

proof fn keep_schedule(prop: spec_fn(Sim) -> bool, writing: bool, s: Sim, at: int, item: Scheduled)
    requires
        s.ok(),
        prop(s),
        kept_by_due_moves(prop, writing),
        writing || !concerns_write(Timed { at: 0, item }),
        item_ok(s.cfg, item),
        at <= i64::MAX,
        !concerns_lease(Timed { at: 0, item }),
        !(item is Arrival),
        !(item is Command),
    ensures
        prop(s.schedule(at, item)),
{
    lemma_schedule(s, at, item);
    lemma_told_nothing(s, s.schedule(at, item), EventKind::WriteStarted { leader: 0 });
    lemma_posted_enqueue(s.queue, Timed { at: max_of(at, s.now as int) as Time, item });
    lemma_orders_enqueue(s.queue, Timed { at: max_of(at, s.now as int) as Time, item });
    lemma_live_enqueue(s.queue, Timed { at: max_of(at, s.now as int) as Time, item });
    lemma_enqueue_keeps(s.queue, Timed { at: max_of(at, s.now as int) as Time, item });
    if concerns_write(Timed { at: 0, item }) {
        lemma_write_move(prop, writing, s, s.schedule(at, item));
    } else {
        lemma_writes_enqueue(s.queue, Timed { at: max_of(at, s.now as int) as Time, item });
        lemma_quiet(prop, writing, s, s.schedule(at, item));
    }
}

/// What a sent message adds to the live entries.
pub proof fn lemma_send_live(s: Sim, from: NodeId, to: NodeId, kind: MsgKind, tag: usize)
    requires
        s.ok(),
        message_ok(s.cfg, from, to, kind, tag),
    ensures
        ({
            let fate = s.fate_of(from, to, kind);
            let entry = Timed {
                at: s.arrival_of(from, to) as Time,
                item: Scheduled::Arrival { from, to, kind, tag, fate },
            };
            &&& live(s.send(from, to, kind, tag).queue) == if concerns_lease(entry) {
                enqueue(live(s.queue), entry)
            } else {
                live(s.queue)
            }
            &&& s.now < entry.at
            &&& in_time_order(live(s.queue))
        }),
        s.send(from, to, kind, tag).pending == s.emit(
            EventKind::MessageSent {
                from,
                to,
                kind,
                sent: s.now,
                arrival: s.arrival_of(from, to) as Time,
                fate: s.fate_of(from, to, kind),
            },
        ).pending,
        !kind.is_write_path() ==> writes(s.send(from, to, kind, tag).queue) == writes(s.queue),
{
    reveal(Sim::send);
    crate::upkeep::lemma_arrival(s, from, to);
    let fate = s.fate_of(from, to, kind);
    let entry = Timed {
        at: s.arrival_of(from, to) as Time,
        item: Scheduled::Arrival { from, to, kind, tag, fate },
    };
    lemma_live_enqueue(s.queue, entry);
    if !kind.is_write_path() {
        lemma_writes_enqueue(s.queue, entry);
    }
}

proof fn keep_send(
    prop: spec_fn(Sim) -> bool, writing: bool,
    s: Sim,
    from: NodeId,
    to: NodeId,
    kind: MsgKind,
    tag: usize,
)
    requires
        s.ok(),
        prop(s),
        kept_by_due_moves(prop, writing),
        writing,
        message_ok(s.cfg, from, to, kind, tag),
        kind.is_write_path(),
    ensures
        prop(s.send(from, to, kind, tag)),
{
    lemma_send(s, from, to, kind, tag);
    lemma_send_live(s, from, to, kind, tag);
    lemma_send_keeps(s, from, to, kind, tag);
    let ev = EventKind::MessageSent {
        from,
        to,
        kind,
        sent: s.now,
        arrival: s.arrival_of(from, to) as Time,
        fate: s.fate_of(from, to, kind),
    };
    lemma_told_nothing(s, s.send(from, to, kind, tag), ev);
    lemma_write_move(prop, writing, s, s.send(from, to, kind, tag));
}

/// What a deferred reply adds to the live entries.
pub proof fn lemma_reply_live(s: Sim, from: NodeId, to: NodeId, kind: MsgKind, tag: usize)
    requires
        s.ok(),
        kind.is_reply(),
        message_ok(s.cfg, from, to, kind, tag),
    ensures
        ({
            let think = s.cfg.nodes[from as int].response_delay;
            let entry = Timed {
                at: (s.now + think.drawn(s.rng, s.normal)) as Time,
                item: Scheduled::Send { from, to, kind, tag },
            };
            &&& live(s.reply_after_delay(from, to, kind, tag).queue) == if concerns_lease(entry) {
                enqueue(live(s.queue), entry)
            } else {
                live(s.queue)
            }
            &&& s.now <= entry.at == s.now + think.drawn(s.rng, s.normal)
            &&& in_time_order(live(s.queue))
        }),
        !kind.is_write_path() ==> writes(s.reply_after_delay(from, to, kind, tag).queue) == writes(
            s.queue,
        ),
{
    reveal(Sim::reply_after_delay);
    let think = s.cfg.nodes[from as int].response_delay;
    crate::upkeep::lemma_delay(think, s.rng, s.normal);
    let entry = Timed {
        at: (s.now + think.drawn(s.rng, s.normal)) as Time,
        item: Scheduled::Send { from, to, kind, tag },
    };
    lemma_live_enqueue(s.queue, entry);
    if !kind.is_write_path() {
        lemma_writes_enqueue(s.queue, entry);
    }
}

proof fn keep_reply(
    prop: spec_fn(Sim) -> bool, writing: bool,
    s: Sim,
    from: NodeId,
    to: NodeId,
    kind: MsgKind,
    tag: usize,
)
    requires
        s.ok(),
        prop(s),
        kept_by_due_moves(prop, writing),
        writing,
        message_ok(s.cfg, from, to, kind, tag),
        kind.is_write_path(),
        kind.is_reply(),
    ensures
        prop(s.reply_after_delay(from, to, kind, tag)),
{
    lemma_reply(s, from, to, kind, tag);
    lemma_reply_live(s, from, to, kind, tag);
    lemma_reply_keeps(s, from, to, kind, tag);
    lemma_reply_unposted(s, from, to, kind, tag);
    lemma_told_nothing(s, s.reply_after_delay(from, to, kind, tag), EventKind::WriteStarted { leader: 0 });
    lemma_write_move(prop, writing, s, s.reply_after_delay(from, to, kind, tag));
}

proof fn keep_broadcast(
    prop: spec_fn(Sim) -> bool, writing: bool,
    s: Sim,
    from: NodeId,
    kind: MsgKind,
    tag: usize,
    k: int,
)
    requires
        s.ok(),
        prop(s),
        kept_by_due_moves(prop, writing),
        writing,
        kind.is_write_path(),
        from < s.nodes.len(),
        0 <= k <= s.nodes.len(),
        s.nodes.len() <= usize::MAX,
    ensures
        prop(s.broadcast(from, kind, tag, k)),
    decreases k,
{
    if k > 0 {
        keep_broadcast(prop, writing, s, from, kind, tag, k - 1);
        lemma_broadcast(s, from, kind, tag, k - 1);
        let s1 = s.broadcast(from, kind, tag, k - 1);
        if k - 1 != from {
            keep_send(prop, writing, s1, from, (k - 1) as usize, kind, tag);
        }
    }
}

proof fn keep_fail_node(prop: spec_fn(Sim) -> bool, writing: bool, s: Sim, node: NodeId)
    requires
        s.ok(),
        prop(s),
        kept_by_due_moves(prop, writing),
        node < s.nodes.len(),
        s.cfg.nodes[node as int].fail_chance.num > 0,
    ensures
        prop(s.fail_node(node)),
{
    lemma_fail_node(s, node);
    lemma_fail_node_retreats(s, node);
    let b = s.fail_node(node);
    assert(nodes_kept(s, b) && retreat_has_cause(s, b)) by {
        reveal(Sim::fail_node);
    }
    lemma_retreat(prop, writing, s, b);
}

/// A crash is a retreat.
proof fn lemma_fail_node_retreats(s: Sim, node: NodeId)
    requires
        s.ok(),
        node < s.nodes.len(),
    ensures
        is_retreat(s, s.fail_node(node)),
{
    reveal(Sim::fail_node);
    let ev = EventKind::NodeFailed { node };
    let b = s.fail_node(node);
    assert(b.pending == s.emit(ev).pending);
    assert(told_by(s, b, ev));
}

proof fn keep_recover_node(prop: spec_fn(Sim) -> bool, writing: bool, s: Sim, node: NodeId)
    requires
        s.ok(),
        prop(s),
        kept_by_due_moves(prop, writing),
        node < s.nodes.len(),
        !s.nodes[node as int].up,
    ensures
        prop(s.recover_node(node)),
{
    lemma_recover_node(s, node);
    lemma_recover_node_is_quiet(s, node);
    let b = s.recover_node(node);
    assert(nodes_kept(s, b)) by {
        reveal(Sim::recover_node);
    }
    lemma_quiet(prop, writing, s, b);
}

/// A recovery is of no concern to leases.
proof fn lemma_recover_node_is_quiet(s: Sim, node: NodeId)
    requires
        s.ok(),
        node < s.nodes.len(),
    ensures
        is_quiet(s, s.recover_node(node)),
{
    reveal(Sim::recover_node);
    let ev = EventKind::NodeRecovered { node };
    let b = s.recover_node(node);
    assert(b.pending == s.emit(ev).pending);
    assert(told_by(s, b, ev));
}

proof fn keep_draw(prop: spec_fn(Sim) -> bool, writing: bool, s: Sim, rng: crate::rng::RngState)
    requires
        s.ok(),
        prop(s),
        kept_by_due_moves(prop, writing),
    ensures
        prop(Sim { rng, ..s }),
{
    lemma_draw(s, rng);
    lemma_told_nothing(s, (Sim { rng, ..s }), EventKind::WriteStarted { leader: 0 });
    lemma_quiet(prop, writing, s, (Sim { rng, ..s }));
}

proof fn keep_fault_trial(prop: spec_fn(Sim) -> bool, writing: bool, s: Sim, node: NodeId)
    requires
        s.ok(),
        prop(s),
        kept_by_due_moves(prop, writing),
        node < s.nodes.len(),
    ensures
        prop(s.fault_trial(node)),
{
    reveal(Sim::fault_trial);
    lemma_draw(s, s.rng.next());
    keep_draw(prop, writing, s, s.rng.next());
    let config = s.cfg.nodes[node as int];
    if s.nodes[node as int].up {
        if s.rng.hit(config.fail_chance) {
            keep_fail_node(prop, writing, s.draw(), node);
        }
    } else if s.rng.hit(config.recover_chance) {
        keep_recover_node(prop, writing, s.draw(), node);
    }
}

proof fn keep_expire_stale_guards(prop: spec_fn(Sim) -> bool, writing: bool, s: Sim, node: NodeId)
    requires
        s.ok(),
        prop(s),
        kept_by_due_moves(prop, writing),
    ensures
        prop(s.expire_stale_guards(node)),
{
    lemma_expire_stale_guards(s, node);
    reveal(Sim::expire_stale_guards);
    assert(told_by(s, s.expire_stale_guards(node), EventKind::WriteStarted { leader: 0 }));
    lemma_retreat(prop, writing, s, s.expire_stale_guards(node));
}

pub proof fn keep_expire_stale_renews(prop: spec_fn(Sim) -> bool, writing: bool, s: Sim, node: NodeId)
    requires
        s.ok(),
        prop(s),
        kept_by_due_moves(prop, writing),
    ensures
        prop(s.expire_stale_renews(node)),
{
    lemma_expire_stale_renews(s, node);
    reveal(Sim::expire_stale_renews);
    assert(told_by(s, s.expire_stale_renews(node), EventKind::WriteStarted { leader: 0 }));
    lemma_retreat(prop, writing, s, s.expire_stale_renews(node));
}

proof fn keep_begin_guard(prop: spec_fn(Sim) -> bool, writing: bool, s: Sim, i: usize)
    requires
        s.ok(),
        prop(s),
        kept_by_due_moves(prop, writing),
        i < s.leases.len(),
        s.leases[i as int].idle() || s.leases[i as int].grantor.reguard_on_thaw,
        may_open(s, i as int),
    ensures
        prop(s.begin_guard(i)),
{
    lemma_begin_guard(s, i);
    assert(is_guard(s, s.begin_guard(i), i));
    assert(moves(s, s.begin_guard(i), writing));
    assert(own_moves(s, s.begin_guard(i), writing));
    assert(due_moves(s, s.begin_guard(i), writing));
}

proof fn keep_initiate_trial(prop: spec_fn(Sim) -> bool, writing: bool, s: Sim, node: NodeId, i: usize)
    requires
        s.ok(),
        prop(s),
        kept_by_due_moves(prop, writing),
        i < s.leases.len(),
    ensures
        prop(s.initiate_trial(node, i)),
{
    lemma_draw(s, s.rng.next());
    keep_draw(prop, writing, s, s.rng.next());
    let l = s.leases[i as int];
    if l.id.grantor == node && l.idle() && s.rng.hit(
        s.cfg.nodes[node as int].initiate_chance,
    ) {
        keep_begin_guard(prop, writing, s.draw(), i);
    }
}

pub proof fn keep_maybe_initiate(prop: spec_fn(Sim) -> bool, writing: bool, s: Sim, node: NodeId, k: int)
    requires
        s.ok(),
        prop(s),
        kept_by_due_moves(prop, writing),
        0 <= k <= s.leases.len(),
        s.leases.len() <= usize::MAX,
    ensures
        prop(s.maybe_initiate(node, k)),
    decreases k,
{
    if k > 0 && !s.nodes[node as int].write_frozen {
        keep_maybe_initiate(prop, writing, s, node, k - 1);
        lemma_maybe_initiate(s, node, k - 1);
        keep_initiate_trial(prop, writing, s.maybe_initiate(node, k - 1), node, (k - 1) as usize);
    }
}

pub proof fn keep_service_grants(prop: spec_fn(Sim) -> bool, writing: bool, s: Sim, node: NodeId, k: int)
    requires
        s.ok(),
        prop(s),
        kept_by_due_moves(prop, writing),
        0 <= k <= s.leases.len(),
        s.leases.len() <= usize::MAX,
    ensures
        prop(s.service_grants(node, k)),
    decreases k,
{
    if k > 0 {
        keep_service_grants(prop, writing, s, node, k - 1);
        lemma_service_grants(s, node, k - 1);
        let s1 = s.service_grants(node, k - 1);
        let i = (k - 1) as usize;
        if s1.renew_due(node, k - 1) {
            lemma_send_renew(s1, i);
            assert(is_renewal(s1, s1.send_renew(i), i));
            assert(moves(s1, s1.send_renew(i), writing));
            assert(own_moves(s1, s1.send_renew(i), writing));
            assert(due_moves(s1, s1.send_renew(i), writing));
        }
    }
}

proof fn keep_recompute_grantor(prop: spec_fn(Sim) -> bool, writing: bool, s: Sim, node: NodeId, i: int)
    requires
        s.ok(),
        prop(s),
        kept_by_due_moves(prop, writing),
        0 <= i < s.leases.len(),
    ensures
        prop(s.recompute_grantor(node, i)),
{
    lemma_recompute_grantor(s, node, i);
    let b = s.recompute_grantor(node, i);
    let l = s.leases[i];
    let ev = EventKind::GrantorLease { lease: l.id, status: LeaseStatus::Expired };
    if b != s {
        assert(b.pending == s.emit(ev).pending);
        assert(told_by(s, b, ev));
        lemma_retreat(prop, writing, s, b);
    }
}

proof fn keep_recompute_grantee(prop: spec_fn(Sim) -> bool, writing: bool, s: Sim, node: NodeId, i: int)
    requires
        s.ok(),
        prop(s),
        kept_by_due_moves(prop, writing),
        0 <= i < s.leases.len(),
    ensures
        prop(s.recompute_grantee(node, i)),
{
    lemma_recompute_grantee(s, node, i);
    let b = s.recompute_grantee(node, i);
    let l = s.leases[i];
    let ev = EventKind::GranteeLease { lease: l.id, status: LeaseStatus::Expired };
    if b != s {
        assert(b.pending == s.emit(ev).pending);
        assert(told_by(s, b, ev));
        lemma_retreat(prop, writing, s, b);
    }
}

pub proof fn keep_recompute_statuses(prop: spec_fn(Sim) -> bool, writing: bool, s: Sim, node: NodeId, k: int)
    requires
        s.ok(),
        prop(s),
        kept_by_due_moves(prop, writing),
        0 <= k <= s.leases.len(),
    ensures
        prop(s.recompute_statuses(node, k)),
    decreases k,
{
    if k > 0 {
        keep_recompute_statuses(prop, writing, s, node, k - 1);
        lemma_recompute_statuses(s, node, k - 1);
        let s1 = s.recompute_statuses(node, k - 1);
        keep_recompute_grantor(prop, writing, s1, node, k - 1);
        lemma_recompute_grantor(s1, node, k - 1);
        keep_recompute_grantee(prop, writing, s1.recompute_grantor(node, k - 1), node, k - 1);
    }
}

proof fn keep_suspend_hold(prop: spec_fn(Sim) -> bool, writing: bool, s: Sim, node: NodeId, i: int)
    requires
        s.ok(),
        prop(s),
        kept_by_due_moves(prop, writing),
        0 <= i < s.leases.len(),
        s.cfg.write_disruptive,
    ensures
        prop(s.suspend_hold(node, i)),
{
    lemma_suspend_hold(s, node, i);
    let b = s.suspend_hold(node, i);
    let l = s.leases[i];
    let ev = EventKind::GranteeLease { lease: l.id, status: LeaseStatus::Expired };
    if b != s {
        assert(b.pending == s.emit(ev).pending);
        assert(told_by(s, b, ev));
        lemma_retreat(prop, writing, s, b);
    }
}

proof fn keep_suspend_grant(prop: spec_fn(Sim) -> bool, writing: bool, s: Sim, node: NodeId, i: int)
    requires
        s.ok(),
        prop(s),
        kept_by_due_moves(prop, writing),
        0 <= i < s.leases.len(),
        s.cfg.write_disruptive,
    ensures
        prop(s.suspend_grant(node, i)),
{
    lemma_suspend_grant(s, node, i);
    let b = s.suspend_grant(node, i);
    let l = s.leases[i];
    let ev = EventKind::GrantorLease { lease: l.id, status: LeaseStatus::Inactive };
    if b != s {
        assert(b.pending == s.emit(ev).pending);
        assert(told_by(s, b, ev));
        lemma_retreat(prop, writing, s, b);
    }
}

proof fn keep_suspend(prop: spec_fn(Sim) -> bool, writing: bool, s: Sim, node: NodeId, k: int)
    requires
        s.ok(),
        prop(s),
        kept_by_due_moves(prop, writing),
        0 <= k <= s.leases.len(),
        s.cfg.write_disruptive,
    ensures
        prop(s.suspend(node, k)),
    decreases k,
{
    if k > 0 {
        keep_suspend(prop, writing, s, node, k - 1);
        lemma_suspend(s, node, k - 1);
        let s1 = s.suspend(node, k - 1);
        keep_suspend_hold(prop, writing, s1, node, k - 1);
        lemma_suspend_hold(s1, node, k - 1);
        keep_suspend_grant(prop, writing, s1.suspend_hold(node, k - 1), node, k - 1);
    }
}

proof fn keep_with_node(prop: spec_fn(Sim) -> bool, writing: bool, s: Sim, node: NodeId, state: NodeState)
    requires
        s.ok(),
        prop(s),
        kept_by_due_moves(prop, writing),
        node < s.nodes.len(),
        s.cfg.write_disruptive,
        state.up == s.nodes[node as int].up,
    ensures
        prop(s.with_node(node, state)),
{
    lemma_with_node(s, node, state);
    lemma_told_nothing(s, s.with_node(node, state), EventKind::WriteStarted { leader: 0 });
    lemma_quiet(prop, writing, s, s.with_node(node, state));
}

proof fn keep_suspend_reads(prop: spec_fn(Sim) -> bool, writing: bool, s: Sim, node: NodeId)
    requires
        s.ok(),
        prop(s),
        kept_by_due_moves(prop, writing),
        node < s.nodes.len(),
        s.cfg.write_disruptive,
    ensures
        prop(s.suspend_reads(node)),
{
    reveal(Sim::suspend_reads);
    let n = NodeState { write_frozen: true, ..s.nodes[node as int] };
    keep_with_node(prop, writing, s, node, n);
    lemma_with_node(s, node, n);
    keep_suspend(prop, writing, s.with_node(node, n), node, s.leases.len() as int);
}

proof fn keep_reguard(prop: spec_fn(Sim) -> bool, writing: bool, s: Sim, node: NodeId, k: int)
    requires
        s.ok(),
        prop(s),
        kept_by_due_moves(prop, writing),
        0 <= k <= s.leases.len(),
        s.leases.len() <= usize::MAX,
    ensures
        prop(s.reguard(node, k)),
    decreases k,
{
    if k > 0 {
        keep_reguard(prop, writing, s, node, k - 1);
        lemma_reguard(s, node, k - 1);
        let s1 = s.reguard(node, k - 1);
        if s1.leases[k - 1].grantor.reguard_on_thaw {
            keep_begin_guard(prop, writing, s1, (k - 1) as usize);
        }
    }
}

proof fn keep_thaw_and_reguard(prop: spec_fn(Sim) -> bool, writing: bool, s: Sim, node: NodeId)
    requires
        s.ok(),
        prop(s),
        kept_by_due_moves(prop, writing),
        node < s.nodes.len(),
        s.leases.len() <= usize::MAX,
        s.cfg.write_disruptive,
    ensures
        prop(s.thaw_and_reguard(node)),
{
    reveal(Sim::thaw_and_reguard);
    let n = NodeState { write_frozen: false, ..s.nodes[node as int] };
    keep_with_node(prop, writing, s, node, n);
    lemma_with_node(s, node, n);
    keep_reguard(prop, writing, s.with_node(node, n), node, s.leases.len() as int);
}

proof fn keep_thaw_all(prop: spec_fn(Sim) -> bool, writing: bool, s: Sim, k: int)
    requires
        s.ok(),
        prop(s),
        kept_by_due_moves(prop, writing),
        0 <= k <= s.nodes.len(),
        s.nodes.len() <= usize::MAX,
        s.leases.len() <= usize::MAX,
        s.cfg.write_disruptive,
    ensures
        prop(s.thaw_all(k)),
    decreases k,
{
    if k > 0 {
        keep_thaw_all(prop, writing, s, k - 1);
        lemma_thaw_all(s, k - 1);
        keep_thaw_and_reguard(prop, writing, s.thaw_all(k - 1), (k - 1) as usize);
    }
}

proof fn keep_rounds(prop: spec_fn(Sim) -> bool, writing: bool, s: Sim, rounds: Seq<Round>)
    requires
        s.ok(),
        prop(s),
        kept_by_due_moves(prop, writing),
        rounds.len() <= s.rounds.len(),
        writing,
        rounds_ok(s.now, rounds),
    ensures
        prop(Sim { rounds, ..s }),
{
    lemma_told_nothing(s, (Sim { rounds, ..s }), EventKind::WriteStarted { leader: 0 });
    lemma_write_move(prop, writing, s, (Sim { rounds, ..s }));
}

proof fn keep_abort_stale_writes(prop: spec_fn(Sim) -> bool, writing: bool, s: Sim, node: NodeId)
    requires
        s.ok(),
        prop(s),
        kept_by_due_moves(prop, writing),
        writing || s.rounds.len() == 0,
        s.nodes.len() <= usize::MAX,
        s.leases.len() <= usize::MAX,
    ensures
        prop(s.abort_stale_writes(node)),
{
    reveal(Sim::abort_stale_writes);
    let keep = |r: Round| !s.stale(r);
    let s1 = Sim { rounds: s.rounds.filter(keep), ..s };
    lemma_rounds_filter(s, keep);
    if s.rounds.len() > 0 {
        s.rounds.lemma_filter_len(keep);
        keep_rounds(prop, writing, s, s.rounds.filter(keep));
        if s.cfg.write_disruptive {
            keep_thaw_all(prop, writing, s1, s.nodes.len() as int);
        }
    }
}

proof fn keep_tend(prop: spec_fn(Sim) -> bool, writing: bool, s: Sim, node: NodeId)
    requires
        s.ok(),
        prop(s),
        kept_by_due_moves(prop, writing),
        writing || s.rounds.len() == 0,
        node < s.nodes.len(),
        s.nodes.len() <= usize::MAX,
        s.leases.len() <= usize::MAX,
    ensures
        prop(s.tend(node)),
{
    reveal(Sim::tend);
    keep_abort_stale_writes(prop, writing, s, node);
    lemma_abort_stale_writes(s, node);
    let s1 = s.abort_stale_writes(node);
    keep_expire_stale_guards(prop, writing, s1, node);
    lemma_expire_stale_guards(s1, node);
    let s2 = s1.expire_stale_guards(node);
    keep_expire_stale_renews(prop, writing, s2, node);
    lemma_expire_stale_renews(s2, node);
    let s3 = s2.expire_stale_renews(node);
    keep_maybe_initiate(prop, writing, s3, node, s3.leases.len() as int);
    lemma_maybe_initiate(s3, node, s3.leases.len() as int);
    let s4 = s3.maybe_initiate(node, s3.leases.len() as int);
    keep_service_grants(prop, writing, s4, node, s4.leases.len() as int);
}

/// A poll keeps what every move keeps.
pub proof fn keep_poll(prop: spec_fn(Sim) -> bool, writing: bool, s: Sim, node: NodeId)
    requires
        s.ok(),
        prop(s),
        kept_by_due_moves(prop, writing),
        writing || s.rounds.len() == 0,
        node < s.nodes.len(),
        s.nodes.len() <= usize::MAX,
        s.leases.len() <= usize::MAX,
    ensures
        prop(s.poll(node)),
{
    reveal(Sim::poll);
    keep_fault_trial(prop, writing, s, node);
    lemma_fault_trial(s, node);
    let s1 = s.fault_trial(node);
    assert(s1.rounds == s.rounds) by {
        reveal(Sim::fault_trial);
        reveal(Sim::fail_node);
        reveal(Sim::recover_node);
    }
    keep_tend(prop, writing, s1, node);
    lemma_tend(s1, node);
    let s2 = if s1.nodes[node as int].up {
        s1.tend(node)
    } else {
        s1
    };
    keep_recompute_statuses(prop, writing, s2, node, s2.leases.len() as int);
    lemma_recompute_statuses(s2, node, s2.leases.len() as int);
    let s3 = s2.recompute_statuses(node, s2.leases.len() as int);
    if s3.now + POLL_INTERVAL <= s3.cfg.duration {
        keep_schedule(prop, writing, s3, s3.now + POLL_INTERVAL, Scheduled::Poll { node });
    }
}

proof fn keep_begin_write(prop: spec_fn(Sim) -> bool, writing: bool, s: Sim, leader: NodeId)
    requires
        s.ok(),
        prop(s),
        kept_by_due_moves(prop, writing),
        s.cfg.write_disruptive ==> s.rounds.len() == 0,
        writing,
        leader < s.nodes.len(),
        s.nodes.len() <= usize::MAX,
    ensures
        prop(s.begin_write(leader)),
{
    reveal(Sim::begin_write);
    let id = s.next_write_id;
    let opened = Sim {
        next_write_id: id.wrapping_add(1),
        rounds: s.rounds.push(Round { id, started: s.now, replied: Set::empty() }),
        ..s
    };
    assert(opened.ok());
    lemma_told_nothing(s, opened, EventKind::WriteStarted { leader: 0 });
    lemma_write_move(prop, writing, s, opened);
    if s.cfg.write_disruptive {
        keep_suspend_reads(prop, writing, opened, leader);
    }
    lemma_suspend_reads(opened, leader);
    let s1 = if s.cfg.write_disruptive {
        opened.suspend_reads(leader)
    } else {
        opened
    };
    let ev = EventKind::WriteStarted { leader };
    keep_emit(prop, writing, s1, ev);
    lemma_emit(s1, ev);
    keep_broadcast(prop, writing, s1.emit(ev), leader, MsgKind::Write, id, s.nodes.len() as int);
}

/// Serving a write keeps what every move keeps.
pub proof fn keep_serve_write(prop: spec_fn(Sim) -> bool, writing: bool, s: Sim)
    requires
        s.ok(),
        prop(s),
        kept_by_due_moves(prop, writing),
        writing,
        s.nodes.len() <= usize::MAX,
    ensures
        prop(s.serve_write()),
{
    lemma_leader(s);
    if let Some(leader) = s.leader() {
        if s.cfg.write_disruptive ==> s.rounds.len() == 0 {
            keep_begin_write(prop, writing, s, leader);
        }
    }
}

/// A write tick keeps what every move keeps.
pub proof fn keep_write_tick(prop: spec_fn(Sim) -> bool, writing: bool, s: Sim)
    requires
        s.ok(),
        prop(s),
        kept_by_due_moves(prop, writing),
        writing,
        s.nodes.len() <= usize::MAX,
    ensures
        prop(s.write_tick()),
{
    reveal(Sim::write_tick);
    if let Some(iv) = s.cfg.write_interval {
        lemma_jittered(s, iv as int);
        let s1 = s.after_jitter(iv as int);
        keep_draw(prop, writing, s, s1.rng);
        lemma_draw(s, s1.rng);
        let next = s.now + s.jittered(iv as int);
        keep_schedule(prop, writing, s1, next, Scheduled::WriteTick);
        lemma_schedule(s1, next, Scheduled::WriteTick);
        let s2 = if next <= s.cfg.duration {
            s1.schedule(next, Scheduled::WriteTick)
        } else {
            s1
        };
        keep_serve_write(prop, writing, s2);
    } else {
        keep_serve_write(prop, writing, s);
    }
}

proof fn keep_on_write(
    prop: spec_fn(Sim) -> bool, writing: bool,
    s: Sim,
    from: NodeId,
    to: NodeId,
    write_id: usize,
)
    requires
        s.ok(),
        prop(s),
        kept_by_due_moves(prop, writing),
        writing,
        from < s.nodes.len(),
        to < s.nodes.len(),
    ensures
        prop(s.on_write(from, to, write_id)),
{
    reveal(Sim::on_write);
    lemma_suspend_reads(s, to);
    if s.cfg.write_disruptive {
        keep_suspend_reads(prop, writing, s, to);
    }
    let s1 = if s.cfg.write_disruptive {
        s.suspend_reads(to)
    } else {
        s
    };
    keep_reply(prop, writing, s1, to, from, MsgKind::WriteReply, write_id);
}

proof fn keep_try_commit(prop: spec_fn(Sim) -> bool, writing: bool, s: Sim, write_id: usize)
    requires
        s.ok(),
        prop(s),
        kept_by_due_moves(prop, writing),
        writing,
        s.nodes.len() <= usize::MAX,
        s.leases.len() <= usize::MAX,
    ensures
        prop(s.try_commit(write_id)),
{
    reveal(Sim::try_commit);
    lemma_leader(s);
    if let Some(leader) = s.leader() {
        let ev = EventKind::WriteCommitted { leader };
        keep_emit(prop, writing, s, ev);
        lemma_emit(s, ev);
        let s1 = s.emit(ev);
        let sent = s1.broadcast(leader, MsgKind::Commit, write_id, s.nodes.len() as int);
        keep_broadcast(prop, writing, s1, leader, MsgKind::Commit, write_id, s.nodes.len() as int);
        lemma_broadcast(s1, leader, MsgKind::Commit, write_id, s.nodes.len() as int);
        if s.cfg.write_disruptive {
            keep_thaw_and_reguard(prop, writing, sent, leader);
        }
        lemma_thaw_and_reguard(sent, leader);
        let s2 = if s.cfg.write_disruptive {
            sent.thaw_and_reguard(leader)
        } else {
            sent
        };
        let keep = |r: Round| r.id != write_id;
        lemma_rounds_filter(s2, keep);
        s2.rounds.lemma_filter_len(keep);
        keep_rounds(prop, writing, s2, s2.rounds.filter(keep));
    }
}

proof fn keep_on_write_reply(prop: spec_fn(Sim) -> bool, writing: bool, s: Sim, from: NodeId, write_id: usize)
    requires
        s.ok(),
        prop(s),
        kept_by_due_moves(prop, writing),
        writing,
        s.nodes.len() <= usize::MAX,
        s.leases.len() <= usize::MAX,
    ensures
        prop(s.on_write_reply(from, write_id)),
{
    reveal(Sim::on_write_reply);
    let p = round_position(s.rounds, write_id, 0);
    lemma_round_position(s.rounds, write_id, 0);
    if p < s.rounds.len() {
        let r = s.rounds[p];
        let rounds = s.rounds.update(p, Round { replied: r.replied.insert(from), ..r });
        assert(rounds_ok(s.now, rounds));
        keep_rounds(prop, writing, s, rounds);
        keep_try_commit(prop, writing, (Sim { rounds, ..s }), write_id);
    }
}

/// Receiving a write-path message keeps what every move keeps.
pub proof fn keep_receive_write(
    prop: spec_fn(Sim) -> bool, writing: bool,
    s: Sim,
    from: NodeId,
    to: NodeId,
    kind: MsgKind,
    tag: usize,
)
    requires
        s.ok(),
        prop(s),
        kept_by_due_moves(prop, writing),
        writing,
        message_ok(s.cfg, from, to, kind, tag),
        kind.is_write_path(),
        s.nodes.len() <= usize::MAX,
        s.leases.len() <= usize::MAX,
    ensures
        prop(s.receive(from, to, kind, tag)),
{
    match kind {
        MsgKind::Write => keep_on_write(prop, writing, s, from, to, tag),
        MsgKind::WriteReply => keep_on_write_reply(prop, writing, s, from, tag),
        _ => if s.cfg.write_disruptive {
            keep_thaw_and_reguard(prop, writing, s, to);
        },
    }
}

/// A command other than `Initiate` and `Revoke` keeps what every move keeps.
pub proof fn keep_order(prop: spec_fn(Sim) -> bool, writing: bool, s: Sim, cmd: Command)
    requires
        s.ok(),
        prop(s),
        kept_by_own_moves(prop, writing),
        writing || !(cmd is Write),
        crate::scenario::command_valid(cmd, s.nodes.len()),
        !(cmd is Revoke),
        !(cmd is Initiate),
        s.nodes.len() <= usize::MAX,
        s.leases.len() <= usize::MAX,
    ensures
        prop(s.apply(cmd)),
{
    reveal(Sim::apply);
    match cmd {
        Command::FailNode(node) => {
            lemma_fail_node(s, node);
            lemma_fail_node_retreats(s, node);
            assert(moves(s, s.fail_node(node), writing));
            assert(own_moves(s, s.fail_node(node), writing));
        },
        Command::RecoverNode(node) => {
            lemma_recover_node(s, node);
            lemma_recover_node_is_quiet(s, node);
            assert(moves(s, s.recover_node(node), writing));
            assert(own_moves(s, s.recover_node(node), writing));
        },
        Command::Write => keep_serve_write(prop, writing, s),
        _ => {},
    }
}

/// A command other than `Revoke` keeps what every move keeps.
pub proof fn keep_apply(prop: spec_fn(Sim) -> bool, writing: bool, s: Sim, cmd: Command)
    requires
        s.ok(),
        prop(s),
        kept_by_moves(prop, writing),
        writing || !(cmd is Write),
        crate::scenario::command_valid(cmd, s.nodes.len()),
        !(cmd is Revoke),
        s.nodes.len() <= usize::MAX,
        s.leases.len() <= usize::MAX,
    ensures
        prop(s.apply(cmd)),
{
    if let Command::Initiate(id) = cmd {
        reveal(Sim::apply);
        lemma_lease_position(s.leases, id, 0);
        let i = s.lease_index(id) as usize;
        if s.declared(id) && s.leases[i as int].idle() {
            lemma_begin_guard(s, i);
            assert(is_guard(s, s.begin_guard(i), i));
            assert(moves(s, s.begin_guard(i), writing));
        }
    } else {
        keep_order(prop, writing, s, cmd);
    }
}

proof fn lemma_polls_live(s: Sim, k: int)
    requires
        in_time_order(s.queue),
        0 <= k,
    ensures
        live(s.with_polls(k).queue) == live(s.queue),
        in_time_order(s.with_polls(k).queue),
        s.with_polls(k).now == s.now,
        s.with_polls(k).cfg == s.cfg,
    decreases k,
{
    if k > 0 {
        lemma_polls_live(s, k - 1);
        let s1 = s.with_polls(k - 1);
        let e = Timed {
            at: max_of(0, s1.now as int) as Time,
            item: Scheduled::Poll { node: (k - 1) as usize },
        };
        lemma_live_enqueue(s1.queue, e);
        lemma_enqueue(s1.queue, e);
    }
}

proof fn lemma_commands_live(s: Sim, k: int)
    requires
        in_time_order(s.queue),
        live(s.queue).len() == 0,
        0 <= k <= s.cfg.commands.len(),
    ensures
        forall|j: int|
            0 <= j < live(s.with_commands(k).queue).len() ==> scripted_revoke(
                s.cfg,
                #[trigger] live(s.with_commands(k).queue)[j],
            ),
        in_time_order(s.with_commands(k).queue),
        s.with_commands(k).now == s.now,
        s.with_commands(k).cfg == s.cfg,
    decreases k,
{
    if k > 0 {
        lemma_commands_live(s, k - 1);
        let s1 = s.with_commands(k - 1);
        let (at, cmd) = s.cfg.commands[k - 1];
        let e = Timed {
            at: max_of(at as int, s1.now as int) as Time,
            item: Scheduled::Command(cmd),
        };
        lemma_live_enqueue(s1.queue, e);
        lemma_enqueue(s1.queue, e);
        let q = live(s.with_commands(k).queue);
        assert forall|j: int| 0 <= j < q.len() implies scripted_revoke(s.cfg, #[trigger] q[j]) by {
            if q == live(s1.queue) {
                assert(q[j] == live(s1.queue)[j]);
            } else {
                lemma_enqueue_entry(live(s1.queue), e, j);
                if q[j] == e {
                    assert(s.cfg.commands[k - 1].1 == cmd);
                } else {
                    let x = choose|x: int| 0 <= x < live(s1.queue).len() && #[trigger] live(s1.queue)[x] == q[j];
                    assert(scripted_revoke(s.cfg, live(s1.queue)[x]));
                }
            }
        }
    }
}

/// The entry is a scripted command to revoke.
pub open spec fn scripted_revoke(cfg: Config, e: Timed) -> bool {
    e.item matches Scheduled::Command(cmd) && cmd is Revoke && exists|k: int|
        0 <= k < cfg.commands.len() && (#[trigger] cfg.commands[k]).1 == cmd
}

/// An entry of a timeline to which one was added.
pub proof fn lemma_enqueue_entry(q: Seq<Timed>, e: Timed, k: int)
    requires
        in_time_order(q),
        0 <= k < enqueue(q, e).len(),
    ensures
        enqueue(q, e)[k] == e || exists|j: int|
            0 <= j < q.len() && #[trigger] q[j] == enqueue(q, e)[k],
{
    lemma_enqueue(q, e);
    let p = slot(q, e.at);
    if k < p {
        assert(q[k] == enqueue(q, e)[k]);
    } else if k > p {
        assert(q[k - 1] == enqueue(q, e)[k]);
    }
}

/// No lease message is under way at the start of a run.
pub proof fn lemma_initial_live(cfg: Config, normal: spec_fn(NormalDraw) -> Time)
    ensures
        forall|j: int|
            0 <= j < live(Sim::initial(cfg, normal).queue).len() ==> scripted_revoke(
                cfg,
                #[trigger] live(Sim::initial(cfg, normal).queue)[j],
            ),
{
    let s = Sim::blank(cfg, normal);
    reveal(Seq::filter);
    assert(live(s.queue) =~= Seq::empty());
    lemma_polls_live(s, cfg.nodes.len() as int);
    let s1 = s.with_polls(cfg.nodes.len() as int);
    lemma_commands_live(s1, cfg.commands.len() as int);
    let s2 = s1.with_commands(cfg.commands.len() as int);
    if let Some(iv) = cfg.write_interval {
        let e = Timed {
            at: max_of(s2.jittered(iv as int), s2.now as int) as Time,
            item: Scheduled::WriteTick,
        };
        lemma_live_enqueue(s2.queue, e);
    }
}

} // verus!
