//! A lease that is cut off never comes up: where every guard, or every renew, of
//! a lease is lost, its grantee never becomes active.

use crate::clock::Time;
use crate::dist::NormalDraw;
use crate::event::{Command, EventKind, LeaseId, LeaseStatus, MsgFate, MsgKind, NodeId};
use crate::moves::{
    concerns_lease, is_guard, is_quiet, is_renewal, is_retreat, is_write_move, keep_apply,
    keep_poll, keep_receive_write, keep_write_tick, kept_by_moves, lemma_enqueue_entry,
    lemma_live_drop_first, lemma_reply_live, lemma_send_live, live, moves, scripted_revoke,
};
use crate::prob::law_certain_loss_stays_certain;
use crate::progress::{lemma_steps_next, lemma_steps_ok, sized};
use crate::rng::law_certain_event_always_hits;
use crate::rounding::UNIT;
use crate::safety::{lemma_begin_guard_effect, lemma_send_renew_effect};
use crate::scenario::Config;
use crate::sim::{GranteeState, GrantorState, Sim};
use crate::timeline::{enqueue, in_time_order, Scheduled, Timed};
use crate::upkeep::{
    lemma_emit, lemma_lease_position, lemma_parties, lemma_popped, lemma_reply, lemma_send,
    lemma_with_grantee, lemma_with_grantor, message_ok,
};
use vstd::prelude::*;

verus! {

/// Every message of `kind` on the link `from -> to` is lost: the link is
/// partitioned, or it or the kind drops with certainty from the start.
pub open spec fn always_lost(cfg: Config, from: NodeId, to: NodeId, kind: MsgKind) -> bool {
    ||| cfg.link(from, to).partitioned
    ||| cfg.link(from, to).drop_chance.num >= UNIT
    ||| cfg.kind_drop[kind.ordinal()].num >= UNIT && cfg.kind_drop_from[kind.ordinal()] <= 0
}

/// Such a message is lost whenever it is sent.
pub proof fn law_always_lost_is_lost(s: Sim, from: NodeId, to: NodeId, kind: MsgKind)
    requires
        s.ok(),
        always_lost(s.cfg, from, to, kind),
    ensures
        s.loses(from, to, kind),
        s.fate_of(from, to, kind) == MsgFate::Dropped,
{
    if !s.cfg.link(from, to).partitioned {
        let (a, b) = (s.cfg.link(from, to).drop_chance, s.cfg.kind_loss(kind, s.now as int));
        law_certain_loss_stays_certain(a, b);
        law_certain_event_always_hits(s.rng, s.loss(from, to, kind));
    }
}

/// The entry is one on the way to an active lease `i`: a guard or its answer (if
/// it is guards that are lost), or a renew.
pub open spec fn leads_to_active(e: Timed, i: int, guards: bool) -> bool {
    match e.item {
        Scheduled::Send { kind, tag, .. } => tag == i && guards && kind == MsgKind::GuardReply,
        Scheduled::Arrival { kind, tag, fate, .. } => tag == i && fate == MsgFate::Delivered && (kind
            == MsgKind::Renew || guards && (kind == MsgKind::Guard || kind == MsgKind::GuardReply)),
        _ => false,
    }
}

/// The event reports that the lease became active, on the grantee's side (or, if
/// it is guards that are lost, on either).
pub open spec fn reports_active(kind: EventKind, id: LeaseId, guards: bool) -> bool {
    match kind {
        EventKind::GranteeLease { lease, status } => lease == id && status == LeaseStatus::Active,
        EventKind::GrantorLease { lease, status } => guards && lease == id && status
            == LeaseStatus::Active,
        _ => false,
    }
}

/// The lease between the two nodes is down and nothing under way could bring it
/// up; that it came up was never reported.
pub open spec fn down(s: Sim, id: LeaseId, guards: bool) -> bool {
    &&& forall|i: int|
        0 <= i < s.leases.len() && (#[trigger] s.leases[i]).id == id ==> s.leases[i].grantee.status
            != LeaseStatus::Active && (guards ==> s.leases[i].grantor.status != LeaseStatus::Active)
    &&& forall|i: int, k: int|
        0 <= i < s.leases.len() && (#[trigger] s.leases[i]).id == id && 0 <= k < live(s.queue).len()
            ==> !leads_to_active(#[trigger] live(s.queue)[k], i, guards)
    &&& forall|k: int|
        0 <= k < s.pending.len() ==> !reports_active((#[trigger] s.pending[k]).kind, id, guards)
}

/// The messages that are lost: the lease's guards, or its renews.
pub open spec fn cut_off(cfg: Config, id: LeaseId, guards: bool) -> bool {
    always_lost(
        cfg,
        id.grantor,
        id.grantee,
        if guards {
            MsgKind::Guard
        } else {
            MsgKind::Renew
        },
    )
}

/// An entry that does not bring the lease up was added; the lease itself did not
/// come up, and no report says so.
proof fn lemma_still_down(s: Sim, next: Sim, e: Timed, id: LeaseId, guards: bool)
    requires
        down(s, id, guards),
        in_time_order(live(s.queue)),
        next.leases.len() == s.leases.len(),
        forall|i: int|
            0 <= i < s.leases.len() ==> (#[trigger] next.leases[i]).id == s.leases[i].id && (
            next.leases[i].id == id ==> (next.leases[i].grantee.status == LeaseStatus::Active
                ==> s.leases[i].grantee.status == LeaseStatus::Active) && (guards
                && next.leases[i].grantor.status == LeaseStatus::Active
                ==> s.leases[i].grantor.status == LeaseStatus::Active)),
        live(next.queue) == live(s.queue) || live(next.queue) == enqueue(live(s.queue), e),
        forall|i: int|
            0 <= i < s.leases.len() && (#[trigger] s.leases[i]).id == id ==> !leads_to_active(
                e,
                i,
                guards,
            ),
        next.pending == s.pending || exists|kind: EventKind|
            !reports_active(kind, id, guards) && next.pending == #[trigger] s.emit(kind).pending,
    ensures
        down(next, id, guards),
{
    assert forall|i: int, k: int|
        0 <= i < next.leases.len() && (#[trigger] next.leases[i]).id == id && 0 <= k < live(
            next.queue,
        ).len() implies !leads_to_active(#[trigger] live(next.queue)[k], i, guards) by {
        assert(s.leases[i].id == id);
        if live(next.queue) != live(s.queue) {
            lemma_enqueue_entry(live(s.queue), e, k);
            if live(next.queue)[k] != e {
                let j = choose|j: int|
                    0 <= j < live(s.queue).len() && #[trigger] live(s.queue)[j] == live(next.queue)[k];
                assert(!leads_to_active(live(s.queue)[j], i, guards));
            }
        }
    }
    assert forall|i: int|
        0 <= i < next.leases.len() && (#[trigger] next.leases[i]).id
            == id implies next.leases[i].grantee.status != LeaseStatus::Active && (guards
        ==> next.leases[i].grantor.status != LeaseStatus::Active) by {
        assert(s.leases[i].id == id);
    }
}

spec fn down_in(cfg: Config, id: LeaseId, guards: bool) -> spec_fn(Sim) -> bool {
    |s: Sim| s.cfg == cfg && down(s, id, guards)
}

proof fn lemma_down_kept(cfg: Config, id: LeaseId, guards: bool)
    requires
        cut_off(cfg, id, guards),
    ensures
        kept_by_moves(down_in(cfg, id, guards), true),
{
    let prop = down_in(cfg, id, guards);
    let none = Timed { at: 0, item: Scheduled::WriteTick };
    assert forall|a: Sim, b: Sim|
        a.ok() && b.ok() && prop(a) && #[trigger] moves(a, b, true) implies prop(b) by {
        crate::moves::lemma_live_ordered(a.queue);
        if is_quiet(a, b) || is_write_move(a, b) || is_retreat(a, b) {
            lemma_still_down(a, b, none, id, guards);
        } else if exists|j: usize| is_guard(a, b, j) {
            let j = choose|j: usize| is_guard(a, b, j);
            lemma_guard_down(a, j, id, guards);
        } else {
            let j = choose|j: usize| is_renewal(a, b, j);
            lemma_renew_down(a, j, id, guards);
        }
    }
}

proof fn lemma_guard_down(a: Sim, j: usize, id: LeaseId, guards: bool)
    requires
        a.ok(),
        j < a.leases.len(),
        cut_off(a.cfg, id, guards),
        down(a, id, guards),
    ensures
        down(a.begin_guard(j), id, guards),
        a.begin_guard(j).cfg == a.cfg,
{
    let b = a.begin_guard(j);
    lemma_begin_guard_effect(a, j);
    let l = a.leases[j as int];
    let e = Timed {
        at: a.arrival_of(l.id.grantor, l.id.grantee) as Time,
        item: Scheduled::Arrival {
            from: l.id.grantor,
            to: l.id.grantee,
            kind: MsgKind::Guard,
            tag: j,
            fate: a.fate_of(l.id.grantor, l.id.grantee, MsgKind::Guard),
        },
    };
    if guards {
        law_always_lost_is_lost(a, id.grantor, id.grantee, MsgKind::Guard);
    }
    lemma_still_down(a, b, e, id, guards);
}

proof fn lemma_renew_down(a: Sim, j: usize, id: LeaseId, guards: bool)
    requires
        a.ok(),
        j < a.leases.len(),
        cut_off(a.cfg, id, guards),
        down(a, id, guards),
        a.leases[j as int].grantor.status == LeaseStatus::Active,
    ensures
        down(a.send_renew(j), id, guards),
        a.send_renew(j).cfg == a.cfg,
{
    let b = a.send_renew(j);
    lemma_send_renew_effect(a, j);
    let l = a.leases[j as int];
    let e = Timed {
        at: a.arrival_of(l.id.grantor, l.id.grantee) as Time,
        item: Scheduled::Arrival {
            from: l.id.grantor,
            to: l.id.grantee,
            kind: MsgKind::Renew,
            tag: j,
            fate: a.fate_of(l.id.grantor, l.id.grantee, MsgKind::Renew),
        },
    };
    if !guards {
        law_always_lost_is_lost(a, id.grantor, id.grantee, MsgKind::Renew);
    }
    lemma_still_down(a, b, e, id, guards);
}

proof fn lemma_popped_down(s: Sim, id: LeaseId, guards: bool)
    requires
        s.ok(),
        s.queue.len() > 0,
        down(s, id, guards),
    ensures
        down(s.popped(), id, guards),
        forall|i: int|
            0 <= i < s.leases.len() && (#[trigger] s.leases[i]).id == id && concerns_lease(
                s.queue[0],
            ) ==> !leads_to_active(s.queue[0], i, guards),
{
    lemma_live_drop_first(s.queue);
    let (q, p) = (live(s.queue), live(s.popped().queue));
    assert forall|i: int, k: int|
        0 <= i < s.leases.len() && (#[trigger] s.leases[i]).id == id && 0 <= k
            < p.len() implies !leads_to_active(#[trigger] p[k], i, guards) by {
        if concerns_lease(s.queue[0]) {
            assert(p[k] == q[k + 1]);
        } else {
            assert(p[k] == q[k]);
        }
    }
    if concerns_lease(s.queue[0]) {
        assert(q[0] == s.queue[0]);
    }
}

proof fn lemma_emit_down(s: Sim, kind: EventKind, id: LeaseId, guards: bool)
    requires
        s.ok(),
        down(s, id, guards),
        !reports_active(kind, id, guards),
    ensures
        s.emit(kind).ok(),
        down(s.emit(kind), id, guards),
{
    lemma_emit(s, kind);
    crate::moves::lemma_live_ordered(s.queue);
    lemma_still_down(
        s,
        s.emit(kind),
        Timed { at: 0, item: Scheduled::WriteTick },
        id,
        guards,
    );
}

proof fn lemma_send_down(
    s: Sim,
    from: NodeId,
    to: NodeId,
    kind: MsgKind,
    tag: usize,
    id: LeaseId,
    guards: bool,
)
    requires
        s.ok(),
        down(s, id, guards),
        message_ok(s.cfg, from, to, kind, tag),
        kind != MsgKind::Renew,
        kind != MsgKind::Guard,
        kind == MsgKind::GuardReply && guards ==> s.leases[tag as int].id != id,
    ensures
        down(s.send(from, to, kind, tag), id, guards),
{
    lemma_send(s, from, to, kind, tag);
    lemma_send_live(s, from, to, kind, tag);
    let e = Timed {
        at: s.arrival_of(from, to) as Time,
        item: Scheduled::Arrival { from, to, kind, tag, fate: s.fate_of(from, to, kind) },
    };
    lemma_still_down(s, s.send(from, to, kind, tag), e, id, guards);
}

proof fn lemma_reply_down(
    s: Sim,
    from: NodeId,
    to: NodeId,
    kind: MsgKind,
    tag: usize,
    id: LeaseId,
    guards: bool,
)
    requires
        s.ok(),
        down(s, id, guards),
        message_ok(s.cfg, from, to, kind, tag),
        kind.is_reply(),
        kind == MsgKind::GuardReply && guards ==> s.leases[tag as int].id != id,
    ensures
        down(s.reply_after_delay(from, to, kind, tag), id, guards),
{
    lemma_reply(s, from, to, kind, tag);
    lemma_reply_live(s, from, to, kind, tag);
    let think = s.cfg.nodes[from as int].response_delay;
    let e = Timed {
        at: (s.now + think.drawn(s.rng, s.normal)) as Time,
        item: Scheduled::Send { from, to, kind, tag },
    };
    lemma_still_down(s, s.reply_after_delay(from, to, kind, tag), e, id, guards);
}

proof fn lemma_with_down(s: Sim, b: Sim, id: LeaseId, guards: bool)
    requires
        s.ok(),
        down(s, id, guards),
        b.queue == s.queue,
        b.pending == s.pending,
        b.leases.len() == s.leases.len(),
        forall|i: int|
            0 <= i < s.leases.len() ==> (#[trigger] b.leases[i]).id == s.leases[i].id && (
            b.leases[i].id == id ==> (b.leases[i].grantee.status == LeaseStatus::Active
                ==> s.leases[i].grantee.status == LeaseStatus::Active) && (guards
                && b.leases[i].grantor.status == LeaseStatus::Active ==> s.leases[i].grantor.status
                == LeaseStatus::Active)),
    ensures
        down(b, id, guards),
{
    crate::moves::lemma_live_ordered(s.queue);
    lemma_still_down(s, b, Timed { at: 0, item: Scheduled::WriteTick }, id, guards);
}

/// A party acts on a lease message that does not bring the lease up.
proof fn lemma_receive_down(
    s: Sim,
    from: NodeId,
    to: NodeId,
    kind: MsgKind,
    tag: usize,
    id: LeaseId,
    guards: bool,
)
    requires
        s.ok(),
        sized(s),
        cut_off(s.cfg, id, guards),
        down(s, id, guards),
        message_ok(s.cfg, from, to, kind, tag),
        !kind.is_write_path(),
        s.leases[tag as int].id == id ==> kind != MsgKind::Renew,
        s.leases[tag as int].id == id && guards ==> kind != MsgKind::Guard && kind
            != MsgKind::GuardReply,
    ensures
        down(s.receive(from, to, kind, tag), id, guards),
{
    let j = tag;
    lemma_parties(s, j as int);
    let l = s.leases[j as int];
    match kind {
        MsgKind::Guard => {
            reveal(Sim::on_guard);
            let g = GranteeState {
                guard_deadline: (s.local(l.id.grantee) + s.params().guard_len()) as Time,
                status: LeaseStatus::Guarding,
                ..l.grantee
            };
            lemma_with_grantee(s, j as int, g);
            let s1 = s.with_grantee(j as int, g);
            lemma_with_down(s, s1, id, guards);
            let ev = EventKind::GranteeLease { lease: l.id, status: LeaseStatus::Guarding };
            lemma_emit_down(s1, ev, id, guards);
            lemma_reply_down(
                s1.emit(ev),
                l.id.grantee,
                l.id.grantor,
                MsgKind::GuardReply,
                j,
                id,
                guards,
            );
        },
        MsgKind::GuardReply => {
            reveal(Sim::on_guard_reply);
            if l.grantor.status == LeaseStatus::Guarding {
                let d = s.local(l.id.grantor) as Time;
                let g = GrantorState {
                    status: LeaseStatus::Active,
                    last_reply: d,
                    next_renew_due: d,
                    ..l.grantor
                };
                lemma_with_grantor(s, j as int, g);
                let s1 = s.with_grantor(j as int, g);
                lemma_with_down(s, s1, id, guards);
                let ev = EventKind::GrantorLease { lease: l.id, status: LeaseStatus::Active };
                lemma_emit_down(s1, ev, id, guards);
                lemma_renew_down(s1.emit(ev), j, id, guards);
            }
        },
        MsgKind::Renew => {
            reveal(Sim::on_renew);
            let g = GranteeState {
                hold_expiry: (s.local(l.id.grantee) + s.params().hold_len()) as Time,
                status: LeaseStatus::Active,
                ..l.grantee
            };
            lemma_with_grantee(s, j as int, g);
            let s1 = s.with_grantee(j as int, g);
            lemma_with_down(s, s1, id, guards);
            let ev = EventKind::GranteeLease { lease: l.id, status: LeaseStatus::Active };
            lemma_emit_down(s1, ev, id, guards);
            let s2 = if l.grantee.status != LeaseStatus::Active {
                s1.emit(ev)
            } else {
                s1
            };
            lemma_reply_down(s2, l.id.grantee, l.id.grantor, MsgKind::RenewReply, j, id, guards);
        },
        MsgKind::RenewReply => {
            crate::upkeep::lemma_on_renew_reply(s, j);
            reveal(Sim::on_renew_reply);
            lemma_with_down(s, s.on_renew_reply(j), id, guards);
        },
        MsgKind::Revoke => {
            reveal(Sim::on_revoke);
            let g = GranteeState {
                status: LeaseStatus::Expired,
                hold_expiry: s.local(l.id.grantee) as Time,
                ..l.grantee
            };
            lemma_with_grantee(s, j as int, g);
            let s1 = s.with_grantee(j as int, g);
            lemma_with_down(s, s1, id, guards);
            let ev = EventKind::GranteeLease { lease: l.id, status: LeaseStatus::Expired };
            lemma_emit_down(s1, ev, id, guards);
            let s2 = if l.holding() {
                s1.emit(ev)
            } else {
                s
            };
            lemma_reply_down(s2, l.id.grantee, l.id.grantor, MsgKind::RevokeReply, j, id, guards);
        },
        _ => {
            reveal(Sim::on_revoke_reply);
            let g = GrantorState { status: LeaseStatus::Expired, intended: false, ..l.grantor };
            lemma_with_grantor(s, j as int, g);
            let s1 = s.with_grantor(j as int, g);
            lemma_with_down(s, s1, id, guards);
            lemma_emit_down(
                s1,
                EventKind::GrantorLease { lease: l.id, status: LeaseStatus::Expired },
                id,
                guards,
            );
        },
    }
}

proof fn lemma_step_down(s: Sim, id: LeaseId, guards: bool)
    requires
        s.ok(),
        sized(s),
        s.queue.len() > 0,
        s.queue[0].at <= s.cfg.duration,
        cut_off(s.cfg, id, guards),
        down(s, id, guards),
    ensures
        down(s.step(), id, guards),
{
    lemma_popped(s);
    lemma_popped_down(s, id, guards);
    lemma_down_kept(s.cfg, id, guards);
    let p = s.popped();
    let prop = down_in(s.cfg, id, guards);
    assert(prop(p));
    match s.queue[0].item {
        Scheduled::Poll { node } => {
            keep_poll(prop, true, p, node);
            assert(prop(p.poll(node)));
        },
        Scheduled::WriteTick => {
            keep_write_tick(prop, true, p);
            assert(prop(p.write_tick()));
        },
        Scheduled::Command(cmd) => {
            if let Command::Revoke(rid) = cmd {
                reveal(Sim::apply);
                lemma_lease_position(p.leases, rid, 0);
                if p.declared(rid) {
                    let j = p.lease_index(rid) as usize;
                    reveal(Sim::begin_revoke);
                    lemma_parties(p, j as int);
                    let l = p.leases[j as int];
                    let g = GrantorState { intended: false, ..l.grantor };
                    lemma_with_grantor(p, j as int, g);
                    let s1 = p.with_grantor(j as int, g);
                    lemma_with_down(p, s1, id, guards);
                    lemma_send_down(
                        s1,
                        l.id.grantor,
                        l.id.grantee,
                        MsgKind::Revoke,
                        j,
                        id,
                        guards,
                    );
                }
            } else {
                keep_apply(prop, true, p, cmd);
                assert(prop(p.apply(cmd)));
            }
        },
        Scheduled::Send { from, to, kind, tag } => {
            lemma_send_down(p, from, to, kind, tag, id, guards);
        },
        Scheduled::Arrival { from, to, kind, tag, fate } => {
            reveal(Sim::arrive);
            lemma_emit_down(p, EventKind::MessageDropped { from, to, kind }, id, guards);
            let ev = EventKind::MessageDelivered { from, to, kind };
            lemma_emit_down(p, ev, id, guards);
            let q = p.emit(ev);
            if fate == MsgFate::Delivered {
                if kind.is_write_path() {
                    assert(prop(q));
                    keep_receive_write(prop, true, q, from, to, kind, tag);
                    assert(prop(q.receive(from, to, kind, tag)));
                } else {
                    lemma_receive_down(q, from, to, kind, tag, id, guards);
                }
            }
        },
    }
}

// ---- Laws -----------------------------------------------------------------

/// Every lease is down at the start of a run.
pub proof fn law_down_at_start(
    cfg: Config,
    normal: spec_fn(NormalDraw) -> Time,
    id: LeaseId,
    guards: bool,
)
    requires
        cfg.valid(),
        crate::upkeep::normal_ok(normal),
        sized(Sim::blank(cfg, normal)),
    ensures
        down(Sim::initial(cfg, normal), id, guards),
{
    crate::progress::lemma_initial(cfg, normal);
    crate::moves::lemma_initial_live(cfg, normal);
    let q = live(Sim::initial(cfg, normal).queue);
    assert forall|k: int| 0 <= k < q.len() implies (#[trigger] q[k]).item is Command by {
        assert(scripted_revoke(cfg, q[k]));
    }
}

/// A lease whose renews are all lost (on a partitioned link, say) is never held;
/// one whose guards are all lost is never even granted. Neither is ever reported
/// active.
pub proof fn law_cut_off_lease_stays_down(s: Sim, id: LeaseId, guards: bool, t: int, n: nat)
    requires
        s.ok(),
        sized(s),
        t <= s.cfg.duration,
        cut_off(s.cfg, id, guards),
        down(s, id, guards),
    ensures
        down(s.steps(t, n), id, guards),
    decreases n,
{
    if n > 0 {
        law_cut_off_lease_stays_down(s, id, guards, t, (n - 1) as nat);
        let before = s.steps(t, (n - 1) as nat);
        lemma_steps_next(s, t, (n - 1) as nat);
        lemma_steps_ok(s, t, (n - 1) as nat);
        if !before.settled(t) {
            lemma_step_down(before, id, guards);
        }
    }
}

} // verus!
