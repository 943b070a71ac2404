//! The renew exchange of a lease: a renew, the grantee's deferred answer, and
//! the answer's way back. A grantor that never revokes keeps at most one such
//! exchange under way, and that is enough to make its promise safe.

use crate::clock::{law_perfect_clock_is_identity, law_reading_monotone, two_pow, Time};
use crate::dist::{lemma_drawn_bounds, NormalDraw};
use crate::event::{Command, EventKind, LeaseStatus, MsgFate, MsgKind, NodeId};
use crate::moves::{
    concerns_lease, is_guard, is_quiet, is_renewal, is_retreat, is_write_move, keep_apply,
    keep_poll, keep_receive_write, keep_write_tick, kept_by_moves, lemma_enqueue_entry,
    lemma_live_drop_first, lemma_live_enqueue, lemma_live_entry, lemma_reply_live, lemma_send_live,
    live, moves, scripted_revoke,
};
use crate::progress::{
    lemma_advanced, lemma_run_is, lemma_settles, lemma_steps_next, lemma_steps_ok, sized,
};
use crate::rng::RngState;
use crate::rounding::HALF_UNIT;
use crate::safety::{
    clocks_agree, conditions, covered, delay_at_most, grantee_clock, grantee_time, grantor_clock,
    grantor_time, is_renew, law_covered_at_start, law_covered_expiries_are_ordered,
    law_drift_within_budget_agrees, law_same_rate_clocks_agree, outlasts, lemma_arrival_within,
    lemma_begin_guard_effect, lemma_send_renew_effect, lemma_step_covered, undercuts,
};
use crate::scenario::{default_link, default_node, Config, LeaseParams};
use crate::sim::{max_of, GranteeState, GrantorState, Sim};
use crate::timeline::{enqueue, in_time_order, lemma_enqueue, slot, Scheduled, Timed};
use crate::upkeep::{
    lemma_arrival, lemma_emit, lemma_lease_position, lemma_parties, lemma_popped, lemma_reply,
    lemma_send, lemma_with_grantee, lemma_with_grantor, message_ok,
};
use vstd::prelude::*;

verus! {

/// The entry is part of a renew exchange of lease `i`.
pub open spec fn in_exchange(e: Timed, i: int) -> bool {
    match e.item {
        Scheduled::Send { kind, tag, .. } => kind == MsgKind::RenewReply && tag == i,
        Scheduled::Arrival { kind, tag, fate, .. } => (kind == MsgKind::Renew || kind
            == MsgKind::RenewReply) && tag == i && fate == MsgFate::Delivered,
        _ => false,
    }
}

/// The entry is part of a revocation of lease `i`.
pub open spec fn in_revocation(cfg: Config, e: Timed, i: int) -> bool {
    match e.item {
        Scheduled::Send { kind, tag, .. } => kind == MsgKind::RevokeReply && tag == i,
        Scheduled::Arrival { kind, tag, .. } => (kind == MsgKind::Revoke || kind
            == MsgKind::RevokeReply) && tag == i,
        Scheduled::Command(cmd) => cmd == Command::Revoke(cfg.leases[i]),
        _ => false,
    }
}

/// When the exchange that the entry is part of is over at the latest: the
/// grantee answers within `r` ticks, and the answer takes at most `w`.
pub open spec fn latest_end(e: Timed, r: int, w: int) -> int {
    match e.item {
        Scheduled::Arrival { kind, .. } => if kind == MsgKind::Renew {
            e.at + r + w
        } else {
            e.at as int
        },
        _ => e.at + w,
    }
}

/// At most one renew exchange of lease `i` is under way; while one is, the
/// grantor is active, awaits the reply, and its promise lasts beyond the end of
/// the exchange. No revocation of the lease is under way or due.
pub open spec fn orderly(s: Sim, i: int, r: int, w: int) -> bool {
    let q = live(s.queue);
    let g = s.leases[i].grantor;
    &&& !g.reguard_on_thaw
    &&& forall|j: int, k: int|
        0 <= j < q.len() && 0 <= k < q.len() && in_exchange(#[trigger] q[j], i) && in_exchange(
            #[trigger] q[k],
            i,
        ) ==> j == k
    &&& forall|k: int|
        0 <= k < q.len() && in_exchange(#[trigger] q[k], i) ==> g.status == LeaseStatus::Active
            && g.awaiting_reply && grantor_clock(s.cfg, i, latest_end(q[k], r, w)) <= g.grant_expiry
    &&& forall|k: int| 0 <= k < q.len() ==> !in_revocation(s.cfg, #[trigger] q[k], i)
}

/// Writes are not disruptive, and a renew exchange of lease `i` is over within
/// `m + r + w` ticks, during which the grantor's clock advances at most the
/// grant span.
pub open spec fn exchanges_are_short(
    cfg: Config,
    normal: spec_fn(NormalDraw) -> Time,
    i: int,
    m: int,
    r: int,
    w: int,
) -> bool {
    &&& !cfg.write_disruptive
    &&& 0 <= r
    &&& delay_at_most(cfg, normal, cfg.leases[i].grantee, cfg.leases[i].grantor, w)
    &&& forall|rng: RngState|
        (#[trigger] cfg.nodes[cfg.leases[i].grantee as int].response_delay.drawn(rng, normal)) <= r
    &&& forall|t: int|
        0 <= t <= cfg.duration ==> grantor_clock(cfg, i, t + m + r + w) <= #[trigger] grantor_clock(
            cfg,
            i,
            t,
        ) + cfg.params.grant_len()
}

/// What the order of exchanges rests on.
pub open spec fn regular(
    cfg: Config,
    normal: spec_fn(NormalDraw) -> Time,
    i: int,
    m: int,
    r: int,
    w: int,
) -> bool {
    &&& conditions(cfg, normal, i, m)
    &&& exchanges_are_short(cfg, normal, i, m, r, w)
}

/// No exchange of lease `i` is under way.
pub open spec fn at_rest(s: Sim, i: int) -> bool {
    forall|k: int| 0 <= k < live(s.queue).len() ==> !in_exchange(#[trigger] live(s.queue)[k], i)
}

/// The grantor's clock does not run backwards.
proof fn lemma_grantor_clock_monotone(cfg: Config, i: int, a: int, b: int)
    requires
        cfg.nodes[cfg.leases[i].grantor as int].clock.drift.mantissa >= 0,
        a <= b,
    ensures
        grantor_clock(cfg, i, a) <= grantor_clock(cfg, i, b),
{
    law_reading_monotone(cfg.nodes[cfg.leases[i].grantor as int].clock, a, b);
}

/// An entry that is part of no exchange or revocation was added, and what the
/// order of exchanges is about did not change.
proof fn lemma_orderly_same(s: Sim, next: Sim, e: Timed, i: int, r: int, w: int)
    requires
        orderly(s, i, r, w),
        0 <= i < s.leases.len(),
        i < next.leases.len(),
        in_time_order(live(s.queue)),
        next.cfg == s.cfg,
        live(next.queue) == live(s.queue) || live(next.queue) == enqueue(live(s.queue), e),
        !in_exchange(e, i),
        !in_revocation(s.cfg, e, i),
        next.leases[i].grantor == s.leases[i].grantor || at_rest(s, i)
            && !next.leases[i].grantor.reguard_on_thaw,
    ensures
        orderly(next, i, r, w),
        at_rest(s, i) ==> at_rest(next, i),
{
    let (q, p) = (live(s.queue), live(next.queue));
    if p != q {
        lemma_enqueue(q, e);
        let z = slot(q, e.at);
        assert forall|k: int| 0 <= k < p.len() && k != z implies #[trigger] p[k] == q[if k < z {
            k
        } else {
            k - 1
        }] by {}
        assert(p[z] == e);
        assert forall|j: int, k: int|
            0 <= j < p.len() && 0 <= k < p.len() && in_exchange(#[trigger] p[j], i) && in_exchange(
                #[trigger] p[k],
                i,
            ) implies j == k by {
            let (a, b) = (
                if j < z {
                    j
                } else {
                    j - 1
                },
                if k < z {
                    k
                } else {
                    k - 1
                },
            );
            assert(p[j] == q[a] && p[k] == q[b]);
        }
        assert forall|k: int| 0 <= k < p.len() implies !in_revocation(s.cfg, #[trigger] p[k], i) by {
            if k != z {
                let b = if k < z {
                    k
                } else {
                    k - 1
                };
                assert(p[k] == q[b]);
            }
        }
        assert forall|k: int| 0 <= k < p.len() && in_exchange(#[trigger] p[k], i) implies ({
            let g = next.leases[i].grantor;
            g.status == LeaseStatus::Active && g.awaiting_reply && grantor_clock(
                s.cfg,
                i,
                latest_end(p[k], r, w),
            ) <= g.grant_expiry
        }) by {
            let b = if k < z {
                k
            } else {
                k - 1
            };
            assert(p[k] == q[b]);
        }
        if at_rest(s, i) {
            assert forall|k: int| 0 <= k < p.len() implies !in_exchange(#[trigger] p[k], i) by {
                if k != z {
                    let b = if k < z {
                        k
                    } else {
                        k - 1
                    };
                    assert(p[k] == q[b]);
                }
            }
        }
    }
}

/// An exchange begins or goes on: nothing of the lease was under way, and now
/// `e` is, at most.
proof fn lemma_orderly_one(s: Sim, next: Sim, e: Timed, i: int, r: int, w: int)
    requires
        orderly(s, i, r, w),
        at_rest(s, i),
        0 <= i < s.leases.len(),
        i < next.leases.len(),
        in_time_order(live(s.queue)),
        next.cfg == s.cfg,
        live(next.queue) == live(s.queue) || live(next.queue) == enqueue(live(s.queue), e),
        !in_revocation(s.cfg, e, i),
        !next.leases[i].grantor.reguard_on_thaw,
        next.leases[i].grantor.status == LeaseStatus::Active,
        next.leases[i].grantor.awaiting_reply,
        grantor_clock(s.cfg, i, latest_end(e, r, w)) <= next.leases[i].grantor.grant_expiry,
    ensures
        orderly(next, i, r, w),
{
    let (q, p) = (live(s.queue), live(next.queue));
    if p != q {
        lemma_enqueue(q, e);
        let z = slot(q, e.at);
        assert(p[z] == e);
        assert forall|k: int| 0 <= k < p.len() && k != z implies !in_exchange(#[trigger] p[k], i)
            && !in_revocation(s.cfg, p[k], i) by {
            let b = if k < z {
                k
            } else {
                k - 1
            };
            assert(p[k] == q[b]);
        }
    }
}

/// The property that the moves keep.
spec fn orderly_in(
    cfg: Config,
    normal: spec_fn(NormalDraw) -> Time,
    i: int,
    r: int,
    w: int,
) -> spec_fn(Sim) -> bool {
    |s: Sim| s.cfg == cfg && s.normal == normal && orderly(s, i, r, w)
}

/// While an exchange is under way, the promise has not run out.
proof fn lemma_exchange_is_promised(s: Sim, i: int, m: int, r: int, w: int)
    requires
        s.ok(),
        regular(s.cfg, s.normal, i, m, r, w),
        orderly(s, i, r, w),
        !at_rest(s, i),
    ensures
        s.leases[i].grantor.status == LeaseStatus::Active,
        s.leases[i].grantor.awaiting_reply,
        s.local(s.leases[i].id.grantor) <= s.leases[i].grantor.grant_expiry,
{
    lemma_parties(s, i);
    let q = live(s.queue);
    let k = choose|k: int| 0 <= k < q.len() && in_exchange(#[trigger] q[k], i);
    lemma_live_entry(s.queue, k);
    let j = choose|j: int| 0 <= j < s.queue.len() && s.queue[j] == q[k];
    assert(s.queue[j].at >= s.now);
    lemma_grantor_clock_monotone(s.cfg, i, s.now as int, latest_end(q[k], r, w));
}

/// A renew goes out at rest.
proof fn lemma_send_renew_orderly(s: Sim, i: int, m: int, r: int, w: int, j: usize)
    requires
        s.ok(),
        regular(s.cfg, s.normal, i, m, r, w),
        orderly(s, i, r, w),
        j < s.leases.len(),
        j == i ==> at_rest(s, i) && s.leases[i].grantor.status == LeaseStatus::Active,
    ensures
        orderly(s.send_renew(j), i, r, w),
{
    let b = s.send_renew(j);
    lemma_send_renew_effect(s, j);
    lemma_parties(s, j as int);
    let l = s.leases[j as int];
    let e = Timed {
        at: s.arrival_of(l.id.grantor, l.id.grantee) as Time,
        item: Scheduled::Arrival {
            from: l.id.grantor,
            to: l.id.grantee,
            kind: MsgKind::Renew,
            tag: j,
            fate: s.fate_of(l.id.grantor, l.id.grantee, MsgKind::Renew),
        },
    };
    if j == i {
        lemma_arrival_within(s, l.id.grantor, l.id.grantee, m);
        lemma_grantor_clock_monotone(s.cfg, i, latest_end(e, r, w), s.now + m + r + w);
        assert(grantor_clock(s.cfg, i, s.now + m + r + w) <= grantor_clock(s.cfg, i, s.now as int)
            + s.params().grant_len());
        lemma_orderly_one(s, b, e, i, r, w);
    } else {
        lemma_orderly_same(s, b, e, i, r, w);
    }
}

proof fn lemma_orderly_kept(
    cfg: Config,
    normal: spec_fn(NormalDraw) -> Time,
    i: int,
    m: int,
    r: int,
    w: int,
)
    requires
        regular(cfg, normal, i, m, r, w),
    ensures
        kept_by_moves(orderly_in(cfg, normal, i, r, w), true),
{
    let prop = orderly_in(cfg, normal, i, r, w);
    assert forall|a: Sim, b: Sim| a.ok() && b.ok() && prop(a) && #[trigger] moves(a, b, true) implies prop(
        b,
    ) by {
        if is_quiet(a, b) || is_write_move(a, b) {
        } else if is_retreat(a, b) {
            assert(b.leases[i].id == a.leases[i].id);
            if !at_rest(a, i) {
                lemma_exchange_is_promised(a, i, m, r, w);
            }
        } else if exists|j: usize| is_guard(a, b, j) {
            let j = choose|j: usize| is_guard(a, b, j);
            lemma_begin_guard_effect(a, j);
            let l = a.leases[j as int];
            let e = Timed {
                at: a.arrival_of(l.id.grantor, l.id.grantee) as Time,
                item: Scheduled::Arrival {
                    from: l.id.grantor,
                    to: l.id.grantee,
                    kind: MsgKind::Guard,
                    tag: j,
                    fate: a.fate_of(l.id.grantor, l.id.grantee, MsgKind::Guard),
                },
            };
            if j == i && !at_rest(a, i) {
                lemma_exchange_is_promised(a, i, m, r, w);
            }
            lemma_orderly_same(a, b, e, i, r, w);
        } else {
            let j = choose|j: usize| is_renewal(a, b, j);
            lemma_send_renew_effect(a, j);
            if j == i && !at_rest(a, i) {
                lemma_exchange_is_promised(a, i, m, r, w);
            }
            lemma_send_renew_orderly(a, i, m, r, w, j);
        }
    }
}

/// The first entry comes off the timeline. If it was part of an exchange, it was
/// the only one.
proof fn lemma_popped_orderly(s: Sim, i: int, r: int, w: int)
    requires
        s.ok(),
        s.queue.len() > 0,
        orderly(s, i, r, w),
    ensures
        orderly(s.popped(), i, r, w),
        in_exchange(s.queue[0], i) ==> at_rest(s.popped(), i) && s.leases[i].grantor.status
            == LeaseStatus::Active && s.leases[i].grantor.awaiting_reply && grantor_clock(
            s.cfg,
            i,
            latest_end(s.queue[0], r, w),
        ) <= s.leases[i].grantor.grant_expiry,
        concerns_lease(s.queue[0]) ==> !in_revocation(s.cfg, s.queue[0], i),
        in_time_order(live(s.popped().queue)),
{
    lemma_live_drop_first(s.queue);
    crate::moves::lemma_live_ordered(s.queue);
    let (q, p) = (live(s.queue), live(s.popped().queue));
    if concerns_lease(s.queue[0]) {
        assert(q[0] == s.queue[0]);
        assert forall|k: int| 0 <= k < p.len() implies #[trigger] p[k] == q[k + 1] by {}
        assert forall|j: int, k: int|
            0 <= j < p.len() && 0 <= k < p.len() && in_exchange(#[trigger] p[j], i) && in_exchange(
                #[trigger] p[k],
                i,
            ) implies j == k by {
            assert(p[j] == q[j + 1] && p[k] == q[k + 1]);
        }
        assert(in_time_order(p)) by {
            assert forall|j: int, k: int| 0 <= j <= k < p.len() implies p[j].at <= p[k].at by {
                assert(q[j + 1].at <= q[k + 1].at);
            }
        }
        if in_exchange(s.queue[0], i) {
            assert forall|k: int| 0 <= k < p.len() implies !in_exchange(#[trigger] p[k], i) by {
                assert(p[k] == q[k + 1]);
            }
        }
    } else {
        assert(p == q);
    }
}

proof fn lemma_emit_orderly(s: Sim, i: int, r: int, w: int, kind: EventKind)
    requires
        s.ok(),
        orderly(s, i, r, w),
    ensures
        s.emit(kind).ok(),
        orderly(s.emit(kind), i, r, w),
        at_rest(s, i) ==> at_rest(s.emit(kind), i),
{
    lemma_emit(s, kind);
}

/// A reply that is no renew reply of the lease is deferred.
proof fn lemma_reply_orderly(
    s: Sim,
    i: int,
    r: int,
    w: int,
    from: NodeId,
    to: NodeId,
    kind: MsgKind,
    tag: usize,
)
    requires
        s.ok(),
        0 <= i < s.leases.len(),
        orderly(s, i, r, w),
        kind.is_reply(),
        message_ok(s.cfg, from, to, kind, tag),
        tag == i ==> kind != MsgKind::RenewReply && kind != MsgKind::RevokeReply,
    ensures
        orderly(s.reply_after_delay(from, to, kind, tag), i, r, w),
{
    lemma_reply(s, from, to, kind, tag);
    lemma_reply_live(s, from, to, kind, tag);
    let think = s.cfg.nodes[from as int].response_delay;
    let e = Timed {
        at: (s.now + think.drawn(s.rng, s.normal)) as Time,
        item: Scheduled::Send { from, to, kind, tag },
    };
    lemma_orderly_same(s, s.reply_after_delay(from, to, kind, tag), e, i, r, w);
}

/// A message that is no part of an exchange or a revocation of the lease is
/// sent.
proof fn lemma_send_orderly(
    s: Sim,
    i: int,
    r: int,
    w: int,
    from: NodeId,
    to: NodeId,
    kind: MsgKind,
    tag: usize,
)
    requires
        s.ok(),
        0 <= i < s.leases.len(),
        orderly(s, i, r, w),
        message_ok(s.cfg, from, to, kind, tag),
        tag == i ==> kind != MsgKind::Renew && kind != MsgKind::RenewReply && kind
            != MsgKind::Revoke && kind != MsgKind::RevokeReply,
    ensures
        orderly(s.send(from, to, kind, tag), i, r, w),
{
    lemma_send(s, from, to, kind, tag);
    lemma_send_live(s, from, to, kind, tag);
    let e = Timed {
        at: s.arrival_of(from, to) as Time,
        item: Scheduled::Arrival { from, to, kind, tag, fate: s.fate_of(from, to, kind) },
    };
    lemma_orderly_same(s, s.send(from, to, kind, tag), e, i, r, w);
}

/// A deferred reply goes out.
proof fn lemma_try_send_orderly(
    s: Sim,
    i: int,
    m: int,
    r: int,
    w: int,
    from: NodeId,
    to: NodeId,
    kind: MsgKind,
    tag: usize,
)
    requires
        s.ok(),
        s.queue.len() > 0,
        s.queue[0].at <= s.cfg.duration,
        regular(s.cfg, s.normal, i, m, r, w),
        orderly(s, i, r, w),
        s.queue[0].item == (Scheduled::Send { from, to, kind, tag }),
    ensures
        orderly(s.step(), i, r, w),
{
    lemma_popped(s);
    lemma_popped_orderly(s, i, r, w);
    let p = s.popped();
    if tag == i && kind == MsgKind::RenewReply {
        lemma_send(p, from, to, kind, tag);
        lemma_send_live(p, from, to, kind, tag);
        let e = Timed {
            at: p.arrival_of(from, to) as Time,
            item: Scheduled::Arrival { from, to, kind, tag, fate: p.fate_of(from, to, kind) },
        };
        lemma_arrival(p, from, to);
        lemma_arrival_within(p, from, to, w);
        lemma_grantor_clock_monotone(s.cfg, i, e.at as int, s.queue[0].at + w);
        lemma_orderly_one(p, p.send(from, to, kind, tag), e, i, r, w);
    } else {
        lemma_send_orderly(p, i, r, w, from, to, kind, tag);
    }
}

proof fn lemma_on_guard_orderly(s: Sim, i: int, r: int, w: int, j: usize)
    requires
        s.ok(),
        0 <= i < s.leases.len(),
        orderly(s, i, r, w),
        j < s.leases.len(),
    ensures
        orderly(s.on_guard(j), i, r, w),
{
    reveal(Sim::on_guard);
    lemma_parties(s, j as int);
    let l = s.leases[j as int];
    let g = GranteeState {
        guard_deadline: (s.local(l.id.grantee) + s.params().guard_len()) as Time,
        status: LeaseStatus::Guarding,
        ..l.grantee
    };
    lemma_with_grantee(s, j as int, g);
    let s1 = s.with_grantee(j as int, g);
    assert(orderly(s1, i, r, w));
    let ev = EventKind::GranteeLease { lease: l.id, status: LeaseStatus::Guarding };
    lemma_emit_orderly(s1, i, r, w, ev);
    lemma_reply_orderly(s1.emit(ev), i, r, w, l.id.grantee, l.id.grantor, MsgKind::GuardReply, j);
}

proof fn lemma_on_guard_reply_orderly(s: Sim, i: int, m: int, r: int, w: int, j: usize)
    requires
        s.ok(),
        regular(s.cfg, s.normal, i, m, r, w),
        orderly(s, i, r, w),
        j < s.leases.len(),
    ensures
        orderly(s.on_guard_reply(j), i, r, w),
{
    reveal(Sim::on_guard_reply);
    lemma_parties(s, j as int);
    let l = s.leases[j as int];
    if l.grantor.status == LeaseStatus::Guarding {
        let d = s.local(l.id.grantor) as Time;
        let g = GrantorState {
            status: LeaseStatus::Active,
            last_reply: d,
            next_renew_due: d,
            ..l.grantor
        };
        lemma_with_grantor(s, j as int, g);
        let s1 = s.with_grantor(j as int, g);
        if j == i && !at_rest(s, i) {
            lemma_exchange_is_promised(s, i, m, r, w);
        }
        assert(orderly(s1, i, r, w));
        let ev = EventKind::GrantorLease { lease: l.id, status: LeaseStatus::Active };
        lemma_emit_orderly(s1, i, r, w, ev);
        assert(j == i ==> at_rest(s1.emit(ev), i));
        lemma_send_renew_orderly(s1.emit(ev), i, m, r, w, j);
    }
}

/// The grantee receives a renew. If it is one of lease `i`, the exchange goes on
/// with the deferred answer.
proof fn lemma_on_renew_orderly(s: Sim, i: int, m: int, r: int, w: int, j: usize)
    requires
        s.ok(),
        regular(s.cfg, s.normal, i, m, r, w),
        orderly(s, i, r, w),
        j < s.leases.len(),
        j == i ==> at_rest(s, i) && s.leases[i].grantor.status == LeaseStatus::Active
            && s.leases[i].grantor.awaiting_reply && grantor_clock(s.cfg, i, s.now + r + w)
            <= s.leases[i].grantor.grant_expiry,
    ensures
        orderly(s.on_renew(j), i, r, w),
{
    reveal(Sim::on_renew);
    lemma_parties(s, j as int);
    let l = s.leases[j as int];
    if s.accepts_renew(j as int) {
        let g = GranteeState {
            hold_expiry: (s.local(l.id.grantee) + s.params().hold_len()) as Time,
            status: LeaseStatus::Active,
            ..l.grantee
        };
        lemma_with_grantee(s, j as int, g);
        let s1 = s.with_grantee(j as int, g);
        assert(orderly(s1, i, r, w));
        let ev = EventKind::GranteeLease { lease: l.id, status: LeaseStatus::Active };
        lemma_emit_orderly(s1, i, r, w, ev);
        let s2 = if l.grantee.status != LeaseStatus::Active {
            s1.emit(ev)
        } else {
            s1
        };
        if j == i {
            assert(at_rest(s2, i));
            lemma_reply(s2, l.id.grantee, l.id.grantor, MsgKind::RenewReply, j);
            lemma_reply_live(s2, l.id.grantee, l.id.grantor, MsgKind::RenewReply, j);
            let think = s.cfg.nodes[l.id.grantee as int].response_delay;
            let e = Timed {
                at: (s2.now + think.drawn(s2.rng, s2.normal)) as Time,
                item: Scheduled::Send {
                    from: l.id.grantee,
                    to: l.id.grantor,
                    kind: MsgKind::RenewReply,
                    tag: j,
                },
            };
            lemma_grantor_clock_monotone(s.cfg, i, latest_end(e, r, w), s.now + r + w);
            lemma_orderly_one(
                s2,
                s2.reply_after_delay(l.id.grantee, l.id.grantor, MsgKind::RenewReply, j),
                e,
                i,
                r,
                w,
            );
        } else {
            lemma_reply_orderly(s2, i, r, w, l.id.grantee, l.id.grantor, MsgKind::RenewReply, j);
        }
    }
}

proof fn lemma_on_renew_reply_orderly(s: Sim, i: int, r: int, w: int, j: usize)
    requires
        s.ok(),
        0 <= i < s.leases.len(),
        orderly(s, i, r, w),
        j < s.leases.len(),
        j == i ==> at_rest(s, i),
    ensures
        orderly(s.on_renew_reply(j), i, r, w),
{
    reveal(Sim::on_renew_reply);
    let b = s.on_renew_reply(j);
    assert(live(b.queue) == live(s.queue));
    if j != i {
        assert(b.leases[i] == s.leases[i]);
    }
}

proof fn lemma_on_revoke_orderly(s: Sim, i: int, r: int, w: int, j: usize)
    requires
        s.ok(),
        0 <= i < s.leases.len(),
        orderly(s, i, r, w),
        j < s.leases.len(),
        j != i,
    ensures
        orderly(s.on_revoke(j), i, r, w),
{
    reveal(Sim::on_revoke);
    lemma_parties(s, j as int);
    let l = s.leases[j as int];
    let g = GranteeState {
        status: LeaseStatus::Expired,
        hold_expiry: s.local(l.id.grantee) as Time,
        ..l.grantee
    };
    lemma_with_grantee(s, j as int, g);
    let s1 = s.with_grantee(j as int, g);
    assert(orderly(s1, i, r, w));
    let ev = EventKind::GranteeLease { lease: l.id, status: LeaseStatus::Expired };
    lemma_emit_orderly(s1, i, r, w, ev);
    let s2 = if l.holding() {
        s1.emit(ev)
    } else {
        s
    };
    lemma_reply_orderly(s2, i, r, w, l.id.grantee, l.id.grantor, MsgKind::RevokeReply, j);
}

proof fn lemma_on_revoke_reply_orderly(s: Sim, i: int, r: int, w: int, j: usize)
    requires
        s.ok(),
        0 <= i < s.leases.len(),
        orderly(s, i, r, w),
        j < s.leases.len(),
        j != i,
    ensures
        orderly(s.on_revoke_reply(j), i, r, w),
{
    reveal(Sim::on_revoke_reply);
    let b = s.on_revoke_reply(j);
    assert(b.leases[i] == s.leases[i]);
    assert(live(b.queue) == live(s.queue));
}

proof fn lemma_begin_revoke_orderly(s: Sim, i: int, r: int, w: int, j: usize)
    requires
        s.ok(),
        0 <= i < s.leases.len(),
        orderly(s, i, r, w),
        j < s.leases.len(),
        j != i,
    ensures
        orderly(s.begin_revoke(j), i, r, w),
{
    reveal(Sim::begin_revoke);
    lemma_parties(s, j as int);
    let l = s.leases[j as int];
    let g = GrantorState { intended: false, ..l.grantor };
    lemma_with_grantor(s, j as int, g);
    let s1 = s.with_grantor(j as int, g);
    assert(orderly(s1, i, r, w));
    lemma_send_orderly(s1, i, r, w, l.id.grantor, l.id.grantee, MsgKind::Revoke, j);
}

/// A party acts on a lease message.
proof fn lemma_receive_orderly(
    s: Sim,
    i: int,
    m: int,
    r: int,
    w: int,
    from: NodeId,
    to: NodeId,
    kind: MsgKind,
    tag: usize,
)
    requires
        s.ok(),
        s.queue.len() > 0,
        s.queue[0].at <= s.cfg.duration,
        s.queue[0].item == (Scheduled::Arrival { from, to, kind, tag, fate: MsgFate::Delivered }),
        !kind.is_write_path(),
        regular(s.cfg, s.normal, i, m, r, w),
        orderly(s, i, r, w),
    ensures
        orderly(
            s.popped().emit(EventKind::MessageDelivered { from, to, kind }).receive(
                from,
                to,
                kind,
                tag,
            ),
            i,
            r,
            w,
        ),
{
    lemma_popped(s);
    lemma_popped_orderly(s, i, r, w);
    let p = s.popped();
    let ev = EventKind::MessageDelivered { from, to, kind };
    lemma_emit_orderly(p, i, r, w, ev);
    let q = p.emit(ev);
    match kind {
        MsgKind::Guard => lemma_on_guard_orderly(q, i, r, w, tag),
        MsgKind::GuardReply => lemma_on_guard_reply_orderly(q, i, m, r, w, tag),
        MsgKind::Renew => lemma_on_renew_orderly(q, i, m, r, w, tag),
        MsgKind::RenewReply => lemma_on_renew_reply_orderly(q, i, r, w, tag),
        MsgKind::Revoke => lemma_on_revoke_orderly(q, i, r, w, tag),
        _ => lemma_on_revoke_reply_orderly(q, i, r, w, tag),
    }
}

/// One step keeps the order of exchanges.
pub proof fn lemma_step_orderly(s: Sim, i: int, m: int, r: int, w: int)
    requires
        s.ok(),
        sized(s),
        s.queue.len() > 0,
        s.queue[0].at <= s.cfg.duration,
        regular(s.cfg, s.normal, i, m, r, w),
        orderly(s, i, r, w),
    ensures
        orderly(s.step(), i, r, w),
{
    lemma_popped(s);
    lemma_popped_orderly(s, i, r, w);
    lemma_orderly_kept(s.cfg, s.normal, i, m, r, w);
    let p = s.popped();
    let prop = orderly_in(s.cfg, s.normal, i, r, w);
    assert(prop(p));
    match s.queue[0].item {
        Scheduled::Poll { node } => {
            keep_poll(prop, true, p, node);
            assert(prop(p.poll(node)));
        },
        Scheduled::WriteTick => {
            keep_write_tick(prop, true, p);
            assert(prop(p.write_tick()));
        },
        Scheduled::Command(cmd) => {
            if let Command::Revoke(id) = cmd {
                reveal(Sim::apply);
                lemma_lease_position(p.leases, id, 0);
                lemma_parties(p, i);
                if p.declared(id) {
                    lemma_begin_revoke_orderly(p, i, r, w, p.lease_index(id) as usize);
                }
            } else {
                keep_apply(prop, true, p, cmd);
                assert(prop(p.apply(cmd)));
            }
        },
        Scheduled::Send { from, to, kind, tag } => {
            lemma_try_send_orderly(s, i, m, r, w, from, to, kind, tag);
        },
        Scheduled::Arrival { from, to, kind, tag, fate } => {
            reveal(Sim::arrive);
            lemma_emit_orderly(p, i, r, w, EventKind::MessageDropped { from, to, kind });
            let ev = EventKind::MessageDelivered { from, to, kind };
            lemma_emit_orderly(p, i, r, w, ev);
            let q = p.emit(ev);
            if fate == MsgFate::Delivered && p.nodes[to as int].up {
                if kind.is_write_path() {
                    keep_receive_write(prop, true, q, from, to, kind, tag);
                    assert(prop(q.receive(from, to, kind, tag)));
                } else {
                    lemma_receive_orderly(s, i, m, r, w, from, to, kind, tag);
                }
            }
        },
    }
}

// ---- Laws -----------------------------------------------------------------

/// A run whose script does not revoke the lease starts in order.
pub proof fn law_orderly_at_start(
    cfg: Config,
    normal: spec_fn(NormalDraw) -> Time,
    i: int,
    r: int,
    w: int,
)
    requires
        cfg.valid(),
        crate::upkeep::normal_ok(normal),
        sized(Sim::blank(cfg, normal)),
        0 <= i < cfg.leases.len(),
        forall|k: int|
            0 <= k < cfg.commands.len() ==> (#[trigger] cfg.commands[k]).1 != Command::Revoke(
                cfg.leases[i],
            ),
    ensures
        orderly(Sim::initial(cfg, normal), i, r, w),
{
    crate::progress::lemma_initial(cfg, normal);
    crate::moves::lemma_initial_live(cfg, normal);
    let q = live(Sim::initial(cfg, normal).queue);
    assert forall|k: int| 0 <= k < q.len() implies !in_revocation(cfg, #[trigger] q[k], i) by {
        assert(scripted_revoke(cfg, q[k]));
    }
}

/// One renew in flight: as long as a lease is not revoked, its grantor has at
/// most one renew exchange under way at any time of a run.
pub proof fn law_one_exchange_at_a_time(s: Sim, i: int, m: int, r: int, w: int, t: int, n: nat)
    requires
        s.ok(),
        sized(s),
        t <= s.cfg.duration,
        regular(s.cfg, s.normal, i, m, r, w),
        orderly(s, i, r, w),
    ensures
        orderly(s.steps(t, n), i, r, w),
    decreases n,
{
    if n > 0 {
        law_one_exchange_at_a_time(s, i, m, r, w, t, (n - 1) as nat);
        let before = s.steps(t, (n - 1) as nat);
        lemma_steps_next(s, t, (n - 1) as nat);
        lemma_steps_ok(s, t, (n - 1) as nat);
        if !before.settled(t) {
            lemma_step_orderly(before, i, m, r, w);
        }
    }
}

/// Nothing undercuts the promise of an orderly lease.
pub proof fn law_orderly_lease_is_not_undercut(s: Sim, i: int, r: int, w: int)
    requires
        s.ok(),
        0 <= i < s.leases.len(),
        orderly(s, i, r, w),
    ensures
        !undercuts(s, i),
{
    if undercuts(s, i) {
        let q = live(s.queue);
        lemma_live_drop_first(s.queue);
        assert(q[0] == s.queue[0]);
        let k = choose|k: int| 0 <= k < q.len() && is_renew(#[trigger] q[k], i);
        assert(in_exchange(q[0], i) && in_exchange(q[k], i));
    }
}

/// Safety without reservation: where no one revokes the lease, writes are not
/// disruptive, and exchanges are over before the promise is, the grantor's
/// promise covers the grantee's hold in every state of a run.
pub proof fn law_regular_lease_is_safe(s: Sim, i: int, m: int, r: int, w: int, t: int, n: nat)
    requires
        s.ok(),
        sized(s),
        t <= s.cfg.duration,
        regular(s.cfg, s.normal, i, m, r, w),
        orderly(s, i, r, w),
        covered(s, i),
    ensures
        covered(s.steps(t, n), i),
        orderly(s.steps(t, n), i, r, w),
    decreases n,
{
    law_one_exchange_at_a_time(s, i, m, r, w, t, n);
    if n > 0 {
        law_regular_lease_is_safe(s, i, m, r, w, t, (n - 1) as nat);
        let before = s.steps(t, (n - 1) as nat);
        lemma_steps_next(s, t, (n - 1) as nat);
        lemma_steps_ok(s, t, (n - 1) as nat);
        if !before.settled(t) {
            law_orderly_lease_is_not_undercut(before, i, r, w);
            lemma_step_covered(before, i, m);
        }
    }
}

/// The same between two calls of an engine: advancing keeps a regular lease safe.
pub proof fn law_advancing_keeps_lease_safe(s: Sim, i: int, m: int, r: int, w: int, t: int)
    requires
        s.ok(),
        sized(s),
        regular(s.cfg, s.normal, i, m, r, w),
        orderly(s, i, r, w),
        covered(s, i),
    ensures
        covered(s.advanced(t).taken(), i),
        orderly(s.advanced(t).taken(), i, r, w),
{
    let target = s.target(t);
    let n = lemma_settles(s, target);
    lemma_run_is(s, target, n);
    law_regular_lease_is_safe(s, i, m, r, w, target, n);
    lemma_advanced(s, t);
    let (a, b) = (s.run(target), s.advanced(t).taken());
    lemma_steps_ok(s, target, n);
    law_reading_monotone(
        s.cfg.nodes[s.cfg.leases[i].grantee as int].clock,
        a.now as int,
        b.now as int,
    );
}

/// A command that does not revoke the lease keeps it safe.
pub proof fn law_commands_keep_lease_safe(s: Sim, i: int, r: int, w: int, at: Time, cmd: Command)
    requires
        s.ok(),
        crate::scenario::command_valid(cmd, s.nodes.len()),
        0 <= i < s.leases.len(),
        orderly(s, i, r, w),
        covered(s, i),
        cmd != Command::Revoke(s.cfg.leases[i]),
    ensures
        covered(s.schedule(at as int, Scheduled::Command(cmd)), i),
        orderly(s.schedule(at as int, Scheduled::Command(cmd)), i, r, w),
{
    let b = s.schedule(at as int, Scheduled::Command(cmd));
    let e = Timed {
        at: max_of(at as int, s.now as int) as Time,
        item: Scheduled::Command(cmd),
    };
    lemma_live_enqueue(s.queue, e);
    lemma_orderly_same(s, b, e, i, r, w);
    assert forall|k: int|
        0 <= k < live(b.queue).len() && is_renew(#[trigger] live(b.queue)[k], i) implies outlasts(
        s.cfg,
        i,
        s.leases[i].grantor.grant_expiry as int,
        grantee_clock(s.cfg, i, live(b.queue)[k].at as int) + s.cfg.params.hold_len(),
    ) by {
        if live(b.queue) != live(s.queue) {
            lemma_enqueue_entry(live(s.queue), e, k);
            let j = choose|j: int|
                0 <= j < live(s.queue).len() && #[trigger] live(s.queue)[j] == live(b.queue)[k];
            assert(is_renew(live(s.queue)[j], i));
        }
    }
}

/// Links of 120 to 280 ticks and replies after 50 keep the exchanges of a lease
/// short enough for the default timing (guard and lease of 1500 ticks, a delta of
/// 100), if the grantor's clock is perfect.
proof fn lemma_default_exchanges(cfg: Config, normal: spec_fn(NormalDraw) -> Time, i: int)
    requires
        cfg.valid(),
        0 <= i < cfg.leases.len(),
        !cfg.write_disruptive,
        default_timing(cfg, i),
        cfg.duration <= HALF_UNIT,
        clocks_agree(cfg, i, cfg.duration + 280),
    ensures
        regular(cfg, normal, i, 280, 50, 280),
{
    let (g, h) = (cfg.leases[i].grantor, cfg.leases[i].grantee);
    assert forall|rng: RngState| (#[trigger] cfg.link(g, h).delay.drawn(rng, normal)) <= 280 by {
        lemma_drawn_bounds(cfg.link(g, h).delay, rng, normal);
    }
    assert forall|rng: RngState| (#[trigger] cfg.link(h, g).delay.drawn(rng, normal)) <= 280 by {
        lemma_drawn_bounds(cfg.link(h, g).delay, rng, normal);
    }
    let clock = default_node().clock;
    assert forall|t: int| 0 <= t <= cfg.duration implies grantor_clock(cfg, i, t + 280)
        <= #[trigger] grantor_clock(cfg, i, t) + 1600 by {
        law_perfect_clock_is_identity(clock, t);
        law_perfect_clock_is_identity(clock, t + 280);
    }
    assert forall|t: int| 0 <= t <= cfg.duration implies grantor_clock(cfg, i, t + 280 + 50 + 280)
        <= #[trigger] grantor_clock(cfg, i, t) + 3200 by {
        law_perfect_clock_is_identity(clock, t);
        law_perfect_clock_is_identity(clock, t + 280 + 50 + 280);
    }
}

/// Lease `i` has the default timing and default links (whatever they lose), and its
/// grantor the default clock, which is perfect.
pub open spec fn default_timing(cfg: Config, i: int) -> bool {
    let (g, h) = (cfg.leases[i].grantor, cfg.leases[i].grantee);
    &&& cfg.params == (LeaseParams {
        t_guard: 1500,
        t_lease: 1500,
        t_delta: 100,
        renew_interval: 600,
    })
    &&& cfg.nodes[g as int].clock == default_node().clock
    &&& cfg.nodes[h as int].response_delay == default_node().response_delay
    &&& cfg.link(g, h).delay == default_link(g, h).delay
    &&& cfg.link(h, g).delay == default_link(h, g).delay
}

/// The default timing (guard and lease of 1500 ticks, a delta of 100, links of
/// 120 to 280 ticks, replies after 50) on perfect clocks meets all conditions.
pub proof fn law_default_timing_is_regular(
    cfg: Config,
    normal: spec_fn(NormalDraw) -> Time,
    i: int,
)
    requires
        cfg.valid(),
        0 <= i < cfg.leases.len(),
        !cfg.write_disruptive,
        default_timing(cfg, i),
        cfg.duration <= HALF_UNIT,
        cfg.nodes[cfg.leases[i].grantee as int].clock == default_node().clock,
    ensures
        regular(cfg, normal, i, 280, 50, 280),
{
    law_same_rate_clocks_agree(cfg, i, cfg.duration + 280);
    lemma_default_exchanges(cfg, normal, i);
}

/// The same with a grantee whose clock is skewed by any amount and runs fast, or
/// slow by no more than the delta of 100 ticks in 1500 (less two for rounding).
pub proof fn law_default_timing_is_regular_despite_drift(
    cfg: Config,
    normal: spec_fn(NormalDraw) -> Time,
    i: int,
)
    requires
        cfg.valid(),
        0 <= i < cfg.leases.len(),
        !cfg.write_disruptive,
        default_timing(cfg, i),
        ({
            let drift = cfg.nodes[cfg.leases[i].grantee as int].clock.drift;
            let d = two_pow(drift.shift as nat);
            &&& 1500 * drift.mantissa >= 1402 * d
            &&& drift.mantissa * (cfg.duration + 1780) <= 562_949_953_421_312 * d
        }),
        cfg.duration + 1780 <= 562_949_953_421_312,
    ensures
        regular(cfg, normal, i, 280, 50, 280),
{
    let drift = cfg.nodes[cfg.leases[i].grantee as int].clock.drift;
    let d = two_pow(drift.shift as nat);
    assert(drift.mantissa >= 0) by (nonlinear_arith)
        requires
            1500 * drift.mantissa >= 1402 * d,
            d >= 0,
    ;
    assert(two_pow(0) == 1);
    law_drift_within_budget_agrees(cfg, i, cfg.duration + 280, 1500);
    lemma_default_exchanges(cfg, normal, i);
}

/// Where the conditions are met and the script does not revoke the lease, the
/// grantor's promise covers the grantee's hold from the start of a run up to any
/// time; in global time, `D'` is not earlier than `C'`.
pub proof fn law_regular_scenario_is_safe(
    cfg: Config,
    normal: spec_fn(NormalDraw) -> Time,
    i: int,
    m: int,
    r: int,
    w: int,
    t: int,
)
    requires
        cfg.valid(),
        crate::upkeep::normal_ok(normal),
        sized(Sim::blank(cfg, normal)),
        regular(cfg, normal, i, m, r, w),
        forall|k: int|
            0 <= k < cfg.commands.len() ==> (#[trigger] cfg.commands[k]).1 != Command::Revoke(
                cfg.leases[i],
            ),
    ensures
        covered(Sim::initial(cfg, normal).advanced(t), i),
        ({
            let l = Sim::initial(cfg, normal).advanced(t).leases[i];
            l.grantee.status == LeaseStatus::Active ==> grantor_time(
                cfg,
                i,
                l.grantor.grant_expiry as int,
            ) >= grantee_time(cfg, i, l.grantee.hold_expiry as int)
        }),
{
    let s = Sim::initial(cfg, normal);
    crate::progress::lemma_initial(cfg, normal);
    law_orderly_at_start(cfg, normal, i, r, w);
    law_covered_at_start(cfg, normal, i);
    law_advancing_keeps_lease_safe(s, i, m, r, w, t);
    let b = s.advanced(t);
    assert(covered(b.taken(), i));
    assert(covered(b, i));
    assert(b.cfg == cfg) by {
        lemma_advanced(s, t);
    }
    if b.leases[i].grantee.status == LeaseStatus::Active {
        law_covered_expiries_are_ordered(b, i);
    }
}

} // verus!
