//! The safety of leases whatever the delays: messages may take as long as they
//! like, be lost, or find their receiver down; leases may be revoked, and torn down
//! by writes. What a lease needs is that its parties' clocks drift apart by no more
//! than its delta, and that no message of it leaves behind a renew that it crossed
//! and that the promise does not cover.

use crate::clock::{law_reading_monotone, two_pow, Time};
use crate::dist::NormalDraw;
use crate::event::{Command, EventKind, LeaseStatus, MsgFate, MsgKind, NodeId};
use crate::exchange::default_timing;
use crate::moves::{
    is_guard, is_quiet, is_renewal, is_retreat, is_write_move, keep_apply, keep_poll,
    keep_receive_write, keep_write_tick, kept_by_moves, lemma_enqueue_entry, lemma_enqueue_keeps,
    lemma_live_drop_first, lemma_live_enqueue, lemma_live_ordered, lemma_reply_live,
    lemma_send_live, live, moves,
};
use crate::polling::{lemma_initial_polled, lemma_step_polled, polled, steady};
use crate::progress::{
    lemma_advanced, lemma_initial, lemma_run_is, lemma_settles, lemma_steps_next, lemma_steps_ok,
    sized,
};
use crate::rounding::UNIT;
use crate::safety::{
    clocks_agree, clocks_run, grantee_clock, grantee_time, grantor_clock, grantor_time, is_renew,
    law_drift_within_budget_agrees, lemma_advance_at_least, lemma_advance_at_most,
    lemma_begin_guard_effect, lemma_outlasts_more, lemma_send_renew_effect, outlasts,
};
use crate::scenario::Config;
use crate::sim::{max_of, GranteeState, GrantorState, Sim, POLL_INTERVAL};
use crate::timeline::{enqueue, in_time_order, Scheduled, Timed};
use crate::upkeep::{
    lemma_emit, lemma_lease_position, lemma_parties, lemma_popped, lemma_reply, lemma_send,
    lemma_with_grantee, lemma_with_grantor, message_ok, normal_ok,
};
use vstd::prelude::*;

verus! {

/// Up to `lag` ticks after the grantee's clock of lease `i` last showed `local`, the
/// grantor's shows at most `bound`.
pub open spec fn by_then(cfg: Config, i: int, local: int, bound: int, lag: int) -> bool {
    forall|u: int|
        u + lag >= 0 && #[trigger] grantee_clock(cfg, i, u) <= local ==> grantor_clock(
            cfg,
            i,
            u + lag,
        ) <= bound
}

/// What the parties' clocks have to keep, and nothing else: over a lease, and over a
/// guard window, they drift apart by no more than `t_delta` either way. A grantee
/// notices only on its next poll that its hold is over, and until then takes a
/// renew; the guard time allows for that too.
pub open spec fn timely(cfg: Config, i: int) -> bool {
    let p = cfg.params;
    &&& 0 <= i < cfg.leases.len()
    &&& steady(cfg, cfg.leases[i].grantee)
    &&& clocks_agree(cfg, i, cfg.duration as int)
    &&& forall|c: int|
        0 <= c <= cfg.duration ==> #[trigger] by_then(
            cfg,
            i,
            grantee_clock(cfg, i, c) + p.guard_len(),
            grantor_clock(cfg, i, c) + p.t_guard + p.t_delta,
            0,
        )
    &&& forall|c: int|
        0 <= c <= cfg.duration ==> #[trigger] by_then(
            cfg,
            i,
            grantee_clock(cfg, i, c) + p.hold_len(),
            grantor_clock(cfg, i, c) + p.t_guard + p.t_delta,
            POLL_INTERVAL as int,
        )
}

/// A renew of lease `i` is on its way and will be delivered.
pub open spec fn renewing(s: Sim, i: int) -> bool {
    exists|k: int| 0 <= k < live(s.queue).len() && is_renew(#[trigger] live(s.queue)[k], i)
}

/// As things stand, the grantee takes a renew of lease `i` that reaches it at time
/// `at`: its guard window is open then, or it holds the lease, as far as its last
/// poll before that can tell.
pub open spec fn would_take(s: Sim, i: int, at: int) -> bool {
    let h = s.leases[i].grantee;
    ||| h.status == LeaseStatus::Guarding && grantee_clock(s.cfg, i, at) < h.guard_deadline
    ||| h.status == LeaseStatus::Active && grantee_clock(s.cfg, i, at - POLL_INTERVAL)
        <= h.hold_expiry
}

/// The promise `D'` covers what the grantee would hold after a renew that reaches it
/// at time `at`, if it would take one then.
pub open spec fn covers_renew(s: Sim, i: int, at: int) -> bool {
    would_take(s, i, at) ==> outlasts(
        s.cfg,
        i,
        s.leases[i].grantor.grant_expiry as int,
        grantee_clock(s.cfg, i, at) + s.params().hold_len(),
    )
}

/// The promise covers what every renew on its way would let the grantee hold.
pub open spec fn secured(s: Sim, i: int) -> bool {
    forall|k: int|
        0 <= k < live(s.queue).len() && is_renew(#[trigger] live(s.queue)[k], i) && live(
            s.queue,
        )[k].at <= s.cfg.duration ==> covers_renew(s, i, live(s.queue)[k].at as int)
}

/// The promise `D'` covers the hold, which is no longer than a lease from now, and
/// what a renew on its way would let the grantee hold.
pub open spec fn safe(s: Sim, i: int) -> bool {
    let l = s.leases[i];
    &&& l.grantee.status == LeaseStatus::Active ==> outlasts(
        s.cfg,
        i,
        l.grantor.grant_expiry as int,
        l.grantee.hold_expiry as int,
    )
    &&& l.grantee.status == LeaseStatus::Active ==> l.grantee.hold_expiry <= grantee_clock(
        s.cfg,
        i,
        s.now as int,
    ) + s.params().hold_len()
    &&& l.grantee.status == LeaseStatus::Guarding ==> l.grantee.guard_deadline <= grantee_clock(
        s.cfg,
        i,
        s.now as int,
    ) + s.params().guard_len()
    &&& secured(s, i)
}

/// The next item delivers a guard, a renew or a renew reply of lease `i` although a
/// renew of it (another one) is still on its way.
pub open spec fn crosses(s: Sim, i: int) -> bool {
    &&& s.queue.len() > 0
    &&& s.queue[0].item matches Scheduled::Arrival { to, kind, tag, fate, .. } && tag == i && fate
        == MsgFate::Delivered && s.nodes[to as int].up && (kind == MsgKind::Guard || kind
        == MsgKind::Renew || kind == MsgKind::RenewReply)
    &&& renewing(s.popped(), i)
}

/// The next item crosses a renew of lease `i` and leaves it on its way, to be taken
/// when it arrives, without the promise covering it. Messages of different attempts
/// to grant the lease that run into each other can do this: a late guard that opens
/// the window anew, a late renew that prolongs the hold, or a late reply that
/// shortens the promise.
pub open spec fn upsets(s: Sim, i: int) -> bool {
    crosses(s, i) && !secured(s.step(), i)
}

// ---- Changes of a state ----------------------------------------------------

/// An entry other than a renew of the lease was added to the timeline, or none.
proof fn lemma_not_renewing(a: Sim, b: Sim, e: Timed, i: int)
    requires
        in_time_order(live(a.queue)),
        live(b.queue) == live(a.queue) || live(b.queue) == enqueue(live(a.queue), e),
        !is_renew(e, i),
    ensures
        renewing(b, i) ==> renewing(a, i),
{
    if renewing(b, i) {
        let k = choose|k: int|
            0 <= k < live(b.queue).len() && is_renew(#[trigger] live(b.queue)[k], i);
        if live(b.queue) == live(a.queue) {
            assert(is_renew(live(a.queue)[k], i));
        } else {
            lemma_enqueue_entry(live(a.queue), e, k);
            let j = choose|j: int|
                0 <= j < live(a.queue).len() && #[trigger] live(a.queue)[j] == live(b.queue)[k];
            assert(is_renew(live(a.queue)[j], i));
        }
    }
}

/// The promise is not shortened and the grantee gives up or does nothing. If a renew
/// of the lease goes out, the promise covers it.
proof fn lemma_safe_kept(a: Sim, b: Sim, e: Timed, i: int)
    requires
        clocks_run(a.cfg, i),
        safe(a, i),
        b.cfg == a.cfg,
        b.now == a.now,
        a.leases[i].grantor.grant_expiry <= b.leases[i].grantor.grant_expiry,
        b.leases[i].grantee == a.leases[i].grantee || !b.leases[i].holding(),
        in_time_order(live(a.queue)),
        live(b.queue) == live(a.queue) || live(b.queue) == enqueue(live(a.queue), e),
        is_renew(e, i) && e.at <= a.cfg.duration ==> covers_renew(b, i, e.at as int),
    ensures
        safe(b, i),
{
    let (d, d2) = (
        a.leases[i].grantor.grant_expiry as int,
        b.leases[i].grantor.grant_expiry as int,
    );
    let c = a.leases[i].grantee.hold_expiry as int;
    if b.leases[i].grantee.status == LeaseStatus::Active {
        lemma_outlasts_more(a.cfg, i, d, c, d2, c);
    }
    assert forall|k: int|
        0 <= k < live(b.queue).len() && is_renew(#[trigger] live(b.queue)[k], i) && live(
            b.queue,
        )[k].at <= b.cfg.duration implies covers_renew(b, i, live(b.queue)[k].at as int) by {
        let x = live(b.queue)[k];
        let held = grantee_clock(a.cfg, i, x.at as int) + a.params().hold_len();
        if live(b.queue) == live(a.queue) {
            assert(is_renew(live(a.queue)[k], i));
            if would_take(b, i, x.at as int) {
                lemma_outlasts_more(a.cfg, i, d, held, d2, held);
            }
        } else {
            lemma_enqueue_entry(live(a.queue), e, k);
            if x != e {
                let j = choose|j: int|
                    0 <= j < live(a.queue).len() && #[trigger] live(a.queue)[j] == x;
                assert(is_renew(live(a.queue)[j], i));
                if would_take(b, i, x.at as int) {
                    lemma_outlasts_more(a.cfg, i, d, held, d2, held);
                }
            }
        }
    }
}

/// The same where nothing is added to the timeline.
proof fn lemma_safe_same(a: Sim, b: Sim, i: int)
    requires
        a.ok(),
        clocks_run(a.cfg, i),
        safe(a, i),
        b.cfg == a.cfg,
        b.now == a.now,
        a.leases[i].grantor.grant_expiry <= b.leases[i].grantor.grant_expiry,
        b.leases[i].grantee == a.leases[i].grantee || !b.leases[i].holding(),
        live(b.queue) == live(a.queue),
    ensures
        safe(b, i),
{
    lemma_live_ordered(a.queue);
    lemma_safe_kept(a, b, Timed { at: 0, item: Scheduled::WriteTick }, i);
}

/// A renew goes out, with the promise extended to the no-reply bound: that covers it
/// whenever it is taken.
proof fn lemma_renew_covered(a: Sim, b: Sim, i: int, at: int)
    requires
        timely(a.cfg, i),
        safe(a, i),
        b.cfg == a.cfg,
        b.now == a.now,
        0 <= a.now < at <= a.cfg.duration,
        grantor_clock(a.cfg, i, a.now as int) + a.params().grant_len()
            <= b.leases[i].grantor.grant_expiry,
        b.leases[i].grantee == a.leases[i].grantee,
    ensures
        covers_renew(b, i, at),
{
    let p = a.params();
    let now = a.now as int;
    let limit = grantor_clock(a.cfg, i, now) + p.t_guard + p.t_delta;
    assert(by_then(a.cfg, i, grantee_clock(a.cfg, i, now) + p.guard_len(), limit, 0));
    assert(by_then(
        a.cfg,
        i,
        grantee_clock(a.cfg, i, now) + p.hold_len(),
        limit,
        POLL_INTERVAL as int,
    ));
    if would_take(b, i, at) {
        if b.leases[i].grantee.status == LeaseStatus::Active {
            assert(grantee_clock(a.cfg, i, at - POLL_INTERVAL) <= grantee_clock(a.cfg, i, now)
                + p.hold_len());
            assert(grantor_clock(a.cfg, i, (at - POLL_INTERVAL) + POLL_INTERVAL) <= limit);
        } else {
            assert(grantee_clock(a.cfg, i, at) <= grantee_clock(a.cfg, i, now) + p.guard_len());
            assert(grantor_clock(a.cfg, i, at + 0) <= limit);
        }
        let held = grantee_clock(a.cfg, i, at) + p.hold_len();
        let d = grantor_clock(a.cfg, i, at) + p.confirmed_len();
        assert(outlasts(a.cfg, i, d, held));
        lemma_outlasts_more(a.cfg, i, d, held, b.leases[i].grantor.grant_expiry as int, held);
    }
}

spec fn safe_in(cfg: Config, i: int) -> spec_fn(Sim) -> bool {
    |s: Sim| s.cfg == cfg && 0 <= s.now <= cfg.duration && safe(s, i)
}

/// A renew of some lease goes out.
proof fn lemma_send_renew_safe(s: Sim, i: int, j: usize)
    requires
        s.ok(),
        timely(s.cfg, i),
        0 <= s.now <= s.cfg.duration,
        safe(s, i),
        j < s.leases.len(),
    ensures
        safe(s.send_renew(j), i),
{
    let b = s.send_renew(j);
    lemma_send_renew_effect(s, j);
    lemma_parties(s, j as int);
    let l = s.leases[j as int];
    let e = Timed {
        at: s.arrival_of(l.id.grantor, l.id.grantee) as Time,
        item: Scheduled::Arrival {
            from: l.id.grantor,
            to: l.id.grantee,
            kind: MsgKind::Renew,
            tag: j,
            fate: s.fate_of(l.id.grantor, l.id.grantee, MsgKind::Renew),
        },
    };
    if j == i && e.at <= s.cfg.duration {
        lemma_renew_covered(s, b, i, e.at as int);
    }
    lemma_safe_kept(s, b, e, i);
}

proof fn lemma_safe_moves(cfg: Config, i: int)
    requires
        timely(cfg, i),
    ensures
        kept_by_moves(safe_in(cfg, i), true),
{
    let prop = safe_in(cfg, i);
    assert forall|a: Sim, b: Sim|
        a.ok() && b.ok() && prop(a) && #[trigger] moves(a, b, true) implies prop(b) by {
        if is_quiet(a, b) || is_write_move(a, b) {
            lemma_safe_same(a, b, i);
        } else if is_retreat(a, b) {
            assert(b.leases[i].id == a.leases[i].id);
            lemma_safe_same(a, b, i);
        } else if exists|j: usize| is_guard(a, b, j) {
            let j = choose|j: usize| is_guard(a, b, j);
            lemma_begin_guard_effect(a, j);
            let l = a.leases[j as int];
            let e = Timed {
                at: a.arrival_of(l.id.grantor, l.id.grantee) as Time,
                item: Scheduled::Arrival {
                    from: l.id.grantor,
                    to: l.id.grantee,
                    kind: MsgKind::Guard,
                    tag: j,
                    fate: a.fate_of(l.id.grantor, l.id.grantee, MsgKind::Guard),
                },
            };
            lemma_safe_kept(a, b, e, i);
        } else {
            let j = choose|j: usize| is_renewal(a, b, j);
            lemma_send_renew_effect(a, j);
            lemma_send_renew_safe(a, i, j);
        }
    }
}

/// Time passes and the first entry comes off the timeline.
proof fn lemma_popped_safe(s: Sim, i: int)
    requires
        s.ok(),
        s.queue.len() > 0,
        timely(s.cfg, i),
        safe(s, i),
        s.now <= s.queue[0].at,
    ensures
        safe(s.popped(), i),
{
    lemma_live_drop_first(s.queue);
    let p = s.popped();
    law_reading_monotone(
        s.cfg.nodes[s.cfg.leases[i].grantee as int].clock,
        s.now as int,
        p.now as int,
    );
    assert forall|k: int|
        0 <= k < live(p.queue).len() && is_renew(#[trigger] live(p.queue)[k], i) && live(
            p.queue,
        )[k].at <= p.cfg.duration implies covers_renew(p, i, live(p.queue)[k].at as int) by {
        let m: int = if live(p.queue) == live(s.queue) {
            k
        } else {
            k + 1
        };
        assert(live(s.queue)[m] == live(p.queue)[k]);
        assert(is_renew(live(s.queue)[m], i));
        assert(covers_renew(s, i, live(s.queue)[m].at as int));
    }
}

/// A message other than a renew is sent.
proof fn lemma_send_safe(s: Sim, i: int, from: NodeId, to: NodeId, kind: MsgKind, tag: usize)
    requires
        s.ok(),
        clocks_run(s.cfg, i),
        0 <= i < s.leases.len(),
        safe(s, i),
        kind != MsgKind::Renew,
        message_ok(s.cfg, from, to, kind, tag),
    ensures
        safe(s.send(from, to, kind, tag), i),
{
    let b = s.send(from, to, kind, tag);
    lemma_send(s, from, to, kind, tag);
    lemma_send_live(s, from, to, kind, tag);
    let e = Timed {
        at: s.arrival_of(from, to) as Time,
        item: Scheduled::Arrival { from, to, kind, tag, fate: s.fate_of(from, to, kind) },
    };
    lemma_safe_kept(s, b, e, i);
}

/// A reply is deferred.
proof fn lemma_reply_safe(s: Sim, i: int, from: NodeId, to: NodeId, kind: MsgKind, tag: usize)
    requires
        s.ok(),
        kind.is_reply(),
        message_ok(s.cfg, from, to, kind, tag),
    ensures
        ({
            let b = s.reply_after_delay(from, to, kind, tag);
            &&& b.cfg == s.cfg
            &&& b.now == s.now
            &&& b.leases == s.leases
            &&& renewing(b, i) ==> renewing(s, i)
            &&& clocks_run(s.cfg, i) && safe(s, i) ==> safe(b, i)
        }),
{
    let b = s.reply_after_delay(from, to, kind, tag);
    lemma_reply(s, from, to, kind, tag);
    lemma_reply_live(s, from, to, kind, tag);
    let think = s.cfg.nodes[from as int].response_delay;
    let e = Timed {
        at: (s.now + think.drawn(s.rng, s.normal)) as Time,
        item: Scheduled::Send { from, to, kind, tag },
    };
    lemma_not_renewing(s, b, e, i);
    if clocks_run(s.cfg, i) && safe(s, i) {
        lemma_safe_kept(s, b, e, i);
    }
}

/// A guard reaches the grantee.
proof fn lemma_on_guard_safe(s: Sim, i: int, j: usize)
    requires
        s.ok(),
        timely(s.cfg, i),
        safe(s, i),
        j < s.leases.len(),
        j == i && renewing(s, i) ==> secured(s.on_guard(j), i),
    ensures
        safe(s.on_guard(j), i),
{
    reveal(Sim::on_guard);
    lemma_parties(s, j as int);
    let l = s.leases[j as int];
    let g = GranteeState {
        guard_deadline: (s.local(l.id.grantee) + s.params().guard_len()) as Time,
        status: LeaseStatus::Guarding,
        ..l.grantee
    };
    lemma_with_grantee(s, j as int, g);
    let s1 = s.with_grantee(j as int, g);
    let ev = EventKind::GranteeLease { lease: l.id, status: LeaseStatus::Guarding };
    lemma_emit(s1, ev);
    if j != i {
        lemma_safe_same(s, s1.emit(ev), i);
    }
    lemma_reply_safe(s1.emit(ev), i, l.id.grantee, l.id.grantor, MsgKind::GuardReply, j);
    assert(renewing(s1.emit(ev), i) ==> renewing(s, i));
}

/// A guard reply reaches the grantor.
proof fn lemma_on_guard_reply_safe(s: Sim, i: int, j: usize)
    requires
        s.ok(),
        timely(s.cfg, i),
        0 <= s.now <= s.cfg.duration,
        safe(s, i),
        j < s.leases.len(),
    ensures
        safe(s.on_guard_reply(j), i),
{
    reveal(Sim::on_guard_reply);
    lemma_parties(s, j as int);
    let l = s.leases[j as int];
    let d = s.local(l.id.grantor) as Time;
    let g = GrantorState {
        status: LeaseStatus::Active,
        last_reply: d,
        next_renew_due: d,
        ..l.grantor
    };
    lemma_with_grantor(s, j as int, g);
    let s1 = s.with_grantor(j as int, g);
    let ev = EventKind::GrantorLease { lease: l.id, status: LeaseStatus::Active };
    lemma_emit(s1, ev);
    lemma_safe_same(s, s1.emit(ev), i);
    lemma_send_renew_safe(s1.emit(ev), i, j);
}

/// A renew reaches the grantee. It was on its way before, so the promise covers it.
proof fn lemma_on_renew_safe(s: Sim, i: int, j: usize)
    requires
        s.ok(),
        timely(s.cfg, i),
        safe(s, i),
        j < s.leases.len(),
        j == i ==> covers_renew(s, i, s.now as int),
        j == i && s.leases[i].grantee.status == LeaseStatus::Active ==> grantee_clock(
            s.cfg,
            i,
            s.now - POLL_INTERVAL,
        ) <= s.leases[i].grantee.hold_expiry,
        j == i && renewing(s, i) ==> secured(s.on_renew(j), i),
    ensures
        safe(s.on_renew(j), i),
{
    reveal(Sim::on_renew);
    lemma_parties(s, j as int);
    let l = s.leases[j as int];
    if s.accepts_renew(j as int) {
        let g = GranteeState {
            hold_expiry: (s.local(l.id.grantee) + s.params().hold_len()) as Time,
            status: LeaseStatus::Active,
            ..l.grantee
        };
        lemma_with_grantee(s, j as int, g);
        let s1 = s.with_grantee(j as int, g);
        let ev = EventKind::GranteeLease { lease: l.id, status: LeaseStatus::Active };
        lemma_emit(s1, ev);
        let s2 = if l.grantee.status != LeaseStatus::Active {
            s1.emit(ev)
        } else {
            s1
        };
        if j != i {
            lemma_safe_same(s, s2, i);
        } else {
            assert(would_take(s, i, s.now as int));
        }
        lemma_reply_safe(s2, i, l.id.grantee, l.id.grantor, MsgKind::RenewReply, j);
        assert(renewing(s2, i) ==> renewing(s, i));
    }
}

/// A renew reply reaches the grantor.
proof fn lemma_on_renew_reply_safe(s: Sim, i: int, j: usize)
    requires
        s.ok(),
        timely(s.cfg, i),
        0 <= s.now <= s.cfg.duration,
        safe(s, i),
        j < s.leases.len(),
        j == i && renewing(s, i) ==> secured(s.on_renew_reply(j), i),
    ensures
        safe(s.on_renew_reply(j), i),
{
    reveal(Sim::on_renew_reply);
    lemma_parties(s, j as int);
    let l = s.leases[j as int];
    let b = s.on_renew_reply(j);
    assert(renewing(b, i) ==> renewing(s, i));
    if j == i && l.grantor.status == LeaseStatus::Active {
        let now = s.now as int;
        let d = grantor_clock(s.cfg, i, now) + s.params().confirmed_len();
        let c = grantee_clock(s.cfg, i, now) + s.params().hold_len();
        if l.grantee.status == LeaseStatus::Active {
            assert(outlasts(s.cfg, i, d, c));
            lemma_outlasts_more(s.cfg, i, d, c, d, l.grantee.hold_expiry as int);
        }
    } else {
        lemma_safe_same(s, b, i);
    }
}

/// A revocation reaches the grantee.
proof fn lemma_on_revoke_safe(s: Sim, i: int, j: usize)
    requires
        s.ok(),
        clocks_run(s.cfg, i),
        0 <= i < s.leases.len(),
        safe(s, i),
        j < s.leases.len(),
    ensures
        safe(s.on_revoke(j), i),
{
    reveal(Sim::on_revoke);
    lemma_parties(s, j as int);
    let l = s.leases[j as int];
    let g = GranteeState {
        status: LeaseStatus::Expired,
        hold_expiry: s.local(l.id.grantee) as Time,
        ..l.grantee
    };
    lemma_with_grantee(s, j as int, g);
    let s1 = s.with_grantee(j as int, g);
    let ev = EventKind::GranteeLease { lease: l.id, status: LeaseStatus::Expired };
    lemma_emit(s1, ev);
    let s2 = if l.holding() {
        s1.emit(ev)
    } else {
        s
    };
    lemma_safe_same(s, s2, i);
    lemma_reply_safe(s2, i, l.id.grantee, l.id.grantor, MsgKind::RevokeReply, j);
}

/// A lease is revoked.
proof fn lemma_begin_revoke_safe(s: Sim, i: int, j: usize)
    requires
        s.ok(),
        clocks_run(s.cfg, i),
        0 <= i < s.leases.len(),
        safe(s, i),
        j < s.leases.len(),
    ensures
        safe(s.begin_revoke(j), i),
{
    reveal(Sim::begin_revoke);
    lemma_parties(s, j as int);
    let l = s.leases[j as int];
    let g = GrantorState { intended: false, ..l.grantor };
    lemma_with_grantor(s, j as int, g);
    let s1 = s.with_grantor(j as int, g);
    lemma_safe_same(s, s1, i);
    lemma_send_safe(s1, i, l.id.grantor, l.id.grantee, MsgKind::Revoke, j);
}

/// A party acts on a lease message.
proof fn lemma_receive_safe(
    s: Sim,
    i: int,
    p: int,
    from: NodeId,
    to: NodeId,
    kind: MsgKind,
    tag: usize,
)
    requires
        s.ok(),
        sized(s),
        s.queue.len() > 0,
        s.queue[0].at <= s.cfg.duration,
        s.queue[0].item == (Scheduled::Arrival { from, to, kind, tag, fate: MsgFate::Delivered }),
        s.nodes[to as int].up,
        !kind.is_write_path(),
        timely(s.cfg, i),
        safe(s, i),
        safe(s.popped(), i),
        polled(s, s.cfg.leases[i].grantee, p),
        !upsets(s, i),
    ensures
        safe(s.step(), i),
{
    lemma_popped(s);
    lemma_live_drop_first(s.queue);
    reveal(Sim::arrive);
    let a = s.popped();
    let ev = EventKind::MessageDelivered { from, to, kind };
    lemma_emit(a, ev);
    let q = a.emit(ev);
    assert(s.step() == q.receive(from, to, kind, tag));
    assert(renewing(q, i) ==> renewing(a, i));
    lemma_safe_same(a, q, i);
    match kind {
        MsgKind::Guard => lemma_on_guard_safe(q, i, tag),
        MsgKind::GuardReply => lemma_on_guard_reply_safe(q, i, tag),
        MsgKind::Renew => {
            if tag == i {
                assert(is_renew(live(s.queue)[0], i));
                assert(covers_renew(s, i, live(s.queue)[0].at as int));
                let node = s.cfg.leases[i].grantee;
                let clock = s.cfg.nodes[node as int].clock;
                // The next poll is not behind yet.
                assert(s.queue[0].at <= p + POLL_INTERVAL) by {
                    let e = Timed {
                        at: (p + POLL_INTERVAL) as Time,
                        item: Scheduled::Poll { node },
                    };
                    if s.queue.contains(e) {
                        let k = choose|k: int| 0 <= k < s.queue.len() && s.queue[k] == e;
                        assert(s.queue[0].at <= s.queue[k].at);
                    }
                }
                law_reading_monotone(clock, q.now - POLL_INTERVAL, p);
                lemma_parties(s, i);
                assert(crate::polling::lease_in_time(s.leases[i], node, clock.reading(p)));
            }
            lemma_on_renew_safe(q, i, tag);
        },
        MsgKind::RenewReply => lemma_on_renew_reply_safe(q, i, tag),
        MsgKind::Revoke => lemma_on_revoke_safe(q, i, tag),
        _ => {
            reveal(Sim::on_revoke_reply);
            let b = q.on_revoke_reply(tag);
            lemma_safe_same(q, b, i);
        },
    }
}

/// One step keeps a lease safe, unless it is the one that upsets it.
proof fn lemma_step_safe(s: Sim, i: int, p: int)
    requires
        s.ok(),
        sized(s),
        s.queue.len() > 0,
        s.queue[0].at <= s.cfg.duration,
        timely(s.cfg, i),
        safe(s, i),
        polled(s, s.cfg.leases[i].grantee, p),
        !upsets(s, i),
    ensures
        safe(s.step(), i),
{
    lemma_popped(s);
    lemma_popped_safe(s, i);
    lemma_safe_moves(s.cfg, i);
    let a = s.popped();
    let prop = safe_in(s.cfg, i);
    assert(prop(a));
    match s.queue[0].item {
        Scheduled::Poll { node } => {
            keep_poll(prop, true, a, node);
            assert(prop(a.poll(node)));
        },
        Scheduled::WriteTick => {
            keep_write_tick(prop, true, a);
            assert(prop(a.write_tick()));
        },
        Scheduled::Command(cmd) => {
            if let Command::Revoke(id) = cmd {
                reveal(Sim::apply);
                lemma_lease_position(a.leases, id, 0);
                if a.declared(id) {
                    lemma_begin_revoke_safe(a, i, a.lease_index(id) as usize);
                }
            } else {
                keep_apply(prop, true, a, cmd);
                assert(prop(a.apply(cmd)));
            }
        },
        Scheduled::Send { from, to, kind, tag } => {
            lemma_send_safe(a, i, from, to, kind, tag);
        },
        Scheduled::Arrival { from, to, kind, tag, fate } => {
            if fate == MsgFate::Delivered && a.nodes[to as int].up && !kind.is_write_path() {
                lemma_receive_safe(s, i, p, from, to, kind, tag);
            } else {
                reveal(Sim::arrive);
                let lost = EventKind::MessageDropped { from, to, kind };
                let ev = EventKind::MessageDelivered { from, to, kind };
                lemma_emit(a, lost);
                lemma_emit(a, ev);
                let q = a.emit(ev);
                lemma_safe_same(a, q, i);
                lemma_safe_same(a, a.emit(lost), i);
                if fate == MsgFate::Delivered && a.nodes[to as int].up {
                    assert(prop(q));
                    keep_receive_write(prop, true, q, from, to, kind, tag);
                    assert(prop(q.receive(from, to, kind, tag)));
                }
            }
        },
    }
}

// ---- Laws ------------------------------------------------------------------

/// Nothing is held at the start of a run, and no renew is on its way.
pub proof fn law_safe_at_start(cfg: Config, normal: spec_fn(NormalDraw) -> Time, i: int)
    requires
        cfg.valid(),
        normal_ok(normal),
        sized(Sim::blank(cfg, normal)),
        0 <= i < cfg.leases.len(),
    ensures
        safe(Sim::initial(cfg, normal), i),
{
    lemma_initial(cfg, normal);
    crate::moves::lemma_initial_live(cfg, normal);
}

/// Safety whatever the delays: from the start of a run up to any step of it, the
/// grantor's promise covers the grantee's hold, if only the clocks keep to the
/// drift that the lease allows for. Messages may take any time and be lost, nodes
/// crash and recover, leases be revoked and torn down by writes. The one thing that
/// must not happen is named by [`upsets`].
pub proof fn law_safe_whatever_the_delays(
    cfg: Config,
    normal: spec_fn(NormalDraw) -> Time,
    i: int,
    t: int,
    n: nat,
)
    requires
        cfg.valid(),
        normal_ok(normal),
        sized(Sim::blank(cfg, normal)),
        timely(cfg, i),
        t <= cfg.duration,
        forall|k: nat| k < n ==> !upsets(#[trigger] Sim::initial(cfg, normal).steps(t, k), i),
    ensures
        safe(Sim::initial(cfg, normal).steps(t, n), i),
{
    lemma_initial(cfg, normal);
    let s = Sim::initial(cfg, normal);
    let node = cfg.leases[i].grantee;
    assert(node < cfg.nodes.len());
    lemma_initial_polled(cfg, normal, node);
    law_safe_at_start(cfg, normal, i);
    let p = lemma_steps_safe(s, i, -POLL_INTERVAL as int, t, n);
}

proof fn lemma_steps_safe(s: Sim, i: int, p: int, t: int, n: nat) -> (r: int)
    requires
        s.ok(),
        sized(s),
        t <= s.cfg.duration,
        timely(s.cfg, i),
        safe(s, i),
        polled(s, s.cfg.leases[i].grantee, p),
        forall|k: nat| k < n ==> !upsets(#[trigger] s.steps(t, k), i),
    ensures
        safe(s.steps(t, n), i),
        polled(s.steps(t, n), s.cfg.leases[i].grantee, r),
    decreases n,
{
    if n == 0 {
        p
    } else {
        let r = lemma_steps_safe(s, i, p, t, (n - 1) as nat);
        let before = s.steps(t, (n - 1) as nat);
        lemma_steps_next(s, t, (n - 1) as nat);
        lemma_steps_ok(s, t, (n - 1) as nat);
        if before.settled(t) {
            r
        } else {
            lemma_step_safe(before, i, r);
            lemma_step_polled(before, s.cfg.leases[i].grantee, r)
        }
    }
}

/// What it means that a lease is safe: while the grantee's clock has not passed
/// `C'`, the grantor's has not passed `D'`, and in global time, each converted
/// through its owner's clock, `D'` is not earlier than `C'`.
pub proof fn law_safe_hold_is_promised(s: Sim, i: int)
    requires
        safe(s, i),
        s.leases[i].grantee.status == LeaseStatus::Active,
    ensures
        forall|u: int|
            0 <= u && #[trigger] grantee_clock(s.cfg, i, u) <= s.leases[i].grantee.hold_expiry
                ==> grantor_clock(s.cfg, i, u) <= s.leases[i].grantor.grant_expiry,
        grantor_time(s.cfg, i, s.leases[i].grantor.grant_expiry as int) >= grantee_time(
            s.cfg,
            i,
            s.leases[i].grantee.hold_expiry as int,
        ),
{
}

/// The same at any time that a run is advanced to.
pub proof fn law_hold_is_promised_whatever_the_delays(
    cfg: Config,
    normal: spec_fn(NormalDraw) -> Time,
    i: int,
    t: int,
)
    requires
        cfg.valid(),
        normal_ok(normal),
        sized(Sim::blank(cfg, normal)),
        timely(cfg, i),
        forall|k: nat|
            !upsets(
                #[trigger] Sim::initial(cfg, normal).steps(
                    Sim::initial(cfg, normal).target(t),
                    k,
                ),
                i,
            ),
    ensures
        ({
            let l = Sim::initial(cfg, normal).advanced(t).leases[i];
            let (d, c) = (l.grantor.grant_expiry, l.grantee.hold_expiry);
            l.grantee.status == LeaseStatus::Active ==> {
                &&& forall|u: int|
                    0 <= u && #[trigger] grantee_clock(cfg, i, u) <= c ==> grantor_clock(cfg, i, u)
                        <= d
                &&& grantor_time(cfg, i, d as int) >= grantee_time(cfg, i, c as int)
            }
        }),
{
    let s = Sim::initial(cfg, normal);
    lemma_initial(cfg, normal);
    let target = s.target(t);
    let n = lemma_settles(s, target);
    lemma_run_is(s, target, n);
    law_safe_whatever_the_delays(cfg, normal, i, target, n);
    lemma_steps_ok(s, target, n);
}

/// The same between two calls of an engine: advancing keeps a lease safe. (`p` and
/// the result are when the grantee last polled.)
pub proof fn law_advancing_keeps_safe(s: Sim, i: int, p: int, t: int) -> (r: int)
    requires
        s.ok(),
        sized(s),
        timely(s.cfg, i),
        safe(s, i),
        polled(s, s.cfg.leases[i].grantee, p),
        forall|k: nat| !upsets(#[trigger] s.steps(s.target(t), k), i),
    ensures
        safe(s.advanced(t).taken(), i),
        polled(s.advanced(t).taken(), s.cfg.leases[i].grantee, r),
{
    let target = s.target(t);
    let node = s.cfg.leases[i].grantee;
    let n = lemma_settles(s, target);
    lemma_run_is(s, target, n);
    let r = lemma_steps_safe(s, i, p, target, n);
    lemma_steps_ok(s, target, n);
    lemma_advanced(s, t);
    let (a, b) = (s.steps(target, n), s.advanced(t).taken());
    law_reading_monotone(s.cfg.nodes[node as int].clock, a.now as int, b.now as int);
    assert(secured(b, i)) by {
        assert forall|k: int|
            0 <= k < live(b.queue).len() && is_renew(#[trigger] live(b.queue)[k], i) && live(
                b.queue,
            )[k].at <= b.cfg.duration implies covers_renew(b, i, live(b.queue)[k].at as int) by {
            assert(is_renew(live(a.queue)[k], i));
            assert(covers_renew(a, i, live(a.queue)[k].at as int));
        }
    }
    r
}

/// A command given to a run, such as one that revokes the lease, keeps it safe.
pub proof fn law_commands_keep_safe(s: Sim, i: int, p: int, at: Time, cmd: Command)
    requires
        s.ok(),
        clocks_run(s.cfg, i),
        0 <= i < s.leases.len(),
        safe(s, i),
        polled(s, s.cfg.leases[i].grantee, p),
    ensures
        safe(s.schedule(at as int, Scheduled::Command(cmd)), i),
        polled(s.schedule(at as int, Scheduled::Command(cmd)), s.cfg.leases[i].grantee, p),
{
    let b = s.schedule(at as int, Scheduled::Command(cmd));
    let e = Timed {
        at: max_of(at as int, s.now as int) as Time,
        item: Scheduled::Command(cmd),
    };
    lemma_live_enqueue(s.queue, e);
    lemma_safe_kept(s, b, e, i);
    lemma_enqueue_keeps(s.queue, e);
}

/// The clocks keep to what the lease allows for if there is a span of `k` true ticks
/// in which the grantee's clock is sure to run a hold and a guard window, and the
/// grantor's no more than the confirmed lease and, with a poll interval on top, the
/// guard time (each with two ticks to spare for rounding).
pub proof fn law_drift_within_budget_is_timely(cfg: Config, i: int, k: int)
    requires
        cfg.valid(),
        0 <= i < cfg.leases.len(),
        steady(cfg, cfg.leases[i].grantee),
        0 <= k,
        cfg.duration + k + POLL_INTERVAL < UNIT,
        ({
            let g = cfg.nodes[cfg.leases[i].grantor as int].clock.drift;
            let h = cfg.nodes[cfg.leases[i].grantee as int].clock.drift;
            let (dg, dh) = (two_pow(g.shift as nat), two_pow(h.shift as nat));
            let p = cfg.params;
            &&& g.mantissa >= 0
            &&& g.mantissa * (cfg.duration + k + POLL_INTERVAL) <= 562_949_953_421_312 * dg
            &&& h.mantissa * (cfg.duration + k + POLL_INTERVAL) <= 562_949_953_421_312 * dh
            &&& h.mantissa * k >= (p.hold_len() + 2) * dh
            &&& h.mantissa * k >= (p.guard_len() + 2) * dh
            &&& g.mantissa * k <= (p.confirmed_len() - 2) * dg
            &&& g.mantissa * (k + POLL_INTERVAL) <= (p.t_guard + p.t_delta - 2) * dg
        }),
    ensures
        timely(cfg, i),
{
    let g = cfg.nodes[cfg.leases[i].grantor as int].clock;
    let h = cfg.nodes[cfg.leases[i].grantee as int].clock;
    let until = cfg.duration as int;
    let lag = POLL_INTERVAL as int;
    let (mg, mh) = (g.drift.mantissa as int, h.drift.mantissa as int);
    assert(mg * (until + k) <= mg * (until + k + lag)) by (nonlinear_arith)
        requires
            mg >= 0,
            lag >= 0,
    ;
    assert(mh * (until + k) <= mh * (until + k + lag)) by (nonlinear_arith)
        requires
            mh >= 0,
            lag >= 0,
    ;
    assert(mg * k <= mg * (k + lag)) by (nonlinear_arith)
        requires
            mg >= 0,
            lag >= 0,
    ;
    law_drift_within_budget_agrees(cfg, i, until, k);
    let guard_time = cfg.params.t_guard + cfg.params.t_delta;
    assert forall|c: int| 0 <= c <= until implies #[trigger] by_then(
        cfg,
        i,
        grantee_clock(cfg, i, c) + cfg.params.guard_len(),
        grantor_clock(cfg, i, c) + cfg.params.t_guard + cfg.params.t_delta,
        0,
    ) by {
        lemma_advance_at_least(h, c, k, until, cfg.params.guard_len());
        lemma_advance_at_most(g, c, k, until, guard_time);
        lemma_by_then(cfg, i, c, k, cfg.params.guard_len(), guard_time, 0);
    }
    assert forall|c: int| 0 <= c <= until implies #[trigger] by_then(
        cfg,
        i,
        grantee_clock(cfg, i, c) + cfg.params.hold_len(),
        grantor_clock(cfg, i, c) + cfg.params.t_guard + cfg.params.t_delta,
        POLL_INTERVAL as int,
    ) by {
        lemma_advance_at_least(h, c, k, until, cfg.params.hold_len());
        assert(until + (k + lag) == until + k + lag);
        lemma_advance_at_most(g, c, k + lag, until, guard_time);
        lemma_by_then(cfg, i, c, k, cfg.params.hold_len(), guard_time, lag);
    }
}

proof fn lemma_by_then(cfg: Config, i: int, c: int, k: int, len: int, bound: int, lag: int)
    requires
        clocks_run(cfg, i),
        grantee_clock(cfg, i, c + k) > grantee_clock(cfg, i, c) + len,
        grantor_clock(cfg, i, c + (k + lag)) <= grantor_clock(cfg, i, c) + bound,
    ensures
        by_then(
            cfg,
            i,
            grantee_clock(cfg, i, c) + len,
            grantor_clock(cfg, i, c) + bound,
            lag,
        ),
{
    let g = cfg.nodes[cfg.leases[i].grantor as int].clock;
    let h = cfg.nodes[cfg.leases[i].grantee as int].clock;
    assert forall|u: int|
        u + lag >= 0 && #[trigger] grantee_clock(cfg, i, u) <= grantee_clock(cfg, i, c)
            + len implies grantor_clock(cfg, i, u + lag) <= grantor_clock(cfg, i, c) + bound by {
        if u >= c + k {
            law_reading_monotone(h, c + k, u);
        }
        law_reading_monotone(g, u + lag, c + (k + lag));
    }
}

/// The default timing allows for a grantee whose clock is skewed by any amount and
/// runs fast, or slow by no more than the delta of 100 ticks in 1500 (less two for
/// rounding), towards a grantor whose clock is perfect.
pub proof fn law_default_timing_is_timely(cfg: Config, i: int)
    requires
        cfg.valid(),
        0 <= i < cfg.leases.len(),
        default_timing(cfg, i),
        ({
            let drift = cfg.nodes[cfg.leases[i].grantee as int].clock.drift;
            let d = two_pow(drift.shift as nat);
            &&& 1500 * drift.mantissa >= 1402 * d
            &&& drift.mantissa * (cfg.duration + 1550) <= 562_949_953_421_312 * d
        }),
        cfg.duration + 1550 <= 562_949_953_421_312,
    ensures
        timely(cfg, i),
{
    let drift = cfg.nodes[cfg.leases[i].grantee as int].clock.drift;
    let d = two_pow(drift.shift as nat);
    assert(drift.mantissa >= 0) by (nonlinear_arith)
        requires
            1500 * drift.mantissa >= 1402 * d,
            d >= 0,
    ;
    assert(two_pow(0) == 1);
    assert(cfg.leases[i].grantee < cfg.nodes.len());
    law_drift_within_budget_is_timely(cfg, i, 1500);
}

} // verus!
