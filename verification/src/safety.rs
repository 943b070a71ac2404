//! The safety of leases: as long as a grantee holds a lease, its grantor's
//! promise has not run out, although the two never compare clocks.

use crate::clock::{
    law_conversion_monotone, law_perfect_clock_is_identity, law_reading_monotone, magnitude,
    two_pow, Clock, Drift, Time,
};
use crate::dist::NormalDraw;
use crate::event::{Command, EventKind, LeaseStatus, MsgFate, MsgKind, NodeId};
use crate::moves::{
    concerns_lease, is_activation, is_guard, is_quiet, is_renewal, is_retreat, is_write_event,
    is_write_move, keep_apply, keep_poll, keep_receive_write, keep_write_tick, kept_by_moves,
    lemma_enqueue_entry, lemma_live_drop_first, lemma_reply_live, lemma_send_live, live, moves,
    writes,
};
use crate::progress::{lemma_steps_next, lemma_steps_ok, sized};
use crate::rng::RngState;
use crate::rounding::{as_double, lemma_nearest_monotone, lemma_nearest_of_multiple, UNIT};
use crate::scenario::Config;
use crate::sim::{max_of, min_of, GranteeState, GrantorState, Sim};
use crate::timeline::{enqueue, in_time_order, Scheduled, Timed};
use crate::upkeep::{
    lemma_arrival, lemma_emit, lemma_parties, lemma_popped, lemma_send, lemma_with_grantee,
    lemma_with_grantor, message_ok,
};
use vstd::prelude::*;

verus! {

/// The grantor's clock of lease `i` at time `t`.
pub open spec fn grantor_clock(cfg: Config, i: int, t: int) -> int {
    cfg.nodes[cfg.leases[i].grantor as int].clock.reading(t)
}

/// The grantee's clock of lease `i` at time `t`.
pub open spec fn grantee_clock(cfg: Config, i: int, t: int) -> int {
    cfg.nodes[cfg.leases[i].grantee as int].clock.reading(t)
}

/// The global time at which the grantor's clock of lease `i` reads `local`.
pub open spec fn grantor_time(cfg: Config, i: int, local: int) -> int {
    cfg.nodes[cfg.leases[i].grantor as int].clock.global_of(local)
}

/// The global time at which the grantee's clock of lease `i` reads `local`.
pub open spec fn grantee_time(cfg: Config, i: int, local: int) -> int {
    cfg.nodes[cfg.leases[i].grantee as int].clock.global_of(local)
}

/// A promise up to the grantor-local time `d` covers a hold up to the
/// grantee-local time `c`: at no moment is the hold still on and the promise
/// over, and converted to global time, either through its owner's clock, the
/// promise does not end before the hold.
pub open spec fn outlasts(cfg: Config, i: int, d: int, c: int) -> bool {
    &&& forall|t: int|
        0 <= t && #[trigger] grantee_clock(cfg, i, t) <= c ==> grantor_clock(cfg, i, t) <= d
    &&& grantor_time(cfg, i, d) >= grantee_time(cfg, i, c)
}

/// The clocks of the two parties drift apart by no more than `t_delta` either
/// way over a lease: while the grantee's clock advances `t_lease - t_delta`, the
/// grantor's advances at most `t_lease + t_delta`. Neither runs backwards. (The
/// skew between them does not matter.) This is asked of any lease that starts up
/// to time `until`.
pub open spec fn clocks_agree(cfg: Config, i: int, until: int) -> bool {
    &&& clocks_run(cfg, i)
    &&& forall|c: int|
        0 <= c <= until ==> #[trigger] outlasts(
            cfg,
            i,
            grantor_clock(cfg, i, c) + cfg.params.confirmed_len(),
            grantee_clock(cfg, i, c) + cfg.params.hold_len(),
        )
}

/// No message on the link `from -> to` takes longer than `m` ticks.
pub open spec fn delay_at_most(
    cfg: Config,
    normal: spec_fn(NormalDraw) -> Time,
    from: NodeId,
    to: NodeId,
    m: int,
) -> bool {
    &&& 1 <= m
    &&& forall|rng: RngState| (#[trigger] cfg.link(from, to).delay.drawn(rng, normal)) <= m
}

/// A renew of lease `i` reaches the grantee within `m` ticks, during which the
/// grantor's clock advances at most `t_guard + t_delta`.
pub open spec fn renews_are_prompt(
    cfg: Config,
    normal: spec_fn(NormalDraw) -> Time,
    i: int,
    m: int,
) -> bool {
    &&& delay_at_most(cfg, normal, cfg.leases[i].grantor, cfg.leases[i].grantee, m)
    &&& forall|t: int|
        0 <= t <= cfg.duration ==> grantor_clock(cfg, i, t + m) <= #[trigger] grantor_clock(
            cfg,
            i,
            t,
        ) + cfg.params.t_guard + cfg.params.t_delta
}

/// The entry delivers a renew of lease `i`.
pub open spec fn is_renew(e: Timed, i: int) -> bool {
    e.item matches Scheduled::Arrival { kind, tag, fate, .. } && kind == MsgKind::Renew && tag == i
        && fate == MsgFate::Delivered
}

/// The grantor's promise `D'` covers what the grantee holds, and what any renew
/// under way would let it hold.
pub open spec fn covered(s: Sim, i: int) -> bool {
    let l = s.leases[i];
    let d = l.grantor.grant_expiry as int;
    &&& l.grantee.status == LeaseStatus::Active ==> outlasts(
        s.cfg,
        i,
        d,
        l.grantee.hold_expiry as int,
    )
    &&& l.grantee.status == LeaseStatus::Active ==> l.grantee.hold_expiry <= grantee_clock(
        s.cfg,
        i,
        s.now as int,
    ) + s.cfg.params.hold_len()
    &&& forall|k: int|
        0 <= k < live(s.queue).len() && is_renew(#[trigger] live(s.queue)[k], i) ==> outlasts(
            s.cfg,
            i,
            d,
            grantee_clock(s.cfg, i, live(s.queue)[k].at as int) + s.cfg.params.hold_len(),
        )
}

/// The next item delivers a renew reply of lease `i` that the grantor accepts,
/// and the bound it thereby tightens its promise to falls short of what a later
/// renew, already under way, will let the grantee hold. (A reply from an earlier
/// grant of the lease, arriving into a later one, can do this.)
pub open spec fn undercuts(s: Sim, i: int) -> bool {
    &&& s.queue.len() > 0
    &&& s.queue[0].item matches Scheduled::Arrival { to, kind, tag, fate, .. } && kind
        == MsgKind::RenewReply && tag == i && fate == MsgFate::Delivered && s.nodes[to as int].up
    &&& s.leases[i].grantor.status == LeaseStatus::Active
    &&& exists|k: int|
        0 <= k < live(s.queue).len() && is_renew(#[trigger] live(s.queue)[k], i) && !outlasts(
            s.cfg,
            i,
            grantor_clock(s.cfg, i, s.queue[0].at as int) + s.cfg.params.confirmed_len(),
            grantee_clock(s.cfg, i, live(s.queue)[k].at as int) + s.cfg.params.hold_len(),
        )
}

/// What the safety of lease `i` rests on.
pub open spec fn conditions(
    cfg: Config,
    normal: spec_fn(NormalDraw) -> Time,
    i: int,
    m: int,
) -> bool {
    &&& 0 <= i < cfg.leases.len()
    &&& clocks_agree(cfg, i, cfg.duration + m)
    &&& renews_are_prompt(cfg, normal, i, m)
}

/// Neither party's clock of lease `i` runs backwards.
pub open spec fn clocks_run(cfg: Config, i: int) -> bool {
    &&& cfg.nodes[cfg.leases[i].grantor as int].clock.drift.mantissa >= 0
    &&& cfg.nodes[cfg.leases[i].grantee as int].clock.drift.mantissa >= 0
}

/// A longer promise covers what a shorter one did.
pub proof fn lemma_outlasts_more(cfg: Config, i: int, d: int, c: int, d2: int, c2: int)
    requires
        clocks_run(cfg, i),
        outlasts(cfg, i, d, c),
        d <= d2,
        c2 <= c,
    ensures
        outlasts(cfg, i, d2, c2),
{
    law_conversion_monotone(cfg.nodes[cfg.leases[i].grantor as int].clock, d, d2);
    law_conversion_monotone(cfg.nodes[cfg.leases[i].grantee as int].clock, c2, c);
    assert forall|t: int| 0 <= t && #[trigger] grantee_clock(cfg, i, t) <= c2 implies grantor_clock(
        cfg,
        i,
        t,
    ) <= d2 by {}
}

/// The part of [`covered`] that is about the live entries, after entries that
/// are covered too were added and the promise was not shortened.
proof fn lemma_covered_entry(s: Sim, next: Sim, e: Timed, i: int)
    requires
        clocks_run(s.cfg, i),
        covered(s, i),
        0 <= i < s.leases.len(),
        i < next.leases.len(),
        in_time_order(live(s.queue)),
        next.cfg == s.cfg,
        next.now == s.now,
        live(next.queue) == live(s.queue) || live(next.queue) == enqueue(live(s.queue), e),
        s.leases[i].grantor.grant_expiry <= next.leases[i].grantor.grant_expiry,
        next.leases[i].grantee == s.leases[i].grantee || next.leases[i].grantee.status
            != LeaseStatus::Active,
        is_renew(e, i) ==> outlasts(
            s.cfg,
            i,
            next.leases[i].grantor.grant_expiry as int,
            grantee_clock(s.cfg, i, e.at as int) + s.cfg.params.hold_len(),
        ),
    ensures
        covered(next, i),
{
    let (d, d2) = (
        s.leases[i].grantor.grant_expiry as int,
        next.leases[i].grantor.grant_expiry as int,
    );
    assert forall|k: int|
        0 <= k < live(next.queue).len() && is_renew(#[trigger] live(next.queue)[k], i) implies outlasts(
        s.cfg,
        i,
        d2,
        grantee_clock(s.cfg, i, live(next.queue)[k].at as int) + s.cfg.params.hold_len(),
    ) by {
        let x = live(next.queue)[k];
        if live(next.queue) == live(s.queue) {
            let c = grantee_clock(s.cfg, i, live(s.queue)[k].at as int) + s.cfg.params.hold_len();
            lemma_outlasts_more(s.cfg, i, d, c, d2, c);
        } else {
            lemma_enqueue_entry(live(s.queue), e, k);
            if x != e {
                let j = choose|j: int| 0 <= j < live(s.queue).len() && #[trigger] live(s.queue)[j] == x;
                let c = grantee_clock(s.cfg, i, live(s.queue)[j].at as int) + s.cfg.params.hold_len();
                lemma_outlasts_more(s.cfg, i, d, c, d2, c);
            }
        }
    }
    let c = s.leases[i].grantee.hold_expiry as int;
    if next.leases[i].grantee.status == LeaseStatus::Active {
        lemma_outlasts_more(s.cfg, i, d, c, d2, c);
    }
}

/// What opening a guard does.
pub proof fn lemma_begin_guard_effect(s: Sim, j: usize)
    requires
        s.ok(),
        j < s.leases.len(),
    ensures
        ({
            let b = s.begin_guard(j);
            let l = s.leases[j as int];
            let e = Timed {
                at: s.arrival_of(l.id.grantor, l.id.grantee) as Time,
                item: Scheduled::Arrival {
                    from: l.id.grantor,
                    to: l.id.grantee,
                    kind: MsgKind::Guard,
                    tag: j,
                    fate: s.fate_of(l.id.grantor, l.id.grantee, MsgKind::Guard),
                },
            };
            &&& b.cfg == s.cfg
            &&& b.normal == s.normal
            &&& b.now == s.now
            &&& b.leases == s.with_grantor(
                j as int,
                GrantorState {
                    status: LeaseStatus::Guarding,
                    intended: true,
                    awaiting_reply: false,
                    reguard_on_thaw: false,
                    guard_since: s.local(l.id.grantor) as Time,
                    ..l.grantor
                },
            ).leases
            &&& live(b.queue) == if concerns_lease(e) {
                enqueue(live(s.queue), e)
            } else {
                live(s.queue)
            }
            &&& in_time_order(live(s.queue))
            &&& s.now < e.at
            &&& exists|kind: EventKind|
                !is_activation(kind) && !is_write_event(kind) && b.pending == #[trigger] s.emit(
                    kind,
                ).pending
            &&& b.rounds == s.rounds
            &&& writes(b.queue) == writes(s.queue)
        }),
{
    reveal(Sim::begin_guard);
    lemma_parties(s, j as int);
    let l = s.leases[j as int];
    let g = GrantorState {
        status: LeaseStatus::Guarding,
        intended: true,
        awaiting_reply: false,
        reguard_on_thaw: false,
        guard_since: s.local(l.id.grantor) as Time,
        ..l.grantor
    };
    lemma_with_grantor(s, j as int, g);
    let s1 = s.with_grantor(j as int, g);
    lemma_send(s1, l.id.grantor, l.id.grantee, MsgKind::Guard, j);
    lemma_send_live(s1, l.id.grantor, l.id.grantee, MsgKind::Guard, j);
    let ev = EventKind::MessageSent {
        from: l.id.grantor,
        to: l.id.grantee,
        kind: MsgKind::Guard,
        sent: s.now,
        arrival: s1.arrival_of(l.id.grantor, l.id.grantee) as Time,
        fate: s1.fate_of(l.id.grantor, l.id.grantee, MsgKind::Guard),
    };
    assert(s.begin_guard(j).pending == s.emit(ev).pending);
}

/// What sending a renew does.
pub proof fn lemma_send_renew_effect(s: Sim, j: usize)
    requires
        s.ok(),
        j < s.leases.len(),
    ensures
        ({
            let b = s.send_renew(j);
            let l = s.leases[j as int];
            let local = s.local(l.id.grantor);
            let e = Timed {
                at: s.arrival_of(l.id.grantor, l.id.grantee) as Time,
                item: Scheduled::Arrival {
                    from: l.id.grantor,
                    to: l.id.grantee,
                    kind: MsgKind::Renew,
                    tag: j,
                    fate: s.fate_of(l.id.grantor, l.id.grantee, MsgKind::Renew),
                },
            };
            &&& b.cfg == s.cfg
            &&& b.normal == s.normal
            &&& b.now == s.now
            &&& b.leases == s.with_grantor(
                j as int,
                GrantorState {
                    grant_expiry: max_of(
                        l.grantor.grant_expiry as int,
                        local + s.params().grant_len(),
                    ) as Time,
                    next_renew_due: (local + s.params().renew_interval) as Time,
                    awaiting_reply: true,
                    ..l.grantor
                },
            ).leases
            &&& b.leases[j as int].grantor.grant_expiry == max_of(
                l.grantor.grant_expiry as int,
                local + s.params().grant_len(),
            )
            &&& live(b.queue) == if concerns_lease(e) {
                enqueue(live(s.queue), e)
            } else {
                live(s.queue)
            }
            &&& in_time_order(live(s.queue))
            &&& s.now < e.at
            &&& e.at == s.arrival_of(l.id.grantor, l.id.grantee)
            &&& exists|kind: EventKind|
                !is_activation(kind) && !is_write_event(kind) && b.pending == #[trigger] s.emit(
                    kind,
                ).pending
            &&& b.rounds == s.rounds
            &&& writes(b.queue) == writes(s.queue)
        }),
{
    reveal(Sim::send_renew);
    lemma_parties(s, j as int);
    lemma_arrival(s, s.leases[j as int].id.grantor, s.leases[j as int].id.grantee);
    let l = s.leases[j as int];
    let b = s.local(l.id.grantor);
    let g = GrantorState {
        grant_expiry: max_of(l.grantor.grant_expiry as int, b + s.params().grant_len()) as Time,
        next_renew_due: (b + s.params().renew_interval) as Time,
        awaiting_reply: true,
        ..l.grantor
    };
    lemma_with_grantor(s, j as int, g);
    let s1 = s.with_grantor(j as int, g);
    lemma_send(s1, l.id.grantor, l.id.grantee, MsgKind::Renew, j);
    lemma_send_live(s1, l.id.grantor, l.id.grantee, MsgKind::Renew, j);
    let ev = EventKind::MessageSent {
        from: l.id.grantor,
        to: l.id.grantee,
        kind: MsgKind::Renew,
        sent: s.now,
        arrival: s1.arrival_of(l.id.grantor, l.id.grantee) as Time,
        fate: s1.fate_of(l.id.grantor, l.id.grantee, MsgKind::Renew),
    };
    assert(s.send_renew(j).pending == s.emit(ev).pending);
}

/// How long a message sent now takes at most.
pub proof fn lemma_arrival_within(s: Sim, from: NodeId, to: NodeId, m: int)
    requires
        delay_at_most(s.cfg, s.normal, from, to, m),
    ensures
        s.arrival_of(from, to) <= s.now + m,
{
}

/// A renew that goes out is covered by the promise it extends.
proof fn lemma_new_renew_covered(s: Sim, i: int, m: int)
    requires
        s.ok(),
        conditions(s.cfg, s.normal, i, m),
    ensures
        outlasts(
            s.cfg,
            i,
            grantor_clock(s.cfg, i, s.now as int) + s.params().grant_len(),
            grantee_clock(
                s.cfg,
                i,
                s.arrival_of(s.cfg.leases[i].grantor, s.cfg.leases[i].grantee),
            ) + s.params().hold_len(),
        ),
{
    let (from, to) = (s.cfg.leases[i].grantor, s.cfg.leases[i].grantee);
    let at = s.arrival_of(from, to);
    lemma_arrival_within(s, from, to, m);
    lemma_arrival(s, from, to);
    let b = grantor_clock(s.cfg, i, s.now as int);
    law_reading_monotone(s.cfg.nodes[from as int].clock, at, s.now + m);
    assert(grantor_clock(s.cfg, i, at) <= b + s.params().t_guard + s.params().t_delta);
    let c = grantee_clock(s.cfg, i, at) + s.params().hold_len();
    lemma_outlasts_more(
        s.cfg,
        i,
        grantor_clock(s.cfg, i, at) + s.params().confirmed_len(),
        c,
        b + s.params().grant_len(),
        c,
    );
}

/// The property that the moves keep.
spec fn covered_in(
    cfg: Config,
    normal: spec_fn(NormalDraw) -> Time,
    i: int,
) -> spec_fn(Sim) -> bool {
    |s: Sim| s.cfg == cfg && s.normal == normal && covered(s, i)
}

proof fn lemma_send_renew_covered(s: Sim, i: int, m: int, j: usize)
    requires
        s.ok(),
        conditions(s.cfg, s.normal, i, m),
        covered(s, i),
        j < s.leases.len(),
    ensures
        covered(s.send_renew(j), i),
{
    let b = s.send_renew(j);
    lemma_send_renew_effect(s, j);
    lemma_parties(s, j as int);
    let l = s.leases[j as int];
    let e = Timed {
        at: s.arrival_of(l.id.grantor, l.id.grantee) as Time,
        item: Scheduled::Arrival {
            from: l.id.grantor,
            to: l.id.grantee,
            kind: MsgKind::Renew,
            tag: j,
            fate: s.fate_of(l.id.grantor, l.id.grantee, MsgKind::Renew),
        },
    };
    if j == i {
        lemma_new_renew_covered(s, i, m);
        let c = grantee_clock(s.cfg, i, e.at as int) + s.params().hold_len();
        lemma_outlasts_more(
            s.cfg,
            i,
            grantor_clock(s.cfg, i, s.now as int) + s.params().grant_len(),
            c,
            b.leases[i].grantor.grant_expiry as int,
            c,
        );
    }
    lemma_covered_entry(s, b, e, i);
}

proof fn lemma_covered_kept(cfg: Config, normal: spec_fn(NormalDraw) -> Time, i: int, m: int)
    requires
        conditions(cfg, normal, i, m),
    ensures
        kept_by_moves(covered_in(cfg, normal, i), true),
{
    let prop = covered_in(cfg, normal, i);
    assert forall|a: Sim, b: Sim| a.ok() && b.ok() && prop(a) && #[trigger] moves(a, b, true) implies prop(
        b,
    ) by {
        if is_quiet(a, b) || is_write_move(a, b) {
        } else if is_retreat(a, b) {
            assert(b.leases[i].id == a.leases[i].id);
        } else if exists|j: usize| is_guard(a, b, j) {
            let j = choose|j: usize| is_guard(a, b, j);
            lemma_begin_guard_effect(a, j);
            let l = a.leases[j as int];
            let e = Timed {
                at: a.arrival_of(l.id.grantor, l.id.grantee) as Time,
                item: Scheduled::Arrival {
                    from: l.id.grantor,
                    to: l.id.grantee,
                    kind: MsgKind::Guard,
                    tag: j,
                    fate: a.fate_of(l.id.grantor, l.id.grantee, MsgKind::Guard),
                },
            };
            lemma_covered_entry(a, b, e, i);
        } else {
            let j = choose|j: usize| is_renewal(a, b, j);
            lemma_send_renew_effect(a, j);
            lemma_send_renew_covered(a, i, m, j);
        }
    }
}

/// Time passes and the first entry comes off the timeline.
proof fn lemma_popped_covered(s: Sim, i: int, m: int)
    requires
        s.ok(),
        s.queue.len() > 0,
        conditions(s.cfg, s.normal, i, m),
        covered(s, i),
    ensures
        covered(s.popped(), i),
{
    lemma_live_drop_first(s.queue);
    law_reading_monotone(
        s.cfg.nodes[s.cfg.leases[i].grantee as int].clock,
        s.now as int,
        s.queue[0].at as int,
    );
    let p = s.popped();
    assert forall|k: int|
        0 <= k < live(p.queue).len() && is_renew(#[trigger] live(p.queue)[k], i) implies outlasts(
        s.cfg,
        i,
        s.leases[i].grantor.grant_expiry as int,
        grantee_clock(s.cfg, i, live(p.queue)[k].at as int) + s.cfg.params.hold_len(),
    ) by {
        if concerns_lease(s.queue[0]) {
            assert(live(p.queue)[k] == live(s.queue)[k + 1]);
        } else {
            assert(live(p.queue)[k] == live(s.queue)[k]);
        }
    }
}

/// A reply is deferred.
proof fn lemma_reply_covered(s: Sim, i: int, from: NodeId, to: NodeId, kind: MsgKind, tag: usize)
    requires
        clocks_run(s.cfg, i),
        s.ok(),
        0 <= i < s.leases.len(),
        covered(s, i),
        kind.is_reply(),
        message_ok(s.cfg, from, to, kind, tag),
    ensures
        covered(s.reply_after_delay(from, to, kind, tag), i),
{
    crate::upkeep::lemma_reply(s, from, to, kind, tag);
    lemma_reply_live(s, from, to, kind, tag);
    let think = s.cfg.nodes[from as int].response_delay;
    let e = Timed {
        at: (s.now + think.drawn(s.rng, s.normal)) as Time,
        item: Scheduled::Send { from, to, kind, tag },
    };
    lemma_covered_entry(s, s.reply_after_delay(from, to, kind, tag), e, i);
}

/// A message other than a renew is sent.
proof fn lemma_send_covered(s: Sim, i: int, from: NodeId, to: NodeId, kind: MsgKind, tag: usize)
    requires
        clocks_run(s.cfg, i),
        s.ok(),
        0 <= i < s.leases.len(),
        covered(s, i),
        kind != MsgKind::Renew,
        message_ok(s.cfg, from, to, kind, tag),
    ensures
        covered(s.send(from, to, kind, tag), i),
{
    lemma_send(s, from, to, kind, tag);
    lemma_send_live(s, from, to, kind, tag);
    let e = Timed {
        at: s.arrival_of(from, to) as Time,
        item: Scheduled::Arrival { from, to, kind, tag, fate: s.fate_of(from, to, kind) },
    };
    lemma_covered_entry(s, s.send(from, to, kind, tag), e, i);
}

proof fn lemma_emit_covered(s: Sim, i: int, kind: EventKind)
    requires
        s.ok(),
        covered(s, i),
    ensures
        s.emit(kind).ok(),
        covered(s.emit(kind), i),
{
    lemma_emit(s, kind);
}

proof fn lemma_on_guard_covered(s: Sim, i: int, j: usize)
    requires
        clocks_run(s.cfg, i),
        s.ok(),
        0 <= i < s.leases.len(),
        covered(s, i),
        j < s.leases.len(),
    ensures
        covered(s.on_guard(j), i),
{
    reveal(Sim::on_guard);
    lemma_parties(s, j as int);
    let l = s.leases[j as int];
    let g = GranteeState {
        guard_deadline: (s.local(l.id.grantee) + s.params().guard_len()) as Time,
        status: LeaseStatus::Guarding,
        ..l.grantee
    };
    lemma_with_grantee(s, j as int, g);
    let s1 = s.with_grantee(j as int, g);
    assert(covered(s1, i));
    let ev = EventKind::GranteeLease { lease: l.id, status: LeaseStatus::Guarding };
    lemma_emit_covered(s1, i, ev);
    lemma_reply_covered(s1.emit(ev), i, l.id.grantee, l.id.grantor, MsgKind::GuardReply, j);
}

proof fn lemma_on_guard_reply_covered(s: Sim, i: int, m: int, j: usize)
    requires
        s.ok(),
        conditions(s.cfg, s.normal, i, m),
        covered(s, i),
        j < s.leases.len(),
    ensures
        covered(s.on_guard_reply(j), i),
{
    reveal(Sim::on_guard_reply);
    lemma_parties(s, j as int);
    let l = s.leases[j as int];
    let d = s.local(l.id.grantor) as Time;
    let g = GrantorState {
        status: LeaseStatus::Active,
        last_reply: d,
        next_renew_due: d,
        ..l.grantor
    };
    lemma_with_grantor(s, j as int, g);
    let s1 = s.with_grantor(j as int, g);
    assert(covered(s1, i));
    let ev = EventKind::GrantorLease { lease: l.id, status: LeaseStatus::Active };
    lemma_emit_covered(s1, i, ev);
    lemma_send_renew_covered(s1.emit(ev), i, m, j);
}

/// The grantee takes a renew: `due` says that the promise covers it, if it is
/// one of lease `i`.
proof fn lemma_on_renew_covered(s: Sim, i: int, j: usize)
    requires
        clocks_run(s.cfg, i),
        s.ok(),
        0 <= i < s.leases.len(),
        covered(s, i),
        j < s.leases.len(),
        j == i ==> outlasts(
            s.cfg,
            i,
            s.leases[i].grantor.grant_expiry as int,
            grantee_clock(s.cfg, i, s.now as int) + s.params().hold_len(),
        ),
    ensures
        covered(s.on_renew(j), i),
{
    reveal(Sim::on_renew);
    lemma_parties(s, j as int);
    let l = s.leases[j as int];
    if s.accepts_renew(j as int) {
        let g = GranteeState {
            hold_expiry: (s.local(l.id.grantee) + s.params().hold_len()) as Time,
            status: LeaseStatus::Active,
            ..l.grantee
        };
        lemma_with_grantee(s, j as int, g);
        let s1 = s.with_grantee(j as int, g);
        assert(covered(s1, i));
        let ev = EventKind::GranteeLease { lease: l.id, status: LeaseStatus::Active };
        lemma_emit_covered(s1, i, ev);
        let s2 = if l.grantee.status != LeaseStatus::Active {
            s1.emit(ev)
        } else {
            s1
        };
        lemma_reply_covered(s2, i, l.id.grantee, l.id.grantor, MsgKind::RenewReply, j);
    }
}

proof fn lemma_on_renew_reply_covered(s: Sim, i: int, m: int, j: usize)
    requires
        s.ok(),
        conditions(s.cfg, s.normal, i, m),
        covered(s, i),
        j < s.leases.len(),
        j == i && s.leases[i].grantor.status == LeaseStatus::Active ==> forall|k: int|
            0 <= k < live(s.queue).len() && is_renew(#[trigger] live(s.queue)[k], i) ==> outlasts(
                s.cfg,
                i,
                grantor_clock(s.cfg, i, s.now as int) + s.cfg.params.confirmed_len(),
                grantee_clock(s.cfg, i, live(s.queue)[k].at as int) + s.cfg.params.hold_len(),
            ),
    ensures
        covered(s.on_renew_reply(j), i),
{
    reveal(Sim::on_renew_reply);
    lemma_parties(s, j as int);
    let l = s.leases[j as int];
    if j == i && l.grantor.status == LeaseStatus::Active {
        let d = grantor_clock(s.cfg, i, s.now as int) + s.params().confirmed_len();
        let b = s.on_renew_reply(j);
        let d2 = b.leases[i].grantor.grant_expiry as int;
        assert(d2 == min_of(l.grantor.grant_expiry as int, d));
        if l.grantee.status == LeaseStatus::Active {
            let now = grantee_clock(s.cfg, i, s.now as int) + s.params().hold_len();
            assert(outlasts(s.cfg, i, d, now));
            lemma_outlasts_more(s.cfg, i, d, now, d, l.grantee.hold_expiry as int);
        }
        assert forall|k: int|
            0 <= k < live(b.queue).len() && is_renew(#[trigger] live(b.queue)[k], i) implies outlasts(
            s.cfg,
            i,
            d2,
            grantee_clock(s.cfg, i, live(b.queue)[k].at as int) + s.cfg.params.hold_len(),
        ) by {
            assert(live(s.queue)[k] == live(b.queue)[k]);
        }
        assert(covered(b, i));
    } else {
        assert(s.on_renew_reply(j).leases[i].grantor.grant_expiry
            == s.leases[i].grantor.grant_expiry);
    }
}

proof fn lemma_on_revoke_covered(s: Sim, i: int, j: usize)
    requires
        clocks_run(s.cfg, i),
        s.ok(),
        0 <= i < s.leases.len(),
        covered(s, i),
        j < s.leases.len(),
    ensures
        covered(s.on_revoke(j), i),
{
    reveal(Sim::on_revoke);
    lemma_parties(s, j as int);
    let l = s.leases[j as int];
    let g = GranteeState {
        status: LeaseStatus::Expired,
        hold_expiry: s.local(l.id.grantee) as Time,
        ..l.grantee
    };
    lemma_with_grantee(s, j as int, g);
    let s1 = s.with_grantee(j as int, g);
    assert(covered(s1, i));
    let ev = EventKind::GranteeLease { lease: l.id, status: LeaseStatus::Expired };
    lemma_emit_covered(s1, i, ev);
    let s2 = if l.holding() {
        s1.emit(ev)
    } else {
        s
    };
    lemma_reply_covered(s2, i, l.id.grantee, l.id.grantor, MsgKind::RevokeReply, j);
}

proof fn lemma_on_revoke_reply_covered(s: Sim, i: int, j: usize)
    requires
        clocks_run(s.cfg, i),
        s.ok(),
        0 <= i < s.leases.len(),
        covered(s, i),
        j < s.leases.len(),
    ensures
        covered(s.on_revoke_reply(j), i),
{
    reveal(Sim::on_revoke_reply);
    assert(s.on_revoke_reply(j).leases[i].grantor.grant_expiry
        == s.leases[i].grantor.grant_expiry);
}

proof fn lemma_begin_revoke_covered(s: Sim, i: int, j: usize)
    requires
        clocks_run(s.cfg, i),
        s.ok(),
        0 <= i < s.leases.len(),
        covered(s, i),
        j < s.leases.len(),
    ensures
        covered(s.begin_revoke(j), i),
{
    reveal(Sim::begin_revoke);
    lemma_parties(s, j as int);
    let l = s.leases[j as int];
    let g = GrantorState { intended: false, ..l.grantor };
    lemma_with_grantor(s, j as int, g);
    let s1 = s.with_grantor(j as int, g);
    assert(covered(s1, i));
    lemma_send_covered(s1, i, l.id.grantor, l.id.grantee, MsgKind::Revoke, j);
}

/// One step keeps the promise covering, unless it is the one that undercuts it.
pub proof fn lemma_step_covered(s: Sim, i: int, m: int)
    requires
        s.ok(),
        sized(s),
        s.queue.len() > 0,
        s.queue[0].at <= s.cfg.duration,
        conditions(s.cfg, s.normal, i, m),
        covered(s, i),
        !undercuts(s, i),
    ensures
        covered(s.step(), i),
{
    lemma_popped(s);
    lemma_popped_covered(s, i, m);
    lemma_live_drop_first(s.queue);
    lemma_covered_kept(s.cfg, s.normal, i, m);
    let p = s.popped();
    let prop = covered_in(s.cfg, s.normal, i);
    assert(prop(p));
    match s.queue[0].item {
        Scheduled::Poll { node } => {
            keep_poll(prop, true, p, node);
            assert(prop(p.poll(node)));
        },
        Scheduled::WriteTick => {
            keep_write_tick(prop, true, p);
            assert(prop(p.write_tick()));
        },
        Scheduled::Command(cmd) => {
            if let Command::Revoke(id) = cmd {
                reveal(Sim::apply);
                crate::upkeep::lemma_lease_position(p.leases, id, 0);
                if p.declared(id) {
                    lemma_begin_revoke_covered(p, i, p.lease_index(id) as usize);
                }
            } else {
                keep_apply(prop, true, p, cmd);
                assert(prop(p.apply(cmd)));
            }
        },
        Scheduled::Send { from, to, kind, tag } => {
            lemma_send_covered(p, i, from, to, kind, tag);
        },
        Scheduled::Arrival { from, to, kind, tag, fate } => {
            reveal(Sim::arrive);
            lemma_emit_covered(p, i, EventKind::MessageDropped { from, to, kind });
            let ev = EventKind::MessageDelivered { from, to, kind };
            lemma_emit_covered(p, i, ev);
            let q = p.emit(ev);
            if fate == MsgFate::Delivered && p.nodes[to as int].up {
                if kind.is_write_path() {
                    keep_receive_write(prop, true, q, from, to, kind, tag);
                    assert(prop(q.receive(from, to, kind, tag)));
                } else {
                    lemma_receive_covered(s, i, m, from, to, kind, tag);
                }
            }
        },
    }
}

/// A party acts on a lease message.
proof fn lemma_receive_covered(
    s: Sim,
    i: int,
    m: int,
    from: NodeId,
    to: NodeId,
    kind: MsgKind,
    tag: usize,
)
    requires
        s.ok(),
        sized(s),
        s.queue.len() > 0,
        s.queue[0].at <= s.cfg.duration,
        s.queue[0].item == (Scheduled::Arrival { from, to, kind, tag, fate: MsgFate::Delivered }),
        s.nodes[to as int].up,
        !kind.is_write_path(),
        conditions(s.cfg, s.normal, i, m),
        covered(s, i),
        covered(s.popped(), i),
        !undercuts(s, i),
    ensures
        covered(
            s.popped().emit(EventKind::MessageDelivered { from, to, kind }).receive(
                from,
                to,
                kind,
                tag,
            ),
            i,
        ),
{
    lemma_popped(s);
    lemma_live_drop_first(s.queue);
    let p = s.popped();
    let ev = EventKind::MessageDelivered { from, to, kind };
    lemma_emit_covered(p, i, ev);
    let q = p.emit(ev);
    match kind {
        MsgKind::Guard => lemma_on_guard_covered(q, i, tag),
        MsgKind::GuardReply => lemma_on_guard_reply_covered(q, i, m, tag),
        MsgKind::Renew => {
            assert(live(s.queue)[0] == s.queue[0]);
            lemma_on_renew_covered(q, i, tag);
        },
        MsgKind::RenewReply => {
            if tag == i && q.leases[i].grantor.status == LeaseStatus::Active {
                assert forall|k: int|
                    0 <= k < live(q.queue).len() && is_renew(
                        #[trigger] live(q.queue)[k],
                        i,
                    ) implies outlasts(
                    s.cfg,
                    i,
                    grantor_clock(s.cfg, i, q.now as int) + s.cfg.params.confirmed_len(),
                    grantee_clock(s.cfg, i, live(q.queue)[k].at as int)
                        + s.cfg.params.hold_len(),
                ) by {
                    assert(live(s.queue)[k + 1] == live(q.queue)[k]);
                }
            }
            lemma_on_renew_reply_covered(q, i, m, tag);
        },
        MsgKind::Revoke => lemma_on_revoke_covered(q, i, tag),
        _ => lemma_on_revoke_reply_covered(q, i, tag),
    }
}

// ---- Laws -----------------------------------------------------------------

/// At the start of a run nothing is held, so everything held is covered.
pub proof fn law_covered_at_start(cfg: Config, normal: spec_fn(NormalDraw) -> Time, i: int)
    requires
        cfg.valid(),
        crate::upkeep::normal_ok(normal),
        sized(Sim::blank(cfg, normal)),
        0 <= i < cfg.leases.len(),
    ensures
        covered(Sim::initial(cfg, normal), i),
{
    crate::progress::lemma_initial(cfg, normal);
    crate::moves::lemma_initial_live(cfg, normal);
}

/// Safety: with clocks that drift apart by no more than `t_delta` and renews
/// that arrive within the guard time, the grantor's promise covers the
/// grantee's hold in every state of a run, as long as no stale renew reply
/// undercuts the promise.
pub proof fn law_promise_covers_hold(s: Sim, i: int, m: int, t: int, n: nat)
    requires
        s.ok(),
        sized(s),
        t <= s.cfg.duration,
        conditions(s.cfg, s.normal, i, m),
        covered(s, i),
        forall|k: nat| k < n ==> !undercuts(#[trigger] s.steps(t, k), i),
    ensures
        covered(s.steps(t, n), i),
    decreases n,
{
    if n > 0 {
        law_promise_covers_hold(s, i, m, t, (n - 1) as nat);
        let before = s.steps(t, (n - 1) as nat);
        lemma_steps_next(s, t, (n - 1) as nat);
        lemma_steps_ok(s, t, (n - 1) as nat);
        if !before.settled(t) {
            lemma_step_covered(before, i, m);
        }
    }
}

/// What it means that a promise covers a hold: at any moment at which the
/// grantee's clock has not passed its expiry `C'`, the grantor's clock has not
/// passed `D'`.
pub proof fn law_covered_hold_is_promised(s: Sim, i: int, t: int)
    requires
        covered(s, i),
        s.leases[i].grantee.status == LeaseStatus::Active,
        0 <= t,
        grantee_clock(s.cfg, i, t) <= s.leases[i].grantee.hold_expiry,
    ensures
        grantor_clock(s.cfg, i, t) <= s.leases[i].grantor.grant_expiry,
{
}

/// On perfect clocks, a covered hold means `D' >= C'`.
pub proof fn law_expiries_are_ordered_on_perfect_clocks(s: Sim, i: int)
    requires
        s.ok(),
        covered(s, i),
        0 <= i < s.leases.len(),
        s.leases[i].grantee.status == LeaseStatus::Active,
        s.cfg.nodes[s.cfg.leases[i].grantor as int].clock == (Clock {
            offset: 0,
            drift: Drift { mantissa: 1, shift: 0 },
        }),
        s.cfg.nodes[s.cfg.leases[i].grantee as int].clock == (Clock {
            offset: 0,
            drift: Drift { mantissa: 1, shift: 0 },
        }),
        0 <= s.leases[i].grantee.hold_expiry <= UNIT,
    ensures
        s.leases[i].grantor.grant_expiry >= s.leases[i].grantee.hold_expiry,
{
    let c = s.leases[i].grantee.hold_expiry as int;
    law_perfect_clock_is_identity(s.cfg.nodes[s.cfg.leases[i].grantor as int].clock, c);
    assert(grantee_clock(s.cfg, i, c) == c);
}

/// Converted to global time, each through its owner's clock, the expiry `D'` of a
/// promise that covers a hold is not earlier than the hold's expiry `C'`.
pub proof fn law_covered_expiries_are_ordered(s: Sim, i: int)
    requires
        covered(s, i),
        s.leases[i].grantee.status == LeaseStatus::Active,
    ensures
        grantor_time(s.cfg, i, s.leases[i].grantor.grant_expiry as int) >= grantee_time(
            s.cfg,
            i,
            s.leases[i].grantee.hold_expiry as int,
        ),
{
}

/// Clocks of the same rate agree whatever their skew, as long as `t_delta` is
/// not negative.
pub proof fn law_same_rate_clocks_agree(cfg: Config, i: int, until: int)
    requires
        cfg.nodes[cfg.leases[i].grantor as int].clock.drift
            == cfg.nodes[cfg.leases[i].grantee as int].clock.drift,
        cfg.nodes[cfg.leases[i].grantor as int].clock.drift.mantissa >= 0,
        cfg.params.t_delta >= 0,
    ensures
        clocks_agree(cfg, i, until),
{
    let g = cfg.nodes[cfg.leases[i].grantor as int].clock;
    let h = cfg.nodes[cfg.leases[i].grantee as int].clock;
    assert forall|c: int| 0 <= c <= until implies #[trigger] outlasts(
        cfg,
        i,
        grantor_clock(cfg, i, c) + cfg.params.confirmed_len(),
        grantee_clock(cfg, i, c) + cfg.params.hold_len(),
    ) by {
        assert forall|t: int|
            0 <= t && #[trigger] grantee_clock(cfg, i, t) <= grantee_clock(cfg, i, c)
                + cfg.params.hold_len() implies grantor_clock(cfg, i, t) <= grantor_clock(
            cfg,
            i,
            c,
        ) + cfg.params.confirmed_len() by {
            assert(g == (Clock { offset: g.offset, ..h }));
            crate::clock::law_skew_cancels(h, g.offset, c, t);
        }
        let shifted = h.reading(c) + cfg.params.hold_len() - h.offset + g.offset;
        assert(g.elapsed(c) == h.elapsed(c));
        assert(g.global_of(shifted) == h.global_of(h.reading(c) + cfg.params.hold_len()));
        law_conversion_monotone(g, shifted, g.reading(c) + cfg.params.confirmed_len());
    }
}

/// Clocks whose rates differ agree if there is a span of `k` true ticks within
/// which the grantee's clock is sure to run `t_lease - t_delta` and the
/// grantor's sure to run no more than `t_lease + t_delta` (either with two ticks
/// to spare for rounding): the drift is within the budget of `t_delta`.
pub proof fn law_drift_within_budget_agrees(cfg: Config, i: int, until: int, k: int)
    requires
        0 <= until,
        0 <= k,
        until + k < UNIT,
        cfg.params.hold_len() >= 0,
        ({
            let g = cfg.nodes[cfg.leases[i].grantor as int].clock.drift;
            let h = cfg.nodes[cfg.leases[i].grantee as int].clock.drift;
            let (dg, dh) = (two_pow(g.shift as nat), two_pow(h.shift as nat));
            &&& g.mantissa >= 0
            &&& h.mantissa >= 0
            &&& g.mantissa * (until + k) <= 562_949_953_421_312 * dg
            &&& h.mantissa * (until + k) <= 562_949_953_421_312 * dh
            &&& h.mantissa * k >= (cfg.params.hold_len() + 2) * dh
            &&& g.mantissa * k <= (cfg.params.confirmed_len() - 2) * dg
        }),
    ensures
        clocks_agree(cfg, i, until),
{
    let g = cfg.nodes[cfg.leases[i].grantor as int].clock;
    let h = cfg.nodes[cfg.leases[i].grantee as int].clock;
    assert forall|c: int| 0 <= c <= until implies #[trigger] outlasts(
        cfg,
        i,
        grantor_clock(cfg, i, c) + cfg.params.confirmed_len(),
        grantee_clock(cfg, i, c) + cfg.params.hold_len(),
    ) by {
        lemma_advance_bounds(g, c, k, until);
        lemma_advance_bounds(h, c, k, until);
        lemma_advance_at_least(h, c, k, until, cfg.params.hold_len());
        lemma_advance_at_most(g, c, k, until, cfg.params.confirmed_len());
        assert forall|t: int|
            0 <= t && #[trigger] grantee_clock(cfg, i, t) <= grantee_clock(cfg, i, c)
                + cfg.params.hold_len() implies grantor_clock(cfg, i, t) <= grantor_clock(
            cfg,
            i,
            c,
        ) + cfg.params.confirmed_len() by {
            if t >= c + k {
                law_reading_monotone(h, c + k, t);
            }
            law_reading_monotone(g, t, c + k);
        }
        lemma_converted_at_most(h, c, k, until, cfg.params.hold_len());
        lemma_converted_at_least(g, c, k, until, cfg.params.confirmed_len());
    }
}

/// A reading that is `len` ahead of that at `c` is converted to at most `c + k`, if
/// the clock runs `len` in less than `k` ticks.
proof fn lemma_converted_at_most(clock: Clock, c: int, k: int, until: int, len: int)
    requires
        0 <= c <= until,
        0 <= k,
        until + k < UNIT,
        clock.drift.mantissa >= 0,
        clock.drift.mantissa * (until + k) <= 562_949_953_421_312 * two_pow(
            clock.drift.shift as nat,
        ),
        clock.drift.mantissa * k >= (len + 2) * two_pow(clock.drift.shift as nat),
        0 <= len,
    ensures
        clock.global_of(clock.reading(c) + len) <= c + k,
{
    let m = clock.drift.mantissa as int;
    let d = two_pow(clock.drift.shift as nat) as int;
    crate::clock::lemma_two_pow_bound(clock.drift.shift as nat, clock.drift.shift as nat);
    assert(m > 0) by (nonlinear_arith)
        requires
            m * k >= (len + 2) * d,
            len >= 0,
            d >= 1,
            k >= 0,
            m >= 0,
    ;
    lemma_reading_error(clock, c, k, until);
    let e = clock.elapsed(c) as int;
    let ahead = e + len;
    assert(ahead * d <= (c + k) * m) by (nonlinear_arith)
        requires
            ahead == e + len,
            16 * (e * d - m * c) <= 9 * d,
            m * k >= (len + 2) * d,
            d >= 1,
    ;
    assert((c + k) * m <= (until + k) * m) by (nonlinear_arith)
        requires
            c <= until,
            m >= 0,
    ;
    assert(ahead <= 562_949_953_421_312) by (nonlinear_arith)
        requires
            ahead * d <= (c + k) * m,
            (c + k) * m <= (until + k) * m,
            m * (until + k) <= 562_949_953_421_312 * d,
            d >= 1,
    ;
    assert(ahead * d >= 0) by (nonlinear_arith)
        requires
            ahead >= 0,
            d >= 1,
    ;
    assert(0 <= (c + k) * m) by (nonlinear_arith)
        requires
            c >= 0,
            k >= 0,
            m >= 0,
    ;
    lemma_nearest_monotone((ahead * d) as nat, ((c + k) * m) as nat, m as nat);
    lemma_nearest_of_multiple((c + k) as nat, m as nat);
    assert(magnitude(ahead) == ahead && as_double(ahead as nat) == ahead);
    assert(clock.reading(c) + len - clock.offset == ahead);
}

/// A reading that is `len` ahead of that at `c` is converted to at least `c + k`, if
/// the clock runs `len` in more than `k` ticks.
proof fn lemma_converted_at_least(clock: Clock, c: int, k: int, until: int, len: int)
    requires
        0 <= c <= until,
        0 <= k,
        until + k < UNIT,
        clock.drift.mantissa >= 0,
        clock.drift.mantissa * (until + k) <= 562_949_953_421_312 * two_pow(
            clock.drift.shift as nat,
        ),
        clock.drift.mantissa * k <= (len - 2) * two_pow(clock.drift.shift as nat),
    ensures
        clock.global_of(clock.reading(c) + len) >= c + k,
{
    let m = clock.drift.mantissa as int;
    let d = two_pow(clock.drift.shift as nat) as int;
    crate::clock::lemma_two_pow_bound(clock.drift.shift as nat, clock.drift.shift as nat);
    lemma_reading_error(clock, c, k, until);
    let e = clock.elapsed(c) as int;
    assert(len >= 2) by (nonlinear_arith)
        requires
            m * k <= (len - 2) * d,
            m >= 0,
            k >= 0,
            d >= 1,
    ;
    if m > 0 {
        let least: int = min_of(len, UNIT - 1 - e);
        let ahead = e + least;
        assert(ahead * d >= (c + k) * m) by {
            if least == len {
                assert(ahead * d >= (c + k) * m) by (nonlinear_arith)
                    requires
                        ahead == e + len,
                        16 * (m * c - e * d) <= 9 * d,
                        m * k <= (len - 2) * d,
                        d >= 1,
                ;
            } else {
                assert(ahead == UNIT - 1);
                assert((c + k) * m <= (until + k) * m) by (nonlinear_arith)
                    requires
                        c <= until,
                        m >= 0,
                ;
                assert(ahead * d >= (c + k) * m) by (nonlinear_arith)
                    requires
                        ahead == UNIT - 1,
                        (c + k) * m <= (until + k) * m,
                        m * (until + k) <= 562_949_953_421_312 * d,
                        d >= 1,
                ;
            }
        }
        assert(ahead * d >= 0) by (nonlinear_arith)
            requires
                ahead >= 0,
                d >= 1,
        ;
        assert(0 <= (c + k) * m) by (nonlinear_arith)
            requires
                c >= 0,
                k >= 0,
                m >= 0,
        ;
        lemma_nearest_monotone(((c + k) * m) as nat, (ahead * d) as nat, m as nat);
        lemma_nearest_of_multiple((c + k) as nat, m as nat);
        assert(magnitude(ahead) == ahead && as_double(ahead as nat) == ahead);
        assert(clock.global_of(clock.offset + ahead) >= c + k);
        law_conversion_monotone(clock, clock.offset + ahead, clock.reading(c) + len);
    }
}

/// A reading within the range in which the rate is known.
proof fn lemma_reading_error(clock: Clock, c: int, k: int, until: int)
    requires
        0 <= c <= until,
        0 <= k,
        until + k < UNIT,
        clock.drift.mantissa >= 0,
        clock.drift.mantissa * (until + k) <= 562_949_953_421_312 * two_pow(
            clock.drift.shift as nat,
        ),
    ensures
        ({
            let (m, d) = (clock.drift.mantissa as int, two_pow(clock.drift.shift as nat) as int);
            let e = clock.elapsed(c) as int;
            &&& d >= 1
            &&& 16 * (e * d - m * c) <= 9 * d
            &&& 16 * (m * c - e * d) <= 9 * d
            &&& e < UNIT - 1
            &&& clock.reading(c) == clock.offset + e
        }),
{
    let m = clock.drift.mantissa as int;
    let d = two_pow(clock.drift.shift as nat) as int;
    crate::clock::lemma_two_pow_bound(clock.drift.shift as nat, clock.drift.shift as nat);
    assert(m * c <= m * (until + k)) by (nonlinear_arith)
        requires
            m >= 0,
            c <= until + k,
    ;
    crate::clock::lemma_elapsed_error(clock, c);
    let e = clock.elapsed(c) as int;
    assert(16 * (e * d) <= 9 * d + 16 * (562_949_953_421_312 * d));
    assert(e < UNIT - 1) by (nonlinear_arith)
        requires
            16 * (e * d) <= 9 * d + 16 * (562_949_953_421_312 * d),
            d >= 1,
    ;
}

/// Readings within the range in which the rate is known.
proof fn lemma_advance_bounds(clock: Clock, c: int, k: int, until: int)
    requires
        0 <= c <= until,
        0 <= k,
        until + k < UNIT,
        clock.drift.mantissa >= 0,
        clock.drift.mantissa * (until + k) <= 562_949_953_421_312 * two_pow(
            clock.drift.shift as nat,
        ),
    ensures
        ({
            let d = two_pow(clock.drift.shift as nat) as int;
            let run = clock.reading(c + k) - clock.reading(c);
            &&& d >= 1
            &&& 16 * (run * d - clock.drift.mantissa * k) <= 18 * d
            &&& 16 * (clock.drift.mantissa * k - run * d) <= 18 * d
        }),
{
    let m = clock.drift.mantissa as int;
    let d = two_pow(clock.drift.shift as nat) as int;
    crate::clock::lemma_two_pow_bound(clock.drift.shift as nat, clock.drift.shift as nat);
    assert(m * c <= m * (until + k)) by (nonlinear_arith)
        requires
            m >= 0,
            c <= until + k,
    ;
    assert(m * (c + k) <= m * (until + k)) by (nonlinear_arith)
        requires
            m >= 0,
            c <= until,
    ;
    crate::clock::lemma_elapsed_error(clock, c);
    crate::clock::lemma_elapsed_error(clock, c + k);
    let (a, b) = (clock.elapsed(c) as int, clock.elapsed(c + k) as int);
    assert(a < UNIT && b < UNIT) by {
        assert(16 * (a * d) <= 9 * d + 16 * (562_949_953_421_312 * d));
        assert(16 * (b * d) <= 9 * d + 16 * (562_949_953_421_312 * d));
        assert(a < UNIT) by (nonlinear_arith)
            requires
                16 * (a * d) <= 9 * d + 16 * (562_949_953_421_312 * d),
                d >= 1,
        ;
        assert(b < UNIT) by (nonlinear_arith)
            requires
                16 * (b * d) <= 9 * d + 16 * (562_949_953_421_312 * d),
                d >= 1,
        ;
    }
    let run = b - a;
    assert(clock.reading(c + k) - clock.reading(c) == run);
    assert(run * d == b * d - a * d) by (nonlinear_arith)
        requires
            run == b - a,
    ;
    assert(m * (c + k) == m * c + m * k) by (nonlinear_arith);
}

pub proof fn lemma_advance_at_least(clock: Clock, c: int, k: int, until: int, len: int)
    requires
        0 <= c <= until,
        0 <= k,
        until + k < UNIT,
        clock.drift.mantissa >= 0,
        clock.drift.mantissa * (until + k) <= 562_949_953_421_312 * two_pow(
            clock.drift.shift as nat,
        ),
        clock.drift.mantissa * k >= (len + 2) * two_pow(clock.drift.shift as nat),
    ensures
        clock.reading(c + k) > clock.reading(c) + len,
{
    lemma_advance_bounds(clock, c, k, until);
    let d = two_pow(clock.drift.shift as nat) as int;
    let run = clock.reading(c + k) - clock.reading(c);
    assert(16 * ((len + 2) * d - run * d) <= 18 * d);
    assert(run > len) by (nonlinear_arith)
        requires
            16 * ((len + 2) * d - run * d) <= 18 * d,
            d >= 1,
    ;
}

pub proof fn lemma_advance_at_most(clock: Clock, c: int, k: int, until: int, len: int)
    requires
        0 <= c <= until,
        0 <= k,
        until + k < UNIT,
        clock.drift.mantissa >= 0,
        clock.drift.mantissa * (until + k) <= 562_949_953_421_312 * two_pow(
            clock.drift.shift as nat,
        ),
        clock.drift.mantissa * k <= (len - 2) * two_pow(clock.drift.shift as nat),
    ensures
        clock.reading(c + k) <= clock.reading(c) + len,
{
    lemma_advance_bounds(clock, c, k, until);
    let d = two_pow(clock.drift.shift as nat) as int;
    let run = clock.reading(c + k) - clock.reading(c);
    assert(16 * (run * d - (len - 2) * d) <= 18 * d);
    assert(run <= len) by (nonlinear_arith)
        requires
            16 * (run * d - (len - 2) * d) <= 18 * d,
            d >= 1,
    ;
}

} // verus!
