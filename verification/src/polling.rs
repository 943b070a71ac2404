//! What polling sees to. Every node polls every [`POLL_INTERVAL`] ticks, and notices
//! then what has lapsed by its own clock: so nothing is overdue for longer than that.

use crate::clock::{law_reading_monotone, Time};
use crate::dist::NormalDraw;
use crate::event::{Command, EventKind, LeaseStatus, MsgFate, MsgKind, NodeId};
use crate::moves::{
    is_guard, is_quiet, is_renewal, is_retreat, is_write_move, keep_apply,
    keep_expire_stale_renews, keep_maybe_initiate, keep_poll, keep_receive_write,
    keep_recompute_statuses, keep_service_grants, keep_write_tick, keeps_entries,
    kept_by_moves, lemma_enqueue_keeps, lemma_reply_keeps, lemma_send_keeps, moves,
};
use crate::progress::{
    lemma_advanced, lemma_initial, lemma_run_is, lemma_settles, lemma_steps_next, lemma_steps_ok,
    sized,
};
use crate::safety::{lemma_begin_guard_effect, lemma_send_renew_effect};
use crate::scenario::Config;
use crate::sim::{
    max_of, GranteeState, GrantorState, LeaseState, Sim, POLL_INTERVAL, RENEW_REPLY_TIMEOUT,
};
use crate::timeline::{in_time_order, Scheduled, Timed};
use crate::upkeep::{
    lemma_abort_stale_writes, lemma_emit, lemma_expire_stale_guards, lemma_expire_stale_renews,
    lemma_fault_trial, lemma_lease_position, lemma_maybe_initiate, lemma_parties,
    lemma_popped, lemma_recompute_statuses, lemma_tend, message_ok,
    normal_ok,
};
use vstd::prelude::*;

verus! {

/// With `node`'s clock at `reading`, what the node promises and holds of the lease
/// has not lapsed.
pub open spec fn lease_in_time(l: LeaseState, node: NodeId, reading: int) -> bool {
    &&& l.id.grantor == node && l.grantor.status == LeaseStatus::Active ==> reading
        <= l.grantor.grant_expiry
    &&& l.id.grantee == node && l.grantee.status == LeaseStatus::Active ==> reading
        <= l.grantee.hold_expiry
    &&& l.id.grantee == node && l.grantee.status == LeaseStatus::Guarding ==> reading
        <= l.grantee.guard_deadline
}

/// With `node`'s clock at `reading`, nothing that the node promises or holds has
/// lapsed.
pub open spec fn in_time(s: Sim, node: NodeId, reading: int) -> bool {
    forall|i: int|
        0 <= i < s.leases.len() ==> lease_in_time(#[trigger] s.leases[i], node, reading)
}

/// With `node`'s clock at `reading`, the node has not waited for an answer to a
/// guard of the lease for a whole guard window.
pub open spec fn guard_is_fresh(l: LeaseState, node: NodeId, reading: int, window: int) -> bool {
    l.id.grantor == node && l.grantor.status == LeaseStatus::Guarding ==> reading
        - l.grantor.guard_since < window
}

/// With `node`'s clock at `reading`, the node is not keeping up the lease towards a
/// grantee that has been silent for the renew-reply timeout.
pub open spec fn renews_are_fresh(l: LeaseState, node: NodeId, reading: int) -> bool {
    l.id.grantor == node && l.grantor.status == LeaseStatus::Active && l.grantor.intended
        ==> reading - l.grantor.last_reply < RENEW_REPLY_TIMEOUT
}

/// With `node`'s clock at `reading`, the node waits for nothing that it should have
/// given up.
pub open spec fn fresh(s: Sim, node: NodeId, reading: int) -> bool {
    forall|i: int|
        0 <= i < s.leases.len() ==> guard_is_fresh(
            #[trigger] s.leases[i],
            node,
            reading,
            s.params().guard_len(),
        ) && renews_are_fresh(s.leases[i], node, reading)
}

// ---- One poll --------------------------------------------------------------

/// Recomputing the statuses of the first `k` leases.
proof fn lemma_recompute_in_time(s: Sim, node: NodeId, k: int)
    requires
        0 <= k <= s.leases.len(),
    ensures
        s.recompute_statuses(node, k).leases.len() == s.leases.len(),
        s.recompute_statuses(node, k).cfg == s.cfg,
        s.recompute_statuses(node, k).now == s.now,
        forall|i: int|
            0 <= i < k ==> lease_in_time(
                #[trigger] s.recompute_statuses(node, k).leases[i],
                node,
                s.local(node),
            ),
    decreases k,
{
    if k > 0 {
        lemma_recompute_in_time(s, node, k - 1);
        let a = s.recompute_statuses(node, k - 1);
        let b = a.recompute_grantor(node, k - 1);
        let c = b.recompute_grantee(node, k - 1);
        assert forall|i: int| 0 <= i < k implies lease_in_time(
            #[trigger] c.leases[i],
            node,
            s.local(node),
        ) by {
            if i < k - 1 {
                assert(c.leases[i] == a.leases[i]);
            }
        }
    }
}

spec fn guards_fresh_at(cfg: Config, now: Time, node: NodeId) -> spec_fn(Sim) -> bool {
    |s: Sim|
        {
            &&& s.cfg == cfg
            &&& s.now == now
            &&& forall|i: int|
                0 <= i < s.leases.len() ==> guard_is_fresh(
                    #[trigger] s.leases[i],
                    node,
                    s.local(node),
                    s.params().guard_len(),
                )
        }
}

spec fn fresh_at(cfg: Config, now: Time, node: NodeId) -> spec_fn(Sim) -> bool {
    |s: Sim| s.cfg == cfg && s.now == now && fresh(s, node, s.local(node))
}

/// What one elementary move does to the leases that it concerns.
proof fn lemma_fresh_kept(cfg: Config, now: Time, node: NodeId)
    requires
        cfg.params.guard_len() > 0,
    ensures
        kept_by_moves(guards_fresh_at(cfg, now, node), true),
        kept_by_moves(fresh_at(cfg, now, node), true),
{
    assert forall|a: Sim, b: Sim, i: int|
        a.ok() && b.ok() && a.cfg == cfg && #[trigger] moves(a, b, true) && 0 <= i
            < a.leases.len() implies b.leases.len() == a.leases.len() && b.cfg == a.cfg && b.now
        == a.now && (guard_is_fresh(a.leases[i], node, a.local(node), cfg.params.guard_len())
        ==> guard_is_fresh(#[trigger] b.leases[i], node, a.local(node), cfg.params.guard_len())) && (
    renews_are_fresh(a.leases[i], node, a.local(node)) ==> renews_are_fresh(
        b.leases[i],
        node,
        a.local(node),
    )) by {
        lemma_parties(a, i);
        if is_quiet(a, b) || is_write_move(a, b) || is_retreat(a, b) {
        } else if exists|j: usize| is_guard(a, b, j) {
            let j = choose|j: usize| is_guard(a, b, j);
            lemma_begin_guard_effect(a, j);
            lemma_parties(a, j as int);
        } else {
            let j = choose|j: usize| is_renewal(a, b, j);
            lemma_send_renew_effect(a, j);
        }
    }
    let guards = guards_fresh_at(cfg, now, node);
    assert forall|a: Sim, b: Sim|
        a.ok() && b.ok() && guards(a) && #[trigger] moves(a, b, true) implies guards(b) by {
        lemma_moves_now(a, b);
        assert forall|i: int| 0 <= i < b.leases.len() implies guard_is_fresh(
            #[trigger] b.leases[i],
            node,
            b.local(node),
            b.params().guard_len(),
        ) by {
            assert(guard_is_fresh(a.leases[i], node, a.local(node), cfg.params.guard_len()));
        }
    }
    let both = fresh_at(cfg, now, node);
    assert forall|a: Sim, b: Sim|
        a.ok() && b.ok() && both(a) && #[trigger] moves(a, b, true) implies both(b) by {
        lemma_moves_now(a, b);
        assert forall|i: int| 0 <= i < b.leases.len() implies guard_is_fresh(
            #[trigger] b.leases[i],
            node,
            b.local(node),
            b.params().guard_len(),
        ) && renews_are_fresh(b.leases[i], node, b.local(node)) by {
            assert(guard_is_fresh(a.leases[i], node, a.local(node), cfg.params.guard_len()));
        }
    }
}

/// A move happens at one moment of one run.
proof fn lemma_moves_now(a: Sim, b: Sim)
    requires
        a.ok(),
        b.ok(),
        moves(a, b, true),
    ensures
        b.cfg == a.cfg,
        b.now == a.now,
        b.leases.len() == a.leases.len(),
{
    if exists|j: usize| is_guard(a, b, j) {
        let j = choose|j: usize| is_guard(a, b, j);
        lemma_begin_guard_effect(a, j);
    } else if exists|j: usize| is_renewal(a, b, j) {
        let j = choose|j: usize| is_renewal(a, b, j);
        lemma_send_renew_effect(a, j);
    }
}

/// A poll notices what has lapsed by the node's clock: after it, nothing that the
/// node promises or holds is past its expiry. A node that is up also gives up what
/// it has waited for in vain: guards that went unanswered for a whole guard window,
/// and grantees that have been silent for the renew-reply timeout.
pub proof fn law_poll_notices(s: Sim, node: NodeId)
    requires
        s.ok(),
        sized(s),
        node < s.nodes.len(),
    ensures
        in_time(s.poll(node), node, s.local(node)),
        s.params().guard_len() > 0 && s.fault_trial(node).nodes[node as int].up ==> fresh(
            s.poll(node),
            node,
            s.local(node),
        ),
        s.poll(node).now == s.now,
        s.poll(node).cfg == s.cfg,
        s.poll(node).leases.len() == s.leases.len(),
        s.now + POLL_INTERVAL <= s.cfg.duration ==> s.poll(node).queue.contains(
            Timed { at: (s.now + POLL_INTERVAL) as Time, item: Scheduled::Poll { node } },
        ),
{
    reveal(Sim::poll);
    lemma_fault_trial(s, node);
    let s1 = s.fault_trial(node);
    lemma_tend(s1, node);
    let s2 = if s1.nodes[node as int].up {
        s1.tend(node)
    } else {
        s1
    };
    let n = s2.leases.len() as int;
    lemma_recompute_in_time(s2, node, n);
    lemma_recompute_statuses(s2, node, n);
    let s3 = s2.recompute_statuses(node, n);
    if s3.now + POLL_INTERVAL <= s3.cfg.duration {
        lemma_enqueue_keeps(
            s3.queue,
            Timed { at: (s3.now + POLL_INTERVAL) as Time, item: Scheduled::Poll { node } },
        );
    }
    if s.params().guard_len() > 0 && s1.nodes[node as int].up {
        lemma_tend_fresh(s1, node);
        lemma_fresh_kept(s.cfg, s.now, node);
        let prop = fresh_at(s.cfg, s.now, node);
        assert(prop(s2));
        keep_recompute_statuses(prop, true, s2, node, n);
        assert(prop(s3));
    }
}

/// A node that is up gives up stale guards and renews.
proof fn lemma_tend_fresh(s: Sim, node: NodeId)
    requires
        s.ok(),
        sized(s),
        node < s.nodes.len(),
        s.params().guard_len() > 0,
    ensures
        s.tend(node).cfg == s.cfg,
        s.tend(node).now == s.now,
        fresh(s.tend(node), node, s.local(node)),
{
    reveal(Sim::tend);
    lemma_abort_stale_writes(s, node);
    let s1 = s.abort_stale_writes(node);
    lemma_expire_stale_guards(s1, node);
    let s2 = s1.expire_stale_guards(node);
    lemma_fresh_kept(s.cfg, s.now, node);
    let guards = guards_fresh_at(s.cfg, s.now, node);
    assert(guards(s2)) by {
        reveal(Sim::expire_stale_guards);
    }
    lemma_expire_stale_renews(s2, node);
    keep_expire_stale_renews(guards, true, s2, node);
    let s3 = s2.expire_stale_renews(node);
    let both = fresh_at(s.cfg, s.now, node);
    assert(guards(s3));
    assert(both(s3)) by {
        reveal(Sim::expire_stale_renews);
        assert forall|i: int| 0 <= i < s3.leases.len() implies guard_is_fresh(
            #[trigger] s3.leases[i],
            node,
            s3.local(node),
            s3.params().guard_len(),
        ) && renews_are_fresh(s3.leases[i], node, s3.local(node)) by {}
    }
    let k = s3.leases.len() as int;
    keep_maybe_initiate(both, true, s3, node, k);
    lemma_maybe_initiate(s3, node, k);
    let s4 = s3.maybe_initiate(node, k);
    keep_service_grants(both, true, s4, node, s4.leases.len() as int);
    assert(both(s4.service_grants(node, s4.leases.len() as int)));
}

// ---- A whole run -----------------------------------------------------------

/// The node's clock does not run backwards, and no span that a lease is given is
/// negative.
pub open spec fn steady(cfg: Config, node: NodeId) -> bool {
    &&& node < cfg.nodes.len()
    &&& cfg.nodes[node as int].clock.drift.mantissa >= 0
    &&& cfg.params.guard_len() >= 0
    &&& cfg.params.hold_len() >= 0
    &&& cfg.params.grant_len() >= 0
    &&& cfg.params.confirmed_len() >= 0
}

/// The node last polled at time `p`, or before that if it has not polled yet; its
/// next poll is due, unless the run is over before. Nothing that the node promises
/// or holds had lapsed by then.
pub open spec fn polled(s: Sim, node: NodeId, p: int) -> bool {
    &&& -POLL_INTERVAL <= p <= s.now
    &&& p + POLL_INTERVAL > s.cfg.duration || s.queue.contains(
        Timed { at: (p + POLL_INTERVAL) as Time, item: Scheduled::Poll { node } },
    )
    &&& in_time(s, node, s.cfg.nodes[node as int].clock.reading(p))
}

spec fn polled_in(cfg: Config, node: NodeId, p: int) -> spec_fn(Sim) -> bool {
    |s: Sim| s.cfg == cfg && polled(s, node, p)
}

/// One lease changes, in a way that leaves it in time; nothing comes off the
/// timeline.
proof fn lemma_polled_change(a: Sim, b: Sim, node: NodeId, p: int, j: int)
    requires
        polled(a, node, p),
        b.cfg == a.cfg,
        b.now == a.now,
        keeps_entries(a.queue, b.queue),
        b.leases.len() == a.leases.len(),
        forall|i: int| 0 <= i < a.leases.len() && i != j ==> #[trigger] b.leases[i] == a.leases[i],
        0 <= j < a.leases.len() ==> lease_in_time(
            b.leases[j],
            node,
            a.cfg.nodes[node as int].clock.reading(p),
        ),
    ensures
        polled(b, node, p),
{
}

/// The node's clock has not run back since it last polled.
proof fn lemma_clock_since(s: Sim, node: NodeId, p: int)
    requires
        steady(s.cfg, node),
        p <= s.now,
    ensures
        s.cfg.nodes[node as int].clock.reading(p) <= s.local(node),
{
    law_reading_monotone(s.cfg.nodes[node as int].clock, p, s.now as int);
}

/// What sending a renew leaves behind.
proof fn lemma_send_renew_polled(s: Sim, node: NodeId, p: int, j: usize)
    requires
        s.ok(),
        steady(s.cfg, node),
        j < s.leases.len(),
        -POLL_INTERVAL <= p <= s.now,
        p + POLL_INTERVAL > s.cfg.duration || s.queue.contains(
            Timed { at: (p + POLL_INTERVAL) as Time, item: Scheduled::Poll { node } },
        ),
        forall|i: int|
            0 <= i < s.leases.len() && i != j ==> lease_in_time(
                #[trigger] s.leases[i],
                node,
                s.cfg.nodes[node as int].clock.reading(p),
            ),
        ({
            let l = s.leases[j as int];
            lease_in_time(
                LeaseState {
                    grantor: GrantorState { status: LeaseStatus::Inactive, ..l.grantor },
                    ..l
                },
                node,
                s.cfg.nodes[node as int].clock.reading(p),
            )
        }),
    ensures
        polled(s.send_renew(j), node, p),
{
    lemma_parties(s, j as int);
    lemma_clock_since(s, node, p);
    lemma_send_renew_effect(s, j);
    assert(keeps_entries(s.queue, s.send_renew(j).queue)) by {
        reveal(Sim::send_renew);
        let l = s.leases[j as int];
        let b = s.local(l.id.grantor);
        let g = GrantorState {
            grant_expiry: max_of(
                l.grantor.grant_expiry as int,
                b + s.params().grant_len(),
            ) as Time,
            next_renew_due: (b + s.params().renew_interval) as Time,
            awaiting_reply: true,
            ..l.grantor
        };
        lemma_send_keeps(
            s.with_grantor(j as int, g),
            l.id.grantor,
            l.id.grantee,
            MsgKind::Renew,
            j,
        );
    }
    assert(crate::upkeep::grantor_ok(s.leases[j as int].grantor));
    let b = s.send_renew(j);
    assert forall|i: int| 0 <= i < b.leases.len() implies lease_in_time(
        #[trigger] b.leases[i],
        node,
        s.cfg.nodes[node as int].clock.reading(p),
    ) by {
        if i != j {
            assert(b.leases[i] == s.leases[i]);
        }
    }
}

proof fn lemma_polled_kept(cfg: Config, node: NodeId, p: int)
    requires
        steady(cfg, node),
    ensures
        kept_by_moves(polled_in(cfg, node, p), true),
{
    let prop = polled_in(cfg, node, p);
    assert forall|a: Sim, b: Sim|
        a.ok() && b.ok() && prop(a) && #[trigger] moves(a, b, true) implies prop(b) by {
        let reading = cfg.nodes[node as int].clock.reading(p);
        if is_quiet(a, b) || is_write_move(a, b) {
        } else if is_retreat(a, b) {
            assert forall|i: int| 0 <= i < b.leases.len() implies lease_in_time(
                #[trigger] b.leases[i],
                node,
                reading,
            ) by {
                assert(lease_in_time(a.leases[i], node, reading));
            }
        } else if exists|j: usize| is_guard(a, b, j) {
            let j = choose|j: usize| is_guard(a, b, j);
            lemma_begin_guard_effect(a, j);
            assert(keeps_entries(a.queue, b.queue)) by {
                reveal(Sim::begin_guard);
                let l = a.leases[j as int];
                let g = GrantorState {
                    status: LeaseStatus::Guarding,
                    intended: true,
                    awaiting_reply: false,
                    reguard_on_thaw: false,
                    guard_since: a.local(l.id.grantor) as Time,
                    ..l.grantor
                };
                lemma_send_keeps(
                    a.with_grantor(j as int, g),
                    l.id.grantor,
                    l.id.grantee,
                    MsgKind::Guard,
                    j,
                );
            }
            assert(lease_in_time(a.leases[j as int], node, reading));
            lemma_polled_change(a, b, node, p, j as int);
        } else {
            let j = choose|j: usize| is_renewal(a, b, j);
            assert(lease_in_time(a.leases[j as int], node, reading));
            lemma_send_renew_polled(a, node, p, j);
            lemma_send_renew_effect(a, j);
        }
    }
}

/// A party acts on a lease message.
proof fn lemma_receive_polled(
    s: Sim,
    node: NodeId,
    p: int,
    from: NodeId,
    to: NodeId,
    kind: MsgKind,
    tag: usize,
)
    requires
        s.ok(),
        steady(s.cfg, node),
        polled(s, node, p),
        message_ok(s.cfg, from, to, kind, tag),
        !kind.is_write_path(),
    ensures
        polled(s.receive(from, to, kind, tag), node, p),
{
    let j = tag as int;
    let l = s.leases[j];
    let b = s.receive(from, to, kind, tag);
    lemma_parties(s, j);
    lemma_clock_since(s, node, p);
    assert(lease_in_time(l, node, s.cfg.nodes[node as int].clock.reading(p)));
    match kind {
        MsgKind::Guard => {
            reveal(Sim::on_guard);
            let g = GranteeState {
                guard_deadline: (s.local(l.id.grantee) + s.params().guard_len()) as Time,
                status: LeaseStatus::Guarding,
                ..l.grantee
            };
            let ev = EventKind::GranteeLease { lease: l.id, status: LeaseStatus::Guarding };
            let c = s.with_grantee(j, g).emit(ev);
            lemma_reply_keeps(c, l.id.grantee, l.id.grantor, MsgKind::GuardReply, tag);
            assert(b.leases == c.leases && b.now == s.now && b.cfg == s.cfg) by {
                reveal(Sim::reply_after_delay);
            }
            lemma_polled_change(s, b, node, p, j);
        },
        MsgKind::GuardReply => {
            reveal(Sim::on_guard_reply);
            if l.grantor.status == LeaseStatus::Guarding {
                let d = s.local(l.id.grantor) as Time;
                let g = GrantorState {
                    status: LeaseStatus::Active,
                    last_reply: d,
                    next_renew_due: d,
                    ..l.grantor
                };
                let c = s.with_grantor(j, g).emit(
                    EventKind::GrantorLease { lease: l.id, status: LeaseStatus::Active },
                );
                assert(crate::upkeep::grantor_ok(l.grantor));
                crate::upkeep::lemma_with_grantor(s, j, g);
                lemma_emit(
                    s.with_grantor(j, g),
                    EventKind::GrantorLease { lease: l.id, status: LeaseStatus::Active },
                );
                lemma_send_renew_polled(c, node, p, tag);
            }
        },
        MsgKind::Renew => {
            reveal(Sim::on_renew);
            if s.accepts_renew(j) {
                let g = GranteeState {
                    hold_expiry: (s.local(l.id.grantee) + s.params().hold_len()) as Time,
                    status: LeaseStatus::Active,
                    ..l.grantee
                };
                let held = s.with_grantee(j, g);
                let c = if l.grantee.status != LeaseStatus::Active {
                    held.emit(EventKind::GranteeLease { lease: l.id, status: LeaseStatus::Active })
                } else {
                    held
                };
                lemma_reply_keeps(c, l.id.grantee, l.id.grantor, MsgKind::RenewReply, tag);
                assert(b.leases == c.leases && b.now == s.now && b.cfg == s.cfg) by {
                    reveal(Sim::reply_after_delay);
                }
                lemma_polled_change(s, b, node, p, j);
            }
        },
        MsgKind::RenewReply => {
            reveal(Sim::on_renew_reply);
            assert(crate::upkeep::grantor_ok(l.grantor));
            lemma_polled_change(s, b, node, p, j);
        },
        MsgKind::Revoke => {
            reveal(Sim::on_revoke);
            let c = if l.holding() {
                s.with_grantee(
                    j,
                    GranteeState {
                        status: LeaseStatus::Expired,
                        hold_expiry: s.local(l.id.grantee) as Time,
                        ..l.grantee
                    },
                ).emit(EventKind::GranteeLease { lease: l.id, status: LeaseStatus::Expired })
            } else {
                s
            };
            lemma_reply_keeps(c, l.id.grantee, l.id.grantor, MsgKind::RevokeReply, tag);
            assert(b.leases == c.leases && b.now == s.now && b.cfg == s.cfg) by {
                reveal(Sim::reply_after_delay);
            }
            lemma_polled_change(s, b, node, p, j);
        },
        _ => {
            reveal(Sim::on_revoke_reply);
            lemma_polled_change(s, b, node, p, j);
        },
    }
}

/// One step leaves the node polled, then or before.
pub proof fn lemma_step_polled(s: Sim, node: NodeId, p: int) -> (r: int)
    requires
        s.ok(),
        sized(s),
        s.queue.len() > 0,
        s.queue[0].at <= s.cfg.duration,
        steady(s.cfg, node),
        polled(s, node, p),
    ensures
        polled(s.step(), node, r),
        r == if s.queue[0].item == (Scheduled::Poll { node }) {
            s.queue[0].at as int
        } else {
            p
        },
{
    lemma_popped(s);
    let a = s.popped();
    let item = s.queue[0].item;
    if item == (Scheduled::Poll { node }) {
        law_poll_notices(a, node);
        a.now as int
    } else {
        let e = Timed { at: (p + POLL_INTERVAL) as Time, item: Scheduled::Poll { node } };
        if s.queue.contains(e) {
            let k = choose|k: int| 0 <= k < s.queue.len() && s.queue[k] == e;
            assert(a.queue[k - 1] == e);
        }
        assert(polled(a, node, p));
        let prop = polled_in(s.cfg, node, p);
        lemma_polled_kept(s.cfg, node, p);
        assert(prop(a));
        match item {
            Scheduled::Poll { node: other } => {
                keep_poll(prop, true, a, other);
                assert(prop(a.poll(other)));
            },
            Scheduled::WriteTick => {
                keep_write_tick(prop, true, a);
                assert(prop(a.write_tick()));
            },
            Scheduled::Command(cmd) => {
                if let Command::Revoke(id) = cmd {
                    reveal(Sim::apply);
                    lemma_lease_position(a.leases, id, 0);
                    if a.declared(id) {
                        lemma_revoke_polled(a, node, p, a.lease_index(id) as usize);
                    }
                } else {
                    keep_apply(prop, true, a, cmd);
                    assert(prop(a.apply(cmd)));
                }
            },
            Scheduled::Send { from, to, kind, tag } => {
                lemma_send_keeps(a, from, to, kind, tag);
                assert(polled(a.send(from, to, kind, tag), node, p)) by {
                    reveal(Sim::send);
                }
            },
            Scheduled::Arrival { from, to, kind, tag, fate } => {
                reveal(Sim::arrive);
                let ev = EventKind::MessageDelivered { from, to, kind };
                lemma_emit(a, ev);
                let q = a.emit(ev);
                assert(polled(q, node, p));
                if fate == MsgFate::Delivered && a.nodes[to as int].up {
                    if kind.is_write_path() {
                        assert(prop(q));
                        keep_receive_write(prop, true, q, from, to, kind, tag);
                        assert(prop(q.receive(from, to, kind, tag)));
                    } else {
                        lemma_receive_polled(q, node, p, from, to, kind, tag);
                    }
                }
            },
        }
        p
    }
}

/// A revocation goes out.
proof fn lemma_revoke_polled(s: Sim, node: NodeId, p: int, j: usize)
    requires
        s.ok(),
        steady(s.cfg, node),
        polled(s, node, p),
        j < s.leases.len(),
    ensures
        polled(s.begin_revoke(j), node, p),
{
    reveal(Sim::begin_revoke);
    let l = s.leases[j as int];
    let c = s.with_grantor(j as int, GrantorState { intended: false, ..l.grantor });
    lemma_send_keeps(c, l.id.grantor, l.id.grantee, MsgKind::Revoke, j);
    let b = s.begin_revoke(j);
    assert(b.leases == c.leases && b.now == s.now && b.cfg == s.cfg) by {
        reveal(Sim::send);
    }
    assert(lease_in_time(l, node, s.cfg.nodes[node as int].clock.reading(p)));
    lemma_polled_change(s, b, node, p, j as int);
}

/// Every node polls from the start of a run.
pub proof fn lemma_initial_polled(cfg: Config, normal: spec_fn(NormalDraw) -> Time, node: NodeId)
    requires
        cfg.valid(),
        normal_ok(normal),
        sized(Sim::blank(cfg, normal)),
        node < cfg.nodes.len(),
    ensures
        polled(Sim::initial(cfg, normal), node, -POLL_INTERVAL),
{
    lemma_initial(cfg, normal);
    let s0 = Sim::blank(cfg, normal);
    let s1 = s0.with_polls(cfg.nodes.len() as int);
    lemma_polls_scheduled(s0, node, cfg.nodes.len() as int);
    let s2 = s1.with_commands(cfg.commands.len() as int);
    lemma_commands_keep(s1, cfg.commands.len() as int);
    if let Some(iv) = cfg.write_interval {
        let at = s2.jittered(iv as int);
        lemma_enqueue_keeps(
            s2.queue,
            Timed { at: max_of(at, s2.now as int) as Time, item: Scheduled::WriteTick },
        );
    }
}

proof fn lemma_polls_scheduled(s: Sim, node: NodeId, k: int)
    requires
        in_time_order(s.queue),
        0 <= k <= usize::MAX,
        s.now == 0,
    ensures
        in_time_order(s.with_polls(k).queue),
        s.with_polls(k).now == 0,
        s.with_polls(k).cfg == s.cfg,
        node < k ==> s.with_polls(k).queue.contains(
            Timed { at: 0, item: Scheduled::Poll { node } },
        ),
    decreases k,
{
    if k > 0 {
        lemma_polls_scheduled(s, node, k - 1);
        let a = s.with_polls(k - 1);
        let e = Timed { at: 0, item: Scheduled::Poll { node: (k - 1) as usize } };
        lemma_enqueue_keeps(a.queue, e);
        crate::timeline::lemma_enqueue(a.queue, e);
        if node < k - 1 {
            assert(a.queue.contains(Timed { at: 0, item: Scheduled::Poll { node } }));
        }
    }
}

proof fn lemma_commands_keep(s: Sim, k: int)
    requires
        in_time_order(s.queue),
        0 <= k,
    ensures
        in_time_order(s.with_commands(k).queue),
        s.with_commands(k).now == s.now,
        s.with_commands(k).cfg == s.cfg,
        keeps_entries(s.queue, s.with_commands(k).queue),
    decreases k,
{
    if k > 0 {
        lemma_commands_keep(s, k - 1);
        let a = s.with_commands(k - 1);
        let e = Timed {
            at: max_of(s.cfg.commands[k - 1].0 as int, a.now as int) as Time,
            item: Scheduled::Command(s.cfg.commands[k - 1].1),
        };
        lemma_enqueue_keeps(a.queue, e);
        crate::timeline::lemma_enqueue(a.queue, e);
    }
}

/// The node polls, from the start of a run up to any step of it.
pub proof fn lemma_steps_polled(s: Sim, node: NodeId, p: int, t: int, n: nat) -> (r: int)
    requires
        s.ok(),
        sized(s),
        t <= s.cfg.duration,
        steady(s.cfg, node),
        polled(s, node, p),
    ensures
        polled(s.steps(t, n), node, r),
    decreases n,
{
    if n == 0 {
        p
    } else {
        let r = lemma_steps_polled(s, node, p, t, (n - 1) as nat);
        let before = s.steps(t, (n - 1) as nat);
        lemma_steps_next(s, t, (n - 1) as nat);
        lemma_steps_ok(s, t, (n - 1) as nat);
        if before.settled(t) {
            r
        } else {
            lemma_step_polled(before, node, r)
        }
    }
}

/// Expiry is noticed within one poll interval: at any time of a run, whatever a
/// node still promises, holds or waits to activate had not lapsed by its own clock
/// [`POLL_INTERVAL`] ticks ago.
pub proof fn law_expiry_is_noticed(
    cfg: Config,
    normal: spec_fn(NormalDraw) -> Time,
    node: NodeId,
    t: int,
)
    requires
        cfg.valid(),
        normal_ok(normal),
        sized(Sim::blank(cfg, normal)),
        steady(cfg, node),
    ensures
        ({
            let s = Sim::initial(cfg, normal).advanced(t);
            in_time(s, node, cfg.nodes[node as int].clock.reading(s.now - POLL_INTERVAL))
        }),
{
    let s = Sim::initial(cfg, normal);
    lemma_initial(cfg, normal);
    lemma_initial_polled(cfg, normal, node);
    let target = s.target(t);
    let n = lemma_settles(s, target);
    lemma_run_is(s, target, n);
    let p = lemma_steps_polled(s, node, -POLL_INTERVAL as int, target, n);
    lemma_advanced(s, t);
    lemma_steps_ok(s, target, n);
    let a = s.steps(target, n);
    let b = s.advanced(t);
    let e = Timed { at: (p + POLL_INTERVAL) as Time, item: Scheduled::Poll { node } };
    assert(b.now <= p + POLL_INTERVAL) by {
        if a.queue.contains(e) {
            let k = choose|k: int| 0 <= k < a.queue.len() && a.queue[k] == e;
            assert(b.queue[k] == e);
        }
    }
    let clock = cfg.nodes[node as int].clock;
    law_reading_monotone(clock, b.now - POLL_INTERVAL, p);
    assert forall|i: int| 0 <= i < b.leases.len() implies lease_in_time(
        #[trigger] b.leases[i],
        node,
        clock.reading(b.now - POLL_INTERVAL),
    ) by {
        assert(lease_in_time(a.leases[i], node, clock.reading(p)));
    }
}

} // verus!
