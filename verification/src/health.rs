//! Healthy leases stay up. With the default timing, perfect clocks, links that lose
//! nothing and parties that do not fail, renewals reach the grantee long before its
//! hold is over, and their answers reach the grantor long before it gives up.

use crate::clock::{law_perfect_clock_is_identity, Time};
use crate::dist::{lemma_drawn_bounds, NormalDraw};
use crate::event::{Command, EventKind, LeaseStatus, MsgFate, MsgKind, NodeId};
use crate::exchange::default_timing;
use crate::history::law_advance_in_parts;
use crate::mail::{gives, is_unposted, lemma_reply_unposted, lemma_send_orders, orders};
use crate::moves::{
    concerns_lease, due_moves, is_guard, is_quiet, is_renewal, is_retreat, is_write_move,
    keep_poll, keep_receive_write, keep_recompute_statuses, keep_serve_write, keep_write_tick,
    kept_by_due_moves, kept_by_moves, lemma_enqueue_entry, lemma_live_drop_first,
    lemma_live_entry, lemma_live_ordered, lemma_reply_live, lemma_send_live, live, may_open, moves,
};
use crate::once::{
    carries_on, lemma_begin_guard_orders, lemma_initial_orders, lemma_no_tally,
    lemma_send_renew_orders,
};
use crate::polling::{lemma_initial_polled, lemma_step_polled, polled, steady};
use crate::prob::law_no_cause_no_loss;
use crate::progress::{
    lemma_advanced, lemma_initial, lemma_run_is, lemma_settles, lemma_steps_next, lemma_steps_ok,
    sized,
};
use crate::rng::RngState;
use crate::rounding::UNIT;
use crate::safety::{
    delay_at_most, lemma_arrival_within, lemma_begin_guard_effect, lemma_send_renew_effect,
};
use crate::scenario::{default_node, Config};
use crate::sim::{GranteeState, GrantorState, LeaseState, Sim, POLL_INTERVAL};
use crate::timeline::{
    enqueue, in_time_order, lemma_tally_enqueue, lemma_tally_entry, lemma_tally_first, tally,
    Scheduled, Timed,
};
use crate::upkeep::{
    lemma_arrival, lemma_begin_guard, lemma_emit, lemma_fail_node, lemma_fault_trial,
    lemma_lease_position, lemma_parties, lemma_poll, lemma_popped, lemma_recompute_statuses,
    lemma_reply, lemma_send, lemma_send_renew, lemma_service_grants, lemma_tend,
    lemma_with_grantee, lemma_with_grantor, message_ok, normal_ok,
};
use vstd::prelude::*;

verus! {

/// No message of lease `i` is lost: not on the links between its parties, nor for its
/// kind.
pub open spec fn lossless(cfg: Config, i: int) -> bool {
    let (g, h) = (cfg.leases[i].grantor, cfg.leases[i].grantee);
    &&& cfg.link(g, h).drop_chance.num == 0
    &&& cfg.link(h, g).drop_chance.num == 0
    &&& !cfg.link(g, h).partitioned
    &&& !cfg.link(h, g).partitioned
    &&& forall|kind: MsgKind, at: int|
        !kind.is_write_path() && 0 <= at <= cfg.duration ==> (#[trigger] cfg.kind_loss(
            kind,
            at,
        )).num == 0
}

/// Neither party of lease `i` crashes: not by chance, and not by the script.
pub open spec fn parties_stay_up(cfg: Config, i: int) -> bool {
    let (g, h) = (cfg.leases[i].grantor, cfg.leases[i].grantee);
    &&& cfg.nodes[g as int].fail_chance.num == 0
    &&& cfg.nodes[h as int].fail_chance.num == 0
    &&& forall|k: int|
        0 <= k < cfg.commands.len() ==> (#[trigger] cfg.commands[k]).1 != Command::FailNode(g)
            && cfg.commands[k].1 != Command::FailNode(h)
}

/// The script does not revoke lease `i`.
pub open spec fn never_revoked(cfg: Config, i: int) -> bool {
    forall|k: int|
        0 <= k < cfg.commands.len() ==> (#[trigger] cfg.commands[k]).1 != Command::Revoke(
            cfg.leases[i],
        )
}

/// Nothing gets in the way of lease `i`. (Up to `2^53` ticks, clocks are exact.)
pub open spec fn undisturbed(cfg: Config, i: int) -> bool {
    &&& 0 <= i < cfg.leases.len()
    &&& default_timing(cfg, i)
    &&& cfg.nodes[cfg.leases[i].grantee as int].clock == default_node().clock
    &&& lossless(cfg, i)
    &&& parties_stay_up(cfg, i)
    &&& never_revoked(cfg, i)
    &&& !cfg.write_disruptive
    &&& cfg.duration <= UNIT
}

/// The entry is part of a revocation of lease `i`.
spec fn revoking(i: int) -> spec_fn(Timed) -> bool {
    |e: Timed|
        match e.item {
            Scheduled::Send { kind, tag, .. } => tag == i && kind == MsgKind::RevokeReply,
            Scheduled::Arrival { kind, tag, .. } => tag == i && (kind == MsgKind::Revoke || kind
                == MsgKind::RevokeReply),
            _ => false,
        }
}

/// Both parties are up and unfrozen, and neither a revocation nor a crash is under way
/// or commanded.
spec fn clear(s: Sim, i: int) -> bool {
    let id = s.cfg.leases[i];
    &&& s.nodes[id.grantor as int].up
    &&& s.nodes[id.grantee as int].up
    &&& !s.nodes[id.grantee as int].write_frozen
    &&& tally(live(s.queue), revoking(i)) == 0
    &&& orders(s.queue, Command::Revoke(id)) == 0
    &&& orders(s.queue, Command::FailNode(id.grantor)) == 0
    &&& orders(s.queue, Command::FailNode(id.grantee)) == 0
    &&& !s.leases[i].grantor.reguard_on_thaw
}

/// How far the exchange of lease `i` is while `e` carries it on, and how much time
/// that leaves to either party.
spec fn stage(l: LeaseState, e: Timed) -> bool {
    let (g, h, at) = (l.grantor, l.grantee, e.at);
    let guarding = g.status == LeaseStatus::Guarding && g.intended;
    let awaiting = g.status == LeaseStatus::Active && g.intended && g.awaiting_reply;
    match e.item {
        Scheduled::Send { kind, .. } => if kind == MsgKind::GuardReply {
            &&& guarding
            &&& h.status == LeaseStatus::Guarding
            &&& h.guard_deadline == at + 1350
            &&& at <= g.guard_since + 330
        } else {
            &&& awaiting
            &&& h.status == LeaseStatus::Active
            &&& h.hold_expiry == at + 1350
            &&& g.grant_expiry >= at + 2870
            &&& g.next_renew_due <= at + 549
            &&& at <= g.last_reply + 980
        },
        Scheduled::Arrival { kind, .. } => match kind {
            MsgKind::Guard => {
                &&& guarding
                &&& h.status == LeaseStatus::Inactive
                &&& at <= g.guard_since + 280
            },
            MsgKind::GuardReply => {
                &&& guarding
                &&& h.status == LeaseStatus::Guarding
                &&& h.guard_deadline >= at + 1070
                &&& at <= g.guard_since + 610
            },
            MsgKind::Renew => {
                &&& awaiting
                &&& {
                    ||| h.status == LeaseStatus::Guarding && at < h.guard_deadline
                    ||| h.status == LeaseStatus::Active && at <= h.hold_expiry
                }
                &&& g.grant_expiry >= at + 2920
                &&& g.next_renew_due <= at + 599
                &&& at <= g.last_reply + 930
            },
            _ => {
                &&& awaiting
                &&& h.status == LeaseStatus::Active
                &&& h.hold_expiry >= at + 1070
                &&& g.grant_expiry >= at + 2590
                &&& g.next_renew_due <= at + 548
                &&& g.next_renew_due <= h.hold_expiry - 801
                &&& at <= g.last_reply + 1260
            },
        },
        _ => true,
    }
}

/// Nothing carries on the exchange of lease `i`: it has not begun, or the next renew
/// is not due yet, or not before the poll that follows the one at `p`.
spec fn rest(l: LeaseState, p: int) -> bool {
    let (g, h) = (l.grantor, l.grantee);
    ||| g.status == LeaseStatus::Inactive && h.status == LeaseStatus::Inactive
    ||| {
        &&& g.status == LeaseStatus::Active
        &&& g.intended
        &&& !g.awaiting_reply
        &&& h.status == LeaseStatus::Active
        &&& g.grant_expiry >= g.last_reply + 1600
        &&& g.next_renew_due <= h.hold_expiry - 801
        &&& g.next_renew_due <= g.last_reply + 600
        &&& p + POLL_INTERVAL <= h.hold_expiry - 751
        &&& p + POLL_INTERVAL <= g.last_reply + 650
    }
}

/// Lease `i` is on its way up or up, with time to spare. Its grantor last polled at
/// `p`.
spec fn well(s: Sim, i: int, p: int) -> bool {
    &&& clear(s, i)
    &&& tally(live(s.queue), carries_on(i)) <= 1
    &&& tally(live(s.queue), carries_on(i)) == 0 ==> rest(s.leases[i], p)
    &&& forall|k: int|
        0 <= k < live(s.queue).len() && carries_on(i)(#[trigger] live(s.queue)[k]) ==> stage(
            s.leases[i],
            live(s.queue)[k],
        )
}

/// The grantee holds the lease, if that is asked for.
spec fn held(s: Sim, i: int, asked: bool) -> bool {
    asked ==> s.leases[i].grantee.status == LeaseStatus::Active
}

// ---- Times -----------------------------------------------------------------

/// The parties' clocks show global time.
proof fn lemma_exact(s: Sim, i: int)
    requires
        s.ok(),
        undisturbed(s.cfg, i),
    ensures
        s.leases[i].id == s.cfg.leases[i],
        s.local(s.leases[i].id.grantor) == s.now,
        s.local(s.leases[i].id.grantee) == s.now,
{
    lemma_parties(s, i);
    law_perfect_clock_is_identity(default_node().clock, s.now as int);
}

/// A message between the parties sent now is delivered within 280 ticks.
proof fn lemma_delivered(s: Sim, i: int, kind: MsgKind)
    requires
        s.ok(),
        undisturbed(s.cfg, i),
        !kind.is_write_path(),
    ensures
        ({
            let (g, h) = (s.cfg.leases[i].grantor, s.cfg.leases[i].grantee);
            &&& s.fate_of(g, h, kind) == MsgFate::Delivered
            &&& s.fate_of(h, g, kind) == MsgFate::Delivered
            &&& s.now < s.arrival_of(g, h) <= s.now + 280
            &&& s.now < s.arrival_of(h, g) <= s.now + 280
        }),
{
    let (g, h) = (s.cfg.leases[i].grantor, s.cfg.leases[i].grantee);
    assert(s.cfg.kind_loss(kind, s.now as int).num == 0);
    law_no_cause_no_loss(s.cfg.link(g, h).drop_chance, s.cfg.kind_loss(kind, s.now as int));
    law_no_cause_no_loss(s.cfg.link(h, g).drop_chance, s.cfg.kind_loss(kind, s.now as int));
    assert forall|rng: RngState| (#[trigger] s.cfg.link(g, h).delay.drawn(rng, s.normal))
        <= 280 by {
        lemma_drawn_bounds(s.cfg.link(g, h).delay, rng, s.normal);
    }
    assert forall|rng: RngState| (#[trigger] s.cfg.link(h, g).delay.drawn(rng, s.normal))
        <= 280 by {
        lemma_drawn_bounds(s.cfg.link(h, g).delay, rng, s.normal);
    }
    assert(delay_at_most(s.cfg, s.normal, g, h, 280));
    assert(delay_at_most(s.cfg, s.normal, h, g, 280));
    lemma_arrival_within(s, g, h, 280);
    lemma_arrival_within(s, h, g, 280);
    lemma_arrival(s, g, h);
    lemma_arrival(s, h, g);
}

/// Where something is counted, there is something.
proof fn lemma_tally_exists(queue: Seq<Timed>, of: spec_fn(Timed) -> bool)
    requires
        tally(queue, of) > 0,
    ensures
        exists|k: int| 0 <= k < queue.len() && of(#[trigger] queue[k]),
{
    if !(exists|k: int| 0 <= k < queue.len() && of(#[trigger] queue[k])) {
        lemma_no_tally(queue, of);
    }
}

/// Nothing is overdue.
proof fn lemma_in_good_time(s: Sim, i: int, p: int)
    requires
        s.ok(),
        undisturbed(s.cfg, i),
        well(s, i, p),
        s.now <= p + POLL_INTERVAL,
    ensures
        ({
            let (g, h) = (s.leases[i].grantor, s.leases[i].grantee);
            &&& g.status == LeaseStatus::Guarding ==> s.now <= g.guard_since + 610
            &&& g.status == LeaseStatus::Active ==> s.now <= g.last_reply + 1260 && s.now
                <= g.grant_expiry
            &&& h.status == LeaseStatus::Active ==> s.now <= h.hold_expiry && g.status
                == LeaseStatus::Active
            &&& h.status == LeaseStatus::Guarding ==> s.now <= h.guard_deadline
            &&& s.leases[i].idle() ==> tally(live(s.queue), carries_on(i)) == 0
            &&& g.status == LeaseStatus::Active && !g.awaiting_reply ==> tally(
                live(s.queue),
                carries_on(i),
            ) == 0
        }),
{
    if tally(live(s.queue), carries_on(i)) > 0 {
        lemma_tally_exists(live(s.queue), carries_on(i));
        let k = choose|k: int|
            0 <= k < live(s.queue).len() && carries_on(i)(#[trigger] live(s.queue)[k]);
        lemma_live_entry(s.queue, k);
        let j = choose|j: int| 0 <= j < s.queue.len() && s.queue[j] == live(s.queue)[k];
        assert(s.queue[j].at >= s.now);
        assert(stage(s.leases[i], live(s.queue)[k]));
    }
}

// ---- Changes of a state ----------------------------------------------------

/// The parties' nodes and the commands are as they were.
spec fn same_surroundings(a: Sim, b: Sim, i: int) -> bool {
    let id = a.cfg.leases[i];
    &&& b.cfg == a.cfg
    &&& b.nodes[id.grantor as int] == a.nodes[id.grantor as int]
    &&& b.nodes[id.grantee as int] == a.nodes[id.grantee as int]
    &&& forall|cmd: Command| #[trigger] orders(b.queue, cmd) == orders(a.queue, cmd)
}

proof fn lemma_clear_kept(a: Sim, b: Sim, e: Timed, i: int)
    requires
        clear(a, i),
        same_surroundings(a, b, i),
        !b.leases[i].grantor.reguard_on_thaw,
        in_time_order(live(a.queue)),
        live(b.queue) == live(a.queue) || live(b.queue) == enqueue(live(a.queue), e),
        !revoking(i)(e),
    ensures
        clear(b, i),
{
    let id = a.cfg.leases[i];
    lemma_tally_enqueue(live(a.queue), e, revoking(i));
    assert(orders(b.queue, Command::Revoke(id)) == 0);
    assert(orders(b.queue, Command::FailNode(id.grantor)) == 0);
    assert(orders(b.queue, Command::FailNode(id.grantee)) == 0);
}

/// Nothing happens to the lease.
proof fn lemma_well_kept(a: Sim, b: Sim, e: Timed, i: int, p: int)
    requires
        well(a, i, p),
        same_surroundings(a, b, i),
        b.leases[i] == a.leases[i],
        in_time_order(live(a.queue)),
        live(b.queue) == live(a.queue) || live(b.queue) == enqueue(live(a.queue), e),
        !revoking(i)(e),
        !carries_on(i)(e),
    ensures
        well(b, i, p),
{
    lemma_clear_kept(a, b, e, i);
    lemma_tally_enqueue(live(a.queue), e, carries_on(i));
    assert forall|k: int|
        0 <= k < live(b.queue).len() && carries_on(i)(#[trigger] live(b.queue)[k]) implies stage(
        b.leases[i],
        live(b.queue)[k],
    ) by {
        if live(b.queue) == live(a.queue) {
            assert(carries_on(i)(live(a.queue)[k]));
        } else {
            lemma_enqueue_entry(live(a.queue), e, k);
            let j = choose|j: int|
                0 <= j < live(a.queue).len() && #[trigger] live(a.queue)[j] == live(b.queue)[k];
            assert(carries_on(i)(live(a.queue)[j]));
        }
    }
}

/// The same where nothing is added to the timeline.
proof fn lemma_well_same(a: Sim, b: Sim, i: int, p: int)
    requires
        a.ok(),
        well(a, i, p),
        same_surroundings(a, b, i),
        b.leases[i] == a.leases[i],
        live(b.queue) == live(a.queue),
    ensures
        well(b, i, p),
{
    lemma_live_ordered(a.queue);
    lemma_well_kept(a, b, Timed { at: 0, item: Scheduled::WriteTick }, i, p);
}

/// Nothing carries on the exchange of the lease, which is clear otherwise.
spec fn at_ease(s: Sim, i: int) -> bool {
    &&& clear(s, i)
    &&& tally(live(s.queue), carries_on(i)) == 0
}

/// The exchange goes on.
proof fn lemma_goes_on(a: Sim, b: Sim, e: Timed, i: int, p: int)
    requires
        at_ease(a, i),
        same_surroundings(a, b, i),
        !b.leases[i].grantor.reguard_on_thaw,
        in_time_order(live(a.queue)),
        live(b.queue) == enqueue(live(a.queue), e),
        carries_on(i)(e),
        stage(b.leases[i], e),
    ensures
        well(b, i, p),
{
    lemma_clear_kept(a, b, e, i);
    lemma_tally_enqueue(live(a.queue), e, carries_on(i));
    assert forall|k: int|
        0 <= k < live(b.queue).len() && carries_on(i)(#[trigger] live(b.queue)[k]) implies stage(
        b.leases[i],
        live(b.queue)[k],
    ) by {
        lemma_enqueue_entry(live(a.queue), e, k);
        if live(b.queue)[k] != e {
            let j = choose|j: int|
                0 <= j < live(a.queue).len() && #[trigger] live(a.queue)[j] == live(b.queue)[k];
            lemma_tally_entry(live(a.queue), carries_on(i), j);
        }
    }
}

/// A guard opens, of lease `i` only if nothing was under way.
proof fn lemma_begin_guard_well(s: Sim, i: int, p: int, asked: bool, j: usize)
    requires
        s.ok(),
        undisturbed(s.cfg, i),
        well(s, i, p),
        held(s, i, asked),
        s.now <= p + POLL_INTERVAL,
        j < s.leases.len(),
        j == i ==> s.leases[i].idle(),
    ensures
        well(s.begin_guard(j), i, p),
        held(s.begin_guard(j), i, asked),
{
    lemma_exact(s, i);
    lemma_in_good_time(s, i, p);
    lemma_begin_guard(s, j);
    lemma_begin_guard_effect(s, j);
    lemma_begin_guard_orders(s, j);
    lemma_delivered(s, i, MsgKind::Guard);
    let b = s.begin_guard(j);
    let l = s.leases[j as int];
    let e = Timed {
        at: s.arrival_of(l.id.grantor, l.id.grantee) as Time,
        item: Scheduled::Arrival {
            from: l.id.grantor,
            to: l.id.grantee,
            kind: MsgKind::Guard,
            tag: j,
            fate: s.fate_of(l.id.grantor, l.id.grantee, MsgKind::Guard),
        },
    };
    if j == i {
        lemma_arrival(s, l.id.grantor, l.id.grantee);
        lemma_goes_on(s, b, e, i, p);
    } else {
        lemma_well_kept(s, b, e, i, p);
    }
}

/// A renew goes out, of lease `i` only if nothing was under way.
proof fn lemma_send_renew_well(s: Sim, i: int, p: int, j: usize)
    requires
        s.ok(),
        undisturbed(s.cfg, i),
        j < s.leases.len(),
        j != i ==> well(s, i, p),
        j == i ==> at_ease(s, i) && ({
            let (g, h) = (s.leases[i].grantor, s.leases[i].grantee);
            &&& g.status == LeaseStatus::Active
            &&& g.intended
            &&& s.now <= g.last_reply + 650
            &&& {
                ||| h.status == LeaseStatus::Guarding && s.now + 280 < h.guard_deadline
                ||| h.status == LeaseStatus::Active && s.now + 280 <= h.hold_expiry
            }
        }),
    ensures
        well(s.send_renew(j), i, p),
        s.send_renew(j).leases[i].grantee == s.leases[i].grantee,
{
    lemma_exact(s, i);
    lemma_parties(s, j as int);
    lemma_send_renew(s, j);
    lemma_send_renew_effect(s, j);
    lemma_send_renew_orders(s, j);
    lemma_delivered(s, i, MsgKind::Renew);
    let b = s.send_renew(j);
    let l = s.leases[j as int];
    let e = Timed {
        at: s.arrival_of(l.id.grantor, l.id.grantee) as Time,
        item: Scheduled::Arrival {
            from: l.id.grantor,
            to: l.id.grantee,
            kind: MsgKind::Renew,
            tag: j,
            fate: s.fate_of(l.id.grantor, l.id.grantee, MsgKind::Renew),
        },
    };
    if j == i {
        assert(b.leases[i].grantor.next_renew_due == s.now + 600);
        lemma_goes_on(s, b, e, i, p);
    } else {
        lemma_well_kept(s, b, e, i, p);
    }
}

spec fn well_in(cfg: Config, now: Time, i: int, p: int, asked: bool) -> spec_fn(Sim) -> bool {
    |s: Sim| s.cfg == cfg && s.now == now && well(s, i, p) && held(s, i, asked)
}

proof fn lemma_well_moves(cfg: Config, now: Time, i: int, p: int, asked: bool)
    requires
        undisturbed(cfg, i),
        now <= p + POLL_INTERVAL,
    ensures
        kept_by_due_moves(well_in(cfg, now, i, p, asked), true),
{
    let prop = well_in(cfg, now, i, p, asked);
    let id = cfg.leases[i];
    assert forall|a: Sim, b: Sim|
        a.ok() && b.ok() && prop(a) && #[trigger] due_moves(a, b, true) implies prop(b) by {
        lemma_exact(a, i);
        lemma_in_good_time(a, i, p);
        assert(b.nodes[id.grantor as int] == a.nodes[id.grantor as int]);
        assert(b.nodes[id.grantee as int] == a.nodes[id.grantee as int]);
        if is_quiet(a, b) {
            lemma_well_same(a, b, i, p);
        } else if is_write_move(a, b) {
            if !is_unposted(a, b) {
                let (from, to, kind, tag) = choose|
                    from: NodeId,
                    to: NodeId,
                    kind: MsgKind,
                    tag: usize,
                |
                    kind.is_write_path() && message_ok(a.cfg, from, to, kind, tag) && b
                        == #[trigger] a.send(from, to, kind, tag);
                lemma_send_orders(a, from, to, kind, tag);
            }
            lemma_well_same(a, b, i, p);
        } else if is_retreat(a, b) && crate::moves::retreat_has_cause(a, b) {
            assert(b.leases[i].id == a.leases[i].id);
            assert(b.leases[i] == a.leases[i]);
            lemma_well_same(a, b, i, p);
        } else if exists|j: usize| is_guard(a, b, j) && may_open(a, j as int) {
            let j = choose|j: usize| is_guard(a, b, j) && may_open(a, j as int);
            lemma_begin_guard_effect(a, j);
            lemma_begin_guard_well(a, i, p, asked, j);
        } else {
            let j = choose|j: usize| is_renewal(a, b, j);
            lemma_send_renew_effect(a, j);
            lemma_send_renew_well(a, i, p, j);
        }
    }
}

// ---- Polls -----------------------------------------------------------------

/// After a node has served its grants, none of its renews is due.
proof fn lemma_served(s: Sim, node: NodeId, k: int, i: int)
    requires
        s.ok(),
        0 <= i < k <= s.leases.len(),
        s.leases.len() <= usize::MAX,
    ensures
        !s.service_grants(node, k).renew_due(node, i),
    decreases k,
{
    lemma_service_grants(s, node, k - 1);
    let a = s.service_grants(node, k - 1);
    if i < k - 1 {
        lemma_served(s, node, k - 1, i);
    }
    if a.renew_due(node, k - 1) {
        lemma_send_renew_effect(a, (k - 1) as usize);
    }
}

spec fn served(node: NodeId, i: int) -> spec_fn(Sim) -> bool {
    |s: Sim| 0 <= i < s.leases.len() && !s.renew_due(node, i)
}

/// A renew that is not due stays so for the moment.
proof fn lemma_served_moves(node: NodeId, i: int)
    ensures
        kept_by_moves(served(node, i), true),
{
    let prop = served(node, i);
    assert forall|a: Sim, b: Sim|
        a.ok() && b.ok() && prop(a) && #[trigger] moves(a, b, true) implies prop(b) by {
        if is_quiet(a, b) || is_write_move(a, b) {
        } else if is_retreat(a, b) {
            assert(b.leases[i].id == a.leases[i].id);
        } else if exists|j: usize| is_guard(a, b, j) {
            let j = choose|j: usize| is_guard(a, b, j);
            lemma_begin_guard_effect(a, j);
        } else {
            let j = choose|j: usize| is_renewal(a, b, j);
            lemma_send_renew_effect(a, j);
        }
    }
}

/// After a node that stays up has polled, none of its renews is due.
proof fn lemma_poll_serves(s: Sim, node: NodeId, i: int)
    requires
        s.ok(),
        sized(s),
        node < s.nodes.len(),
        0 <= i < s.leases.len(),
        s.nodes[node as int].up,
        s.cfg.nodes[node as int].fail_chance.num == 0,
    ensures
        !s.poll(node).renew_due(node, i),
{
    reveal(Sim::poll);
    lemma_fault_trial(s, node);
    let s1 = s.fault_trial(node);
    assert(s1.nodes[node as int].up) by {
        reveal(Sim::fault_trial);
    }
    lemma_tend(s1, node);
    let s2 = s1.tend(node);
    assert(!s2.renew_due(node, i)) by {
        reveal(Sim::tend);
        let t1 = s1.abort_stale_writes(node);
        crate::upkeep::lemma_abort_stale_writes(s1, node);
        let t2 = t1.expire_stale_guards(node);
        crate::upkeep::lemma_expire_stale_guards(t1, node);
        let t3 = t2.expire_stale_renews(node);
        crate::upkeep::lemma_expire_stale_renews(t2, node);
        let t4 = t3.maybe_initiate(node, t3.leases.len() as int);
        crate::upkeep::lemma_maybe_initiate(t3, node, t3.leases.len() as int);
        lemma_served(t4, node, t4.leases.len() as int, i);
    }
    lemma_served_moves(node, i);
    let prop = served(node, i);
    assert(prop(s2));
    let n = s2.leases.len() as int;
    keep_recompute_statuses(prop, true, s2, node, n);
    lemma_recompute_statuses(s2, node, n);
    let s3 = s2.recompute_statuses(node, n);
    assert(prop(s3));
}

// ---- Messages --------------------------------------------------------------

/// A party of another lease acts on a message.
proof fn lemma_receive_other(
    s: Sim,
    i: int,
    p: int,
    from: NodeId,
    to: NodeId,
    kind: MsgKind,
    tag: usize,
)
    requires
        s.ok(),
        undisturbed(s.cfg, i),
        well(s, i, p),
        message_ok(s.cfg, from, to, kind, tag),
        !kind.is_write_path(),
        tag != i,
    ensures
        well(s.receive(from, to, kind, tag), i, p),
        s.receive(from, to, kind, tag).leases[i] == s.leases[i],
{
    let j = tag as int;
    let l = s.leases[j];
    lemma_parties(s, j);
    match kind {
        MsgKind::Guard => {
            reveal(Sim::on_guard);
            let g = GranteeState {
                guard_deadline: (s.local(l.id.grantee) + s.params().guard_len()) as Time,
                status: LeaseStatus::Guarding,
                ..l.grantee
            };
            let ev = EventKind::GranteeLease { lease: l.id, status: LeaseStatus::Guarding };
            lemma_with_grantee(s, j, g);
            let s1 = s.with_grantee(j, g);
            lemma_emit(s1, ev);
            lemma_well_same(s, s1.emit(ev), i, p);
            lemma_reply_other(
                s1.emit(ev),
                i,
                p,
                l.id.grantee,
                l.id.grantor,
                MsgKind::GuardReply,
                tag,
            );
        },
        MsgKind::GuardReply => {
            reveal(Sim::on_guard_reply);
            if l.grantor.status == LeaseStatus::Guarding {
                let d = s.local(l.id.grantor) as Time;
                let g = GrantorState {
                    status: LeaseStatus::Active,
                    last_reply: d,
                    next_renew_due: d,
                    ..l.grantor
                };
                let ev = EventKind::GrantorLease { lease: l.id, status: LeaseStatus::Active };
                lemma_with_grantor(s, j, g);
                let s1 = s.with_grantor(j, g);
                lemma_emit(s1, ev);
                lemma_well_same(s, s1.emit(ev), i, p);
                lemma_send_renew_well(s1.emit(ev), i, p, tag);
                lemma_send_renew_effect(s1.emit(ev), tag);
            }
        },
        MsgKind::Renew => {
            reveal(Sim::on_renew);
            if s.accepts_renew(j) {
                let g = GranteeState {
                    hold_expiry: (s.local(l.id.grantee) + s.params().hold_len()) as Time,
                    status: LeaseStatus::Active,
                    ..l.grantee
                };
                let ev = EventKind::GranteeLease { lease: l.id, status: LeaseStatus::Active };
                lemma_with_grantee(s, j, g);
                let s1 = s.with_grantee(j, g);
                lemma_emit(s1, ev);
                let s2 = if l.grantee.status != LeaseStatus::Active {
                    s1.emit(ev)
                } else {
                    s1
                };
                lemma_well_same(s, s2, i, p);
                lemma_reply_other(s2, i, p, l.id.grantee, l.id.grantor, MsgKind::RenewReply, tag);
            }
        },
        MsgKind::RenewReply => {
            reveal(Sim::on_renew_reply);
            lemma_well_same(s, s.on_renew_reply(tag), i, p);
        },
        MsgKind::Revoke => {
            reveal(Sim::on_revoke);
            let g = GranteeState {
                status: LeaseStatus::Expired,
                hold_expiry: s.local(l.id.grantee) as Time,
                ..l.grantee
            };
            let ev = EventKind::GranteeLease { lease: l.id, status: LeaseStatus::Expired };
            lemma_with_grantee(s, j, g);
            let s1 = s.with_grantee(j, g);
            lemma_emit(s1, ev);
            let s2 = if l.holding() {
                s1.emit(ev)
            } else {
                s
            };
            lemma_well_same(s, s2, i, p);
            lemma_reply_other(s2, i, p, l.id.grantee, l.id.grantor, MsgKind::RevokeReply, tag);
        },
        _ => {
            reveal(Sim::on_revoke_reply);
            lemma_well_same(s, s.on_revoke_reply(tag), i, p);
        },
    }
}

/// A reply about another lease is deferred.
proof fn lemma_reply_other(
    s: Sim,
    i: int,
    p: int,
    from: NodeId,
    to: NodeId,
    kind: MsgKind,
    tag: usize,
)
    requires
        s.ok(),
        well(s, i, p),
        kind.is_reply(),
        message_ok(s.cfg, from, to, kind, tag),
        tag != i,
    ensures
        well(s.reply_after_delay(from, to, kind, tag), i, p),
        s.reply_after_delay(from, to, kind, tag).leases == s.leases,
{
    lemma_reply(s, from, to, kind, tag);
    lemma_reply_live(s, from, to, kind, tag);
    lemma_reply_unposted(s, from, to, kind, tag);
    let think = s.cfg.nodes[from as int].response_delay;
    let e = Timed {
        at: (s.now + think.drawn(s.rng, s.normal)) as Time,
        item: Scheduled::Send { from, to, kind, tag },
    };
    lemma_well_kept(s, s.reply_after_delay(from, to, kind, tag), e, i, p);
}

/// A message that is neither a guard, a renew or an answer of the lease, nor part of
/// a revocation of it, is sent.
proof fn lemma_send_other(
    s: Sim,
    i: int,
    p: int,
    from: NodeId,
    to: NodeId,
    kind: MsgKind,
    tag: usize,
)
    requires
        s.ok(),
        well(s, i, p),
        message_ok(s.cfg, from, to, kind, tag),
        tag != i || kind.is_write_path(),
    ensures
        well(s.send(from, to, kind, tag), i, p),
        s.send(from, to, kind, tag).leases == s.leases,
{
    lemma_send(s, from, to, kind, tag);
    lemma_send_live(s, from, to, kind, tag);
    lemma_send_orders(s, from, to, kind, tag);
    let e = Timed {
        at: s.arrival_of(from, to) as Time,
        item: Scheduled::Arrival { from, to, kind, tag, fate: s.fate_of(from, to, kind) },
    };
    lemma_well_kept(s, s.send(from, to, kind, tag), e, i, p);
}

/// The grantee defers its answer, by 50 ticks.
proof fn lemma_answer_deferred(s: Sim, i: int, p: int, kind: MsgKind)
    requires
        s.ok(),
        undisturbed(s.cfg, i),
        i <= usize::MAX,
        at_ease(s, i),
        kind == MsgKind::GuardReply || kind == MsgKind::RenewReply,
        ({
            let id = s.cfg.leases[i];
            let item = Scheduled::Send {
                from: id.grantee,
                to: id.grantor,
                kind,
                tag: i as usize,
            };
            s.now + 50 <= i64::MAX ==> stage(
                s.leases[i],
                Timed { at: (s.now + 50) as Time, item },
            )
        }),
    ensures
        ({
            let id = s.cfg.leases[i];
            let b = s.reply_after_delay(id.grantee, id.grantor, kind, i as usize);
            &&& well(b, i, p)
            &&& b.leases == s.leases
        }),
{
    let id = s.cfg.leases[i];
    let tag = i as usize;
    lemma_reply(s, id.grantee, id.grantor, kind, tag);
    lemma_reply_live(s, id.grantee, id.grantor, kind, tag);
    lemma_reply_unposted(s, id.grantee, id.grantor, kind, tag);
    let think = s.cfg.nodes[id.grantee as int].response_delay;
    assert(think.drawn(s.rng, s.normal) == 50);
    let e = Timed {
        at: (s.now + think.drawn(s.rng, s.normal)) as Time,
        item: Scheduled::Send { from: id.grantee, to: id.grantor, kind, tag },
    };
    let b = s.reply_after_delay(id.grantee, id.grantor, kind, tag);
    lemma_goes_on(s, b, e, i, p);
}

/// The first entry comes off the timeline, and carries on the exchange of the lease.
proof fn lemma_popped_thread(s: Sim, i: int, p: int)
    requires
        s.queue.len() > 0,
        well(s, i, p),
        carries_on(i)(s.queue[0]),
    ensures
        at_ease(s.popped(), i),
        stage(s.leases[i], s.queue[0]),
{
    let id = s.cfg.leases[i];
    lemma_live_drop_first(s.queue);
    assert(live(s.queue)[0] == s.queue[0]);
    assert(carries_on(i)(live(s.queue)[0]));
    lemma_tally_first(live(s.queue), carries_on(i));
    lemma_tally_first(live(s.queue), revoking(i));
    lemma_tally_first(s.queue, gives(Command::Revoke(id)));
    lemma_tally_first(s.queue, gives(Command::FailNode(id.grantor)));
    lemma_tally_first(s.queue, gives(Command::FailNode(id.grantee)));
}

/// The first entry comes off the timeline, and is of no concern to the exchange.
proof fn lemma_popped_other(s: Sim, i: int, p: int)
    requires
        s.queue.len() > 0,
        well(s, i, p),
        !carries_on(i)(s.queue[0]),
    ensures
        well(s.popped(), i, p),
        concerns_lease(s.queue[0]) ==> !revoking(i)(s.queue[0]),
        s.queue[0].item != Scheduled::Command(Command::Revoke(s.cfg.leases[i])),
        s.queue[0].item != Scheduled::Command(Command::FailNode(s.cfg.leases[i].grantor)),
        s.queue[0].item != Scheduled::Command(Command::FailNode(s.cfg.leases[i].grantee)),
{
    let id = s.cfg.leases[i];
    let a = s.popped();
    lemma_live_drop_first(s.queue);
    lemma_tally_first(s.queue, gives(Command::Revoke(id)));
    lemma_tally_first(s.queue, gives(Command::FailNode(id.grantor)));
    lemma_tally_first(s.queue, gives(Command::FailNode(id.grantee)));
    if concerns_lease(s.queue[0]) {
        lemma_tally_first(live(s.queue), carries_on(i));
        lemma_tally_first(live(s.queue), revoking(i));
        assert forall|k: int|
            0 <= k < live(a.queue).len() && carries_on(i)(
                #[trigger] live(a.queue)[k],
            ) implies stage(a.leases[i], live(a.queue)[k]) by {
            assert(live(a.queue)[k] == live(s.queue)[k + 1]);
            assert(carries_on(i)(live(s.queue)[k + 1]));
        }
    }
}

/// The exchange is carried on.
proof fn lemma_thread_well(s: Sim, i: int, p: int, asked: bool)
    requires
        s.ok(),
        sized(s),
        s.queue.len() > 0,
        s.queue[0].at <= s.cfg.duration,
        undisturbed(s.cfg, i),
        well(s, i, p),
        held(s, i, asked),
        p <= s.now,
        carries_on(i)(s.queue[0]),
    ensures
        well(s.step(), i, p),
        held(s.step(), i, asked),
{
    lemma_popped(s);
    lemma_popped_thread(s, i, p);
    let a = s.popped();
    lemma_exact(a, i);
    lemma_live_ordered(a.queue);
    let id = s.cfg.leases[i];
    let l = s.leases[i];
    match s.queue[0].item {
        Scheduled::Send { from, to, kind, tag } => {
            lemma_send(a, from, to, kind, tag);
            lemma_send_live(a, from, to, kind, tag);
            lemma_send_orders(a, from, to, kind, tag);
            lemma_delivered(a, i, kind);
            let e = Timed {
                at: a.arrival_of(from, to) as Time,
                item: Scheduled::Arrival { from, to, kind, tag, fate: a.fate_of(from, to, kind) },
            };
            lemma_arrival(a, from, to);
            lemma_goes_on(a, a.send(from, to, kind, tag), e, i, p);
        },
        Scheduled::Arrival { from, to, kind, tag, fate } => {
            reveal(Sim::arrive);
            let ev = EventKind::MessageDelivered { from, to, kind };
            lemma_emit(a, ev);
            let q = a.emit(ev);
            assert(at_ease(q, i));
            lemma_exact(q, i);
            match kind {
                MsgKind::Guard => {
                    reveal(Sim::on_guard);
                    let g = GranteeState {
                        guard_deadline: (q.local(id.grantee) + q.params().guard_len()) as Time,
                        status: LeaseStatus::Guarding,
                        ..l.grantee
                    };
                    let got = EventKind::GranteeLease { lease: id, status: LeaseStatus::Guarding };
                    lemma_with_grantee(q, i, g);
                    let q1 = q.with_grantee(i, g);
                    lemma_emit(q1, got);
                    assert(at_ease(q1.emit(got), i));
                    lemma_answer_deferred(q1.emit(got), i, p, MsgKind::GuardReply);
                },
                MsgKind::GuardReply => {
                    reveal(Sim::on_guard_reply);
                    let d = q.local(id.grantor) as Time;
                    let g = GrantorState {
                        status: LeaseStatus::Active,
                        last_reply: d,
                        next_renew_due: d,
                        ..l.grantor
                    };
                    let got = EventKind::GrantorLease { lease: id, status: LeaseStatus::Active };
                    lemma_with_grantor(q, i, g);
                    let q1 = q.with_grantor(i, g);
                    lemma_emit(q1, got);
                    assert(at_ease(q1.emit(got), i));
                    lemma_send_renew_well(q1.emit(got), i, p, tag);
                },
                MsgKind::Renew => {
                    reveal(Sim::on_renew);
                    assert(q.accepts_renew(i));
                    let g = GranteeState {
                        hold_expiry: (q.local(id.grantee) + q.params().hold_len()) as Time,
                        status: LeaseStatus::Active,
                        ..l.grantee
                    };
                    let got = EventKind::GranteeLease { lease: id, status: LeaseStatus::Active };
                    lemma_with_grantee(q, i, g);
                    let q1 = q.with_grantee(i, g);
                    lemma_emit(q1, got);
                    let q2 = if l.grantee.status != LeaseStatus::Active {
                        q1.emit(got)
                    } else {
                        q1
                    };
                    assert(at_ease(q2, i));
                    lemma_answer_deferred(q2, i, p, MsgKind::RenewReply);
                },
                _ => {
                    reveal(Sim::on_renew_reply);
                    let b = q.on_renew_reply(tag);
                    assert(at_ease(b, i));
                    assert(b.leases[i].grantor.grant_expiry == q.now + 1600);
                    assert(rest(b.leases[i], p));
                    lemma_ease_is_rest(b, i, p);
                },
            }
        },
        _ => {},
    }
}

/// At rest, with time to spare.
proof fn lemma_ease_is_rest(s: Sim, i: int, p: int)
    requires
        at_ease(s, i),
        rest(s.leases[i], p),
    ensures
        well(s, i, p),
{
    assert forall|k: int|
        0 <= k < live(s.queue).len() && carries_on(i)(#[trigger] live(s.queue)[k]) implies stage(
        s.leases[i],
        live(s.queue)[k],
    ) by {
        lemma_tally_entry(live(s.queue), carries_on(i), k);
    }
}

/// A command takes effect.
proof fn lemma_apply_well(s: Sim, i: int, p: int, asked: bool, cmd: Command)
    requires
        s.ok(),
        sized(s),
        undisturbed(s.cfg, i),
        well(s, i, p),
        held(s, i, asked),
        s.now <= p + POLL_INTERVAL,
        crate::scenario::command_valid(cmd, s.nodes.len()),
        cmd != Command::Revoke(s.cfg.leases[i]),
        cmd != Command::FailNode(s.cfg.leases[i].grantor),
        cmd != Command::FailNode(s.cfg.leases[i].grantee),
    ensures
        well(s.apply(cmd), i, p),
        held(s.apply(cmd), i, asked),
{
    reveal(Sim::apply);
    lemma_exact(s, i);
    let id = s.cfg.leases[i];
    match cmd {
        Command::Initiate(other) => {
            lemma_lease_position(s.leases, other, 0);
            if s.declared(other) && s.leases[s.lease_index(other)].idle() {
                lemma_begin_guard_well(s, i, p, asked, s.lease_index(other) as usize);
            }
        },
        Command::Revoke(other) => {
            lemma_lease_position(s.leases, other, 0);
            if s.declared(other) {
                reveal(Sim::begin_revoke);
                let j = s.lease_index(other) as usize;
                let l = s.leases[j as int];
                let g = GrantorState { intended: false, ..l.grantor };
                lemma_parties(s, j as int);
                lemma_with_grantor(s, j as int, g);
                let s1 = s.with_grantor(j as int, g);
                lemma_well_same(s, s1, i, p);
                lemma_send_other(s1, i, p, l.id.grantor, l.id.grantee, MsgKind::Revoke, j);
            }
        },
        Command::FailNode(node) => {
            lemma_fail_node(s, node);
            reveal(Sim::fail_node);
            lemma_well_same(s, s.fail_node(node), i, p);
        },
        Command::RecoverNode(node) => {
            reveal(Sim::recover_node);
            lemma_well_same(s, s.recover_node(node), i, p);
        },
        Command::Write => {
            let prop = well_in(s.cfg, s.now, i, p, asked);
            lemma_well_moves(s.cfg, s.now, i, p, asked);
            assert(prop(s));
            keep_serve_write(prop, true, s);
            assert(prop(s.serve_write()));
        },
    }
}

/// Something else than the exchange is carried on. `r` is when the grantor has last
/// polled after that.
proof fn lemma_other_well(s: Sim, i: int, p: int, asked: bool, r: int)
    requires
        s.ok(),
        sized(s),
        s.queue.len() > 0,
        s.queue[0].at <= s.cfg.duration,
        s.queue[0].at <= p + POLL_INTERVAL,
        undisturbed(s.cfg, i),
        well(s, i, p),
        held(s, i, asked),
        !carries_on(i)(s.queue[0]),
        r == if s.queue[0].item == (Scheduled::Poll { node: s.cfg.leases[i].grantor }) {
            s.queue[0].at as int
        } else {
            p
        },
    ensures
        well(s.step(), i, r),
        held(s.step(), i, asked),
{
    lemma_popped(s);
    lemma_popped_other(s, i, p);
    let a = s.popped();
    lemma_exact(a, i);
    let prop = well_in(s.cfg, a.now, i, p, asked);
    lemma_well_moves(s.cfg, a.now, i, p, asked);
    assert(prop(a));
    match s.queue[0].item {
        Scheduled::Poll { node } => {
            keep_poll(prop, true, a, node);
            let b = a.poll(node);
            assert(prop(b));
            if node == s.cfg.leases[i].grantor {
                lemma_poll_serves(a, node, i);
                lemma_poll(a, node);
                lemma_polled_anew(a, b, i, p);
            }
        },
        Scheduled::WriteTick => {
            keep_write_tick(prop, true, a);
            assert(prop(a.write_tick()));
        },
        Scheduled::Command(cmd) => {
            lemma_apply_well(a, i, p, asked, cmd);
        },
        Scheduled::Send { from, to, kind, tag } => {
            if a.nodes[from as int].up {
                lemma_send_other(a, i, p, from, to, kind, tag);
            }
        },
        Scheduled::Arrival { from, to, kind, tag, fate } => {
            reveal(Sim::arrive);
            let lost = EventKind::MessageDropped { from, to, kind };
            lemma_well_same(a, a.emit(lost), i, p);
            let ev = EventKind::MessageDelivered { from, to, kind };
            lemma_emit(a, ev);
            let q = a.emit(ev);
            lemma_well_same(a, q, i, p);
            if fate == MsgFate::Delivered && a.nodes[to as int].up {
                if kind.is_write_path() {
                    assert(prop(q));
                    keep_receive_write(prop, true, q, from, to, kind, tag);
                    assert(prop(q.receive(from, to, kind, tag)));
                } else {
                    lemma_receive_other(q, i, p, from, to, kind, tag);
                }
            }
        },
    }
}

/// One step. `r` is when the grantor has last polled after it.
proof fn lemma_step_well(s: Sim, i: int, p: int, asked: bool) -> (r: int)
    requires
        s.ok(),
        sized(s),
        s.queue.len() > 0,
        s.queue[0].at <= s.cfg.duration,
        undisturbed(s.cfg, i),
        steady(s.cfg, s.cfg.leases[i].grantor),
        well(s, i, p),
        held(s, i, asked),
        polled(s, s.cfg.leases[i].grantor, p),
    ensures
        well(s.step(), i, r),
        held(s.step(), i, asked),
        polled(s.step(), s.cfg.leases[i].grantor, r),
{
    let grantor = s.cfg.leases[i].grantor;
    let r = lemma_step_polled(s, grantor, p);
    // The next poll is not behind yet.
    assert(s.queue[0].at <= p + POLL_INTERVAL) by {
        let e = Timed { at: (p + POLL_INTERVAL) as Time, item: Scheduled::Poll { node: grantor } };
        if s.queue.contains(e) {
            let k = choose|k: int| 0 <= k < s.queue.len() && s.queue[k] == e;
            assert(s.queue[0].at <= s.queue[k].at);
        }
    }
    if carries_on(i)(s.queue[0]) {
        lemma_thread_well(s, i, p, asked);
    } else {
        lemma_other_well(s, i, p, asked, r);
    }
    r
}

/// The grantor has polled: if the lease is at rest, its renew is not due yet.
proof fn lemma_polled_anew(a: Sim, b: Sim, i: int, p: int)
    requires
        b.ok(),
        undisturbed(b.cfg, i),
        b.now == a.now,
        b.cfg == a.cfg,
        well(b, i, p),
        !b.renew_due(b.cfg.leases[i].grantor, i),
    ensures
        well(b, i, a.now as int),
{
    lemma_exact(b, i);
}

proof fn lemma_steps_well(s: Sim, i: int, p: int, asked: bool, t: int, n: nat) -> (r: int)
    requires
        s.ok(),
        sized(s),
        t <= s.cfg.duration,
        undisturbed(s.cfg, i),
        steady(s.cfg, s.cfg.leases[i].grantor),
        well(s, i, p),
        held(s, i, asked),
        polled(s, s.cfg.leases[i].grantor, p),
    ensures
        well(s.steps(t, n), i, r),
        held(s.steps(t, n), i, asked),
        polled(s.steps(t, n), s.cfg.leases[i].grantor, r),
    decreases n,
{
    if n == 0 {
        p
    } else {
        let r = lemma_steps_well(s, i, p, asked, t, (n - 1) as nat);
        let before = s.steps(t, (n - 1) as nat);
        lemma_steps_next(s, t, (n - 1) as nat);
        lemma_steps_ok(s, t, (n - 1) as nat);
        if before.settled(t) {
            r
        } else {
            lemma_step_well(before, i, r, asked)
        }
    }
}

proof fn lemma_advanced_well(s: Sim, i: int, p: int, asked: bool, t: int) -> (r: int)
    requires
        s.ok(),
        sized(s),
        undisturbed(s.cfg, i),
        steady(s.cfg, s.cfg.leases[i].grantor),
        well(s, i, p),
        held(s, i, asked),
        polled(s, s.cfg.leases[i].grantor, p),
    ensures
        well(s.advanced(t).taken(), i, r),
        held(s.advanced(t).taken(), i, asked),
        polled(s.advanced(t).taken(), s.cfg.leases[i].grantor, r),
{
    let target = s.target(t);
    let n = lemma_settles(s, target);
    lemma_run_is(s, target, n);
    let r = lemma_steps_well(s, i, p, asked, target, n);
    lemma_advanced(s, t);
    lemma_steps_ok(s, target, n);
    lemma_well_same(s.steps(target, n), s.advanced(t).taken(), i, r);
    r
}

proof fn lemma_initial_well(cfg: Config, normal: spec_fn(NormalDraw) -> Time, i: int)
    requires
        cfg.valid(),
        normal_ok(normal),
        sized(Sim::blank(cfg, normal)),
        undisturbed(cfg, i),
    ensures
        well(Sim::initial(cfg, normal), i, -POLL_INTERVAL as int),
{
    lemma_initial(cfg, normal);
    let s = Sim::initial(cfg, normal);
    let id = cfg.leases[i];
    assert(id.grantor < cfg.nodes.len() && id.grantee < cfg.nodes.len());
    crate::moves::lemma_initial_live(cfg, normal);
    lemma_no_tally(live(s.queue), carries_on(i));
    lemma_no_tally(live(s.queue), revoking(i));
    lemma_initial_orders(cfg, normal, Command::Revoke(id));
    lemma_initial_orders(cfg, normal, Command::FailNode(id.grantor));
    lemma_initial_orders(cfg, normal, Command::FailNode(id.grantee));
}

// ---- Laws ------------------------------------------------------------------

/// A healthy lease stays up: once the grantee holds it, both sides stay active to the
/// end of the run, if nothing gets in the way. (Writes that do not disrupt do not, nor
/// does anything that happens to other leases and nodes.)
pub proof fn law_healthy_lease_stays_up(
    cfg: Config,
    normal: spec_fn(NormalDraw) -> Time,
    i: int,
    t: int,
    u: int,
)
    requires
        cfg.valid(),
        normal_ok(normal),
        sized(Sim::blank(cfg, normal)),
        undisturbed(cfg, i),
        t <= u,
        Sim::initial(cfg, normal).advanced(t).leases[i].grantee.status == LeaseStatus::Active,
    ensures
        Sim::initial(cfg, normal).advanced(u).leases[i].grantor.status == LeaseStatus::Active,
        Sim::initial(cfg, normal).advanced(u).leases[i].grantee.status == LeaseStatus::Active,
{
    let s = Sim::initial(cfg, normal);
    let grantor = cfg.leases[i].grantor;
    assert(grantor < cfg.nodes.len());
    lemma_initial(cfg, normal);
    lemma_initial_well(cfg, normal, i);
    lemma_initial_polled(cfg, normal, grantor);
    let p = lemma_advanced_well(s, i, -POLL_INTERVAL as int, false, t);
    lemma_advanced(s, t);
    let a = s.advanced(t).taken();
    let r = lemma_advanced_well(a, i, p, true, u);
    lemma_advanced(a, u);
    law_advance_in_parts(s, t, u);
    let b = s.advanced(u).taken();
    assert(b.now <= r + POLL_INTERVAL) by {
        let e = Timed { at: (r + POLL_INTERVAL) as Time, item: Scheduled::Poll { node: grantor } };
        if b.queue.contains(e) {
            let k = choose|k: int| 0 <= k < b.queue.len() && b.queue[k] == e;
            assert(b.queue[k].at >= b.now);
        }
    }
    lemma_in_good_time(b, i, r);
}

} // verus!
