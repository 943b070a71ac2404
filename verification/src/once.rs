//! Leases that are granted once. The messages of one grant of a lease follow one
//! another: guard, answer, renew, answer, renew, and so on, each sent only when the
//! one before has arrived. Nothing can cross there, so that such a lease is safe
//! whatever the delays, without reservation.

use crate::clock::Time;
use crate::crossing::{crosses, law_hold_is_promised_whatever_the_delays, timely, upsets};
use crate::dist::NormalDraw;
use crate::event::{Command, EventKind, LeaseStatus, MsgFate, MsgKind, NodeId};
use crate::mail::{gives, lemma_orders_enqueue, lemma_reply_unposted, lemma_send_orders, orders};
use crate::moves::{
    concerns_lease, is_guard, is_quiet, is_renewal, is_retreat, is_write_move, keep_order,
    keep_poll, keep_receive_write, keep_write_tick, kept_by_own_moves, lemma_live_drop_first,
    lemma_reply_live, lemma_send_live, live, may_open, own_moves,
};
use crate::progress::{lemma_initial, lemma_steps_next, lemma_steps_ok, sized};
use crate::safety::{
    grantee_clock, grantee_time, grantor_clock, grantor_time, is_renew, lemma_begin_guard_effect,
    lemma_send_renew_effect,
};
use crate::scenario::Config;
use crate::sim::{max_of, GranteeState, GrantorState, Sim};
use crate::timeline::{
    enqueue, in_time_order, lemma_enqueue, lemma_tally_enqueue, lemma_tally_entry,
    lemma_tally_first, tally, Scheduled, Timed,
};
use crate::upkeep::{
    lemma_emit, lemma_lease_position, lemma_parties, lemma_popped, lemma_reply, lemma_send,
    lemma_with_grantee, lemma_with_grantor, message_ok, normal_ok,
};
use vstd::prelude::*;

verus! {

/// The entry carries on the exchange of guards, renews and their answers of lease
/// `i`.
pub open spec fn carries_on(i: int) -> spec_fn(Timed) -> bool {
    |e: Timed|
        match e.item {
            Scheduled::Send { kind, tag, .. } => tag == i && (kind == MsgKind::GuardReply || kind
                == MsgKind::RenewReply),
            Scheduled::Arrival { kind, tag, fate, .. } => tag == i && fate == MsgFate::Delivered
                && (kind == MsgKind::Guard || kind == MsgKind::GuardReply || kind == MsgKind::Renew
                || kind == MsgKind::RenewReply),
            _ => false,
        }
}

/// How many threads of the exchange are open: under way, or to be started by a
/// command.
pub open spec fn threads(s: Sim, i: int) -> nat {
    tally(live(s.queue), carries_on(i)) + orders(s.queue, Command::Initiate(s.cfg.leases[i]))
}

/// At most one thread of the exchange is open, and none while the grantor is free to
/// send a renew.
pub open spec fn single(s: Sim, i: int) -> bool {
    let g = s.leases[i].grantor;
    &&& threads(s, i) <= 1
    &&& g.status == LeaseStatus::Active && !g.awaiting_reply ==> threads(s, i) == 0
    &&& !g.reguard_on_thaw
}

/// Lease `i` is granted once: its grantor does not start it by chance, no write tears
/// it down to be granted again, and the script starts it at most once.
pub open spec fn granted_once(cfg: Config, i: int) -> bool {
    &&& 0 <= i < cfg.leases.len()
    &&& cfg.nodes[cfg.leases[i].grantor as int].initiate_chance.num == 0
    &&& !cfg.write_disruptive
    &&& forall|j: int, k: int|
        0 <= j < cfg.commands.len() && 0 <= k < cfg.commands.len() && (
        #[trigger] cfg.commands[j]).1 == Command::Initiate(cfg.leases[i]) && (
        #[trigger] cfg.commands[k]).1 == Command::Initiate(cfg.leases[i]) ==> j == k
}

// ---- Changes of a state ----------------------------------------------------

/// The timeline as far as threads are concerned, with at most one more entry.
proof fn lemma_threads(a: Sim, b: Sim, e: Timed, i: int)
    requires
        b.cfg == a.cfg,
        in_time_order(live(a.queue)),
        live(b.queue) == live(a.queue) || live(b.queue) == enqueue(live(a.queue), e),
        forall|cmd: Command| #[trigger] orders(b.queue, cmd) == orders(a.queue, cmd),
    ensures
        threads(a, i) <= threads(b, i) <= threads(a, i) + 1,
        !carries_on(i)(e) ==> threads(b, i) == threads(a, i),
{
    lemma_tally_enqueue(live(a.queue), e, carries_on(i));
    assert(orders(b.queue, Command::Initiate(a.cfg.leases[i])) == orders(
        a.queue,
        Command::Initiate(a.cfg.leases[i]),
    ));
}

/// Opening a guard gives no command.
pub proof fn lemma_begin_guard_orders(s: Sim, j: usize)
    requires
        s.ok(),
        j < s.leases.len(),
    ensures
        forall|cmd: Command|
            #[trigger] orders(s.begin_guard(j).queue, cmd) == orders(s.queue, cmd),
{
    reveal(Sim::begin_guard);
    let l = s.leases[j as int];
    let g = GrantorState {
        status: LeaseStatus::Guarding,
        intended: true,
        awaiting_reply: false,
        reguard_on_thaw: false,
        guard_since: s.local(l.id.grantor) as Time,
        ..l.grantor
    };
    lemma_send_orders(
        s.with_grantor(j as int, g),
        l.id.grantor,
        l.id.grantee,
        MsgKind::Guard,
        j,
    );
}

/// Sending a renew gives no command.
pub proof fn lemma_send_renew_orders(s: Sim, j: usize)
    requires
        s.ok(),
        j < s.leases.len(),
    ensures
        forall|cmd: Command|
            #[trigger] orders(s.send_renew(j).queue, cmd) == orders(s.queue, cmd),
{
    reveal(Sim::send_renew);
    let l = s.leases[j as int];
    let b = s.local(l.id.grantor);
    let g = GrantorState {
        grant_expiry: max_of(l.grantor.grant_expiry as int, b + s.params().grant_len()) as Time,
        next_renew_due: (b + s.params().renew_interval) as Time,
        awaiting_reply: true,
        ..l.grantor
    };
    lemma_send_orders(
        s.with_grantor(j as int, g),
        l.id.grantor,
        l.id.grantee,
        MsgKind::Renew,
        j,
    );
}

/// What opening a guard does to the threads.
proof fn lemma_begin_guard_threads(s: Sim, i: int, j: usize)
    requires
        s.ok(),
        0 <= i < s.leases.len(),
        j < s.leases.len(),
    ensures
        s.begin_guard(j).cfg == s.cfg,
        threads(s.begin_guard(j), i) <= threads(s, i) + 1,
        j != i ==> threads(s.begin_guard(j), i) == threads(s, i) && s.begin_guard(j).leases[i]
            == s.leases[i],
        j == i ==> s.begin_guard(j).leases[i].grantor.status == LeaseStatus::Guarding
            && !s.begin_guard(j).leases[i].grantor.reguard_on_thaw,
{
    lemma_begin_guard_effect(s, j);
    let l = s.leases[j as int];
    let e = Timed {
        at: s.arrival_of(l.id.grantor, l.id.grantee) as Time,
        item: Scheduled::Arrival {
            from: l.id.grantor,
            to: l.id.grantee,
            kind: MsgKind::Guard,
            tag: j,
            fate: s.fate_of(l.id.grantor, l.id.grantee, MsgKind::Guard),
        },
    };
    lemma_begin_guard_orders(s, j);
    lemma_threads(s, s.begin_guard(j), e, i);
}

/// What sending a renew does to the threads.
proof fn lemma_send_renew_threads(s: Sim, i: int, j: usize)
    requires
        s.ok(),
        0 <= i < s.leases.len(),
        j < s.leases.len(),
    ensures
        s.send_renew(j).cfg == s.cfg,
        threads(s.send_renew(j), i) <= threads(s, i) + 1,
        j != i ==> threads(s.send_renew(j), i) == threads(s, i) && s.send_renew(j).leases[i]
            == s.leases[i],
        j == i ==> s.send_renew(j).leases[i].grantor.awaiting_reply && s.send_renew(
            j,
        ).leases[i].grantor.reguard_on_thaw == s.leases[i].grantor.reguard_on_thaw,
{
    lemma_send_renew_effect(s, j);
    let l = s.leases[j as int];
    let e = Timed {
        at: s.arrival_of(l.id.grantor, l.id.grantee) as Time,
        item: Scheduled::Arrival {
            from: l.id.grantor,
            to: l.id.grantee,
            kind: MsgKind::Renew,
            tag: j,
            fate: s.fate_of(l.id.grantor, l.id.grantee, MsgKind::Renew),
        },
    };
    lemma_send_renew_orders(s, j);
    lemma_threads(s, s.send_renew(j), e, i);
}

/// What sending a message does to the threads.
proof fn lemma_send_threads(s: Sim, i: int, from: NodeId, to: NodeId, kind: MsgKind, tag: usize)
    requires
        s.ok(),
        message_ok(s.cfg, from, to, kind, tag),
    ensures
        ({
            let b = s.send(from, to, kind, tag);
            &&& b.cfg == s.cfg
            &&& b.leases == s.leases
            &&& threads(b, i) <= threads(s, i) + 1
            &&& tag != i || kind.is_write_path() || kind == MsgKind::Revoke || kind
                == MsgKind::RevokeReply ==> threads(b, i) == threads(s, i)
        }),
{
    lemma_send(s, from, to, kind, tag);
    lemma_send_live(s, from, to, kind, tag);
    lemma_send_orders(s, from, to, kind, tag);
    let e = Timed {
        at: s.arrival_of(from, to) as Time,
        item: Scheduled::Arrival { from, to, kind, tag, fate: s.fate_of(from, to, kind) },
    };
    lemma_threads(s, s.send(from, to, kind, tag), e, i);
}

/// What deferring a reply does to the threads.
proof fn lemma_reply_threads(s: Sim, i: int, from: NodeId, to: NodeId, kind: MsgKind, tag: usize)
    requires
        s.ok(),
        kind.is_reply(),
        message_ok(s.cfg, from, to, kind, tag),
    ensures
        ({
            let b = s.reply_after_delay(from, to, kind, tag);
            &&& b.cfg == s.cfg
            &&& b.leases == s.leases
            &&& threads(b, i) <= threads(s, i) + 1
            &&& tag != i || kind == MsgKind::RevokeReply ==> threads(b, i) == threads(s, i)
        }),
{
    lemma_reply(s, from, to, kind, tag);
    lemma_reply_live(s, from, to, kind, tag);
    lemma_reply_unposted(s, from, to, kind, tag);
    let think = s.cfg.nodes[from as int].response_delay;
    let e = Timed {
        at: (s.now + think.drawn(s.rng, s.normal)) as Time,
        item: Scheduled::Send { from, to, kind, tag },
    };
    lemma_threads(s, s.reply_after_delay(from, to, kind, tag), e, i);
}

spec fn single_in(cfg: Config, i: int) -> spec_fn(Sim) -> bool {
    |s: Sim| s.cfg == cfg && single(s, i)
}

proof fn lemma_single_moves(cfg: Config, i: int)
    requires
        granted_once(cfg, i),
    ensures
        kept_by_own_moves(single_in(cfg, i), true),
{
    let prop = single_in(cfg, i);
    let start = Command::Initiate(cfg.leases[i]);
    assert forall|a: Sim, b: Sim|
        a.ok() && b.ok() && prop(a) && #[trigger] own_moves(a, b, true) implies prop(b) by {
        if is_quiet(a, b) {
            assert(orders(b.queue, start) == orders(a.queue, start));
        } else if is_retreat(a, b) {
            assert(b.leases[i].id == a.leases[i].id);
        } else if is_write_move(a, b) {
            if crate::mail::is_unposted(a, b) {
                assert(orders(b.queue, start) == orders(a.queue, start));
            } else {
                let (from, to, kind, tag) = choose|
                    from: NodeId,
                    to: NodeId,
                    kind: MsgKind,
                    tag: usize,
                |
                    kind.is_write_path() && message_ok(a.cfg, from, to, kind, tag) && b
                        == #[trigger] a.send(from, to, kind, tag);
                lemma_send_orders(a, from, to, kind, tag);
                assert(orders(b.queue, start) == orders(a.queue, start));
            }
        } else if exists|j: usize| is_guard(a, b, j) && may_open(a, j as int) {
            let j = choose|j: usize| is_guard(a, b, j) && may_open(a, j as int);
            lemma_parties(a, j as int);
            lemma_begin_guard_threads(a, i, j);
        } else {
            let j = choose|j: usize| is_renewal(a, b, j);
            lemma_send_renew_threads(a, i, j);
        }
    }
}

/// A party acts on a lease message. If it is one of the exchange of lease `i`, no
/// thread is open any more.
proof fn lemma_receive_single(
    s: Sim,
    i: int,
    from: NodeId,
    to: NodeId,
    kind: MsgKind,
    tag: usize,
)
    requires
        s.ok(),
        0 <= i < s.leases.len(),
        single(s, i),
        message_ok(s.cfg, from, to, kind, tag),
        !kind.is_write_path(),
        tag == i && kind != MsgKind::Revoke && kind != MsgKind::RevokeReply ==> threads(s, i) == 0,
        tag == i && (kind == MsgKind::Guard || kind == MsgKind::Renew) ==> !(
        s.leases[i].grantor.status == LeaseStatus::Active
            && !s.leases[i].grantor.awaiting_reply),
    ensures
        single(s.receive(from, to, kind, tag), i),
{
    let j = tag as int;
    let l = s.leases[j];
    lemma_parties(s, j);
    match kind {
        MsgKind::Guard => {
            reveal(Sim::on_guard);
            let g = GranteeState {
                guard_deadline: (s.local(l.id.grantee) + s.params().guard_len()) as Time,
                status: LeaseStatus::Guarding,
                ..l.grantee
            };
            let ev = EventKind::GranteeLease { lease: l.id, status: LeaseStatus::Guarding };
            lemma_with_grantee(s, j, g);
            let s1 = s.with_grantee(j, g);
            lemma_emit(s1, ev);
            lemma_reply_threads(
                s1.emit(ev),
                i,
                l.id.grantee,
                l.id.grantor,
                MsgKind::GuardReply,
                tag,
            );
        },
        MsgKind::GuardReply => {
            reveal(Sim::on_guard_reply);
            if l.grantor.status == LeaseStatus::Guarding {
                let d = s.local(l.id.grantor) as Time;
                let g = GrantorState {
                    status: LeaseStatus::Active,
                    last_reply: d,
                    next_renew_due: d,
                    ..l.grantor
                };
                let ev = EventKind::GrantorLease { lease: l.id, status: LeaseStatus::Active };
                lemma_with_grantor(s, j, g);
                let s1 = s.with_grantor(j, g);
                lemma_emit(s1, ev);
                lemma_send_renew_threads(s1.emit(ev), i, tag);
                assert(threads(s1.emit(ev), i) == threads(s, i));
            }
        },
        MsgKind::Renew => {
            reveal(Sim::on_renew);
            if s.accepts_renew(j) {
                let g = GranteeState {
                    hold_expiry: (s.local(l.id.grantee) + s.params().hold_len()) as Time,
                    status: LeaseStatus::Active,
                    ..l.grantee
                };
                let ev = EventKind::GranteeLease { lease: l.id, status: LeaseStatus::Active };
                lemma_with_grantee(s, j, g);
                let s1 = s.with_grantee(j, g);
                lemma_emit(s1, ev);
                let s2 = if l.grantee.status != LeaseStatus::Active {
                    s1.emit(ev)
                } else {
                    s1
                };
                assert(threads(s2, i) == threads(s, i));
                lemma_reply_threads(s2, i, l.id.grantee, l.id.grantor, MsgKind::RenewReply, tag);
            }
        },
        MsgKind::RenewReply => {
            reveal(Sim::on_renew_reply);
            assert(threads(s.on_renew_reply(tag), i) == threads(s, i));
        },
        MsgKind::Revoke => {
            reveal(Sim::on_revoke);
            let g = GranteeState {
                status: LeaseStatus::Expired,
                hold_expiry: s.local(l.id.grantee) as Time,
                ..l.grantee
            };
            let ev = EventKind::GranteeLease { lease: l.id, status: LeaseStatus::Expired };
            lemma_with_grantee(s, j, g);
            let s1 = s.with_grantee(j, g);
            lemma_emit(s1, ev);
            let s2 = if l.holding() {
                s1.emit(ev)
            } else {
                s
            };
            assert(threads(s2, i) == threads(s, i));
            lemma_reply_threads(s2, i, l.id.grantee, l.id.grantor, MsgKind::RevokeReply, tag);
        },
        _ => {
            reveal(Sim::on_revoke_reply);
            assert(threads(s.on_revoke_reply(tag), i) == threads(s, i));
        },
    }
}

/// The first entry comes off the timeline.
proof fn lemma_popped_threads(s: Sim, i: int)
    requires
        s.queue.len() > 0,
    ensures
        threads(s.popped(), i) <= threads(s, i),
        carries_on(i)(s.queue[0]) || s.queue[0].item == Scheduled::Command(
            Command::Initiate(s.cfg.leases[i]),
        ) ==> threads(s.popped(), i) == threads(s, i) - 1,
{
    lemma_live_drop_first(s.queue);
    lemma_tally_first(s.queue, gives(Command::Initiate(s.cfg.leases[i])));
    if concerns_lease(s.queue[0]) {
        lemma_tally_first(live(s.queue), carries_on(i));
    }
}

/// One step of a lease that is granted once.
proof fn lemma_step_single(s: Sim, i: int)
    requires
        s.ok(),
        sized(s),
        s.queue.len() > 0,
        s.queue[0].at <= s.cfg.duration,
        granted_once(s.cfg, i),
        single(s, i),
    ensures
        single(s.step(), i),
{
    lemma_popped(s);
    lemma_popped_threads(s, i);
    lemma_single_moves(s.cfg, i);
    let a = s.popped();
    let prop = single_in(s.cfg, i);
    assert(prop(a));
    match s.queue[0].item {
        Scheduled::Poll { node } => {
            keep_poll(prop, true, a, node);
            assert(prop(a.poll(node)));
        },
        Scheduled::WriteTick => {
            keep_write_tick(prop, true, a);
            assert(prop(a.write_tick()));
        },
        Scheduled::Command(cmd) => {
            if let Command::Revoke(id) = cmd {
                reveal(Sim::apply);
                reveal(Sim::begin_revoke);
                lemma_lease_position(a.leases, id, 0);
                if a.declared(id) {
                    let j = a.lease_index(id) as usize;
                    let l = a.leases[j as int];
                    let g = GrantorState { intended: false, ..l.grantor };
                    lemma_parties(a, j as int);
                    lemma_with_grantor(a, j as int, g);
                    let a1 = a.with_grantor(j as int, g);
                    lemma_send_threads(a1, i, l.id.grantor, l.id.grantee, MsgKind::Revoke, j);
                    assert(threads(a1, i) == threads(a, i));
                }
            } else if let Command::Initiate(id) = cmd {
                reveal(Sim::apply);
                lemma_lease_position(a.leases, id, 0);
                if a.declared(id) {
                    let j = a.lease_index(id) as usize;
                    lemma_parties(a, j as int);
                    lemma_begin_guard_threads(a, i, j);
                }
            } else {
                keep_order(prop, true, a, cmd);
                assert(prop(a.apply(cmd)));
            }
        },
        Scheduled::Send { from, to, kind, tag } => {
            lemma_send_threads(a, i, from, to, kind, tag);
        },
        Scheduled::Arrival { from, to, kind, tag, fate } => {
            reveal(Sim::arrive);
            let ev = EventKind::MessageDelivered { from, to, kind };
            lemma_emit(a, ev);
            let q = a.emit(ev);
            assert(threads(q, i) == threads(a, i));
            assert(single(q, i));
            if fate == MsgFate::Delivered && a.nodes[to as int].up {
                if kind.is_write_path() {
                    assert(prop(q));
                    keep_receive_write(prop, true, q, from, to, kind, tag);
                    assert(prop(q.receive(from, to, kind, tag)));
                } else {
                    lemma_receive_single(q, i, from, to, kind, tag);
                }
            }
        },
    }
}

proof fn lemma_steps_single(s: Sim, i: int, t: int, n: nat)
    requires
        s.ok(),
        sized(s),
        t <= s.cfg.duration,
        granted_once(s.cfg, i),
        single(s, i),
    ensures
        single(s.steps(t, n), i),
    decreases n,
{
    if n > 0 {
        lemma_steps_single(s, i, t, (n - 1) as nat);
        let before = s.steps(t, (n - 1) as nat);
        lemma_steps_next(s, t, (n - 1) as nat);
        lemma_steps_ok(s, t, (n - 1) as nat);
        if !before.settled(t) {
            lemma_step_single(before, i);
        }
    }
}

/// Where at most one thread is open, nothing crosses.
proof fn lemma_single_does_not_cross(s: Sim, i: int)
    requires
        s.ok(),
        single(s, i),
    ensures
        !crosses(s, i),
{
    if crosses(s, i) {
        lemma_popped_threads(s, i);
        let p = s.popped();
        let k = choose|k: int|
            0 <= k < live(p.queue).len() && is_renew(#[trigger] live(p.queue)[k], i);
        lemma_tally_entry(live(p.queue), carries_on(i), k);
    }
}

/// At the start of a run, at most the command of the script is there.
proof fn lemma_initial_single(cfg: Config, normal: spec_fn(NormalDraw) -> Time, i: int)
    requires
        cfg.valid(),
        normal_ok(normal),
        sized(Sim::blank(cfg, normal)),
        granted_once(cfg, i),
    ensures
        single(Sim::initial(cfg, normal), i),
{
    lemma_initial(cfg, normal);
    let s = Sim::initial(cfg, normal);
    lemma_initial_orders(cfg, normal, Command::Initiate(cfg.leases[i]));
    crate::moves::lemma_initial_live(cfg, normal);
    lemma_no_tally(live(s.queue), carries_on(i));
}

/// A command that the script gives at most once is due at most once at the start of
/// a run, and not at all if the script does not give it.
pub proof fn lemma_initial_orders(
    cfg: Config,
    normal: spec_fn(NormalDraw) -> Time,
    cmd: Command,
)
    requires
        cfg.valid(),
        normal_ok(normal),
        sized(Sim::blank(cfg, normal)),
        forall|x: int, y: int|
            0 <= x < cfg.commands.len() && 0 <= y < cfg.commands.len() && (
            #[trigger] cfg.commands[x]).1 == cmd && (#[trigger] cfg.commands[y]).1 == cmd ==> x
                == y,
    ensures
        orders(Sim::initial(cfg, normal).queue, cmd) <= 1,
        (forall|x: int| 0 <= x < cfg.commands.len() ==> (#[trigger] cfg.commands[x]).1 != cmd)
            ==> orders(Sim::initial(cfg, normal).queue, cmd) == 0,
{
    let s0 = Sim::blank(cfg, normal);
    let s1 = s0.with_polls(cfg.nodes.len() as int);
    lemma_polls_orders(s0, cmd, cfg.nodes.len() as int);
    let s2 = s1.with_commands(cfg.commands.len() as int);
    lemma_commands_orders(s1, cmd, cfg.commands.len() as int);
    let s = Sim::initial(cfg, normal);
    if let Some(iv) = cfg.write_interval {
        let e = Timed {
            at: max_of(s2.jittered(iv as int), s2.now as int) as Time,
            item: Scheduled::WriteTick,
        };
        lemma_orders_enqueue(s2.queue, e);
        assert(orders(s.queue, cmd) == orders(s2.queue, cmd));
    }
}

/// Where nothing is of a kind, nothing is counted.
pub proof fn lemma_no_tally(queue: Seq<Timed>, of: spec_fn(Timed) -> bool)
    requires
        forall|k: int| 0 <= k < queue.len() ==> !of(#[trigger] queue[k]),
    ensures
        tally(queue, of) == 0,
    decreases queue.len(),
{
    if queue.len() > 0 {
        let rest = queue.drop_last();
        assert forall|k: int| 0 <= k < rest.len() implies !of(#[trigger] rest[k]) by {
            assert(rest[k] == queue[k]);
        }
        lemma_no_tally(rest, of);
        assert(!of(queue[queue.len() - 1]));
    }
}

proof fn lemma_polls_orders(s: Sim, cmd: Command, k: int)
    requires
        in_time_order(s.queue),
        0 <= k,
    ensures
        in_time_order(s.with_polls(k).queue),
        orders(s.with_polls(k).queue, cmd) == orders(s.queue, cmd),
        s.with_polls(k).cfg == s.cfg,
    decreases k,
{
    if k > 0 {
        lemma_polls_orders(s, cmd, k - 1);
        let a = s.with_polls(k - 1);
        let e = Timed {
            at: max_of(0, a.now as int) as Time,
            item: Scheduled::Poll { node: (k - 1) as usize },
        };
        lemma_orders_enqueue(a.queue, e);
        lemma_enqueue(a.queue, e);
        assert(orders(enqueue(a.queue, e), cmd) == orders(a.queue, cmd));
    }
}

/// A command that the script gives at most once is due at most once.
proof fn lemma_commands_orders(s: Sim, cmd: Command, k: int)
    requires
        in_time_order(s.queue),
        0 <= k <= s.cfg.commands.len(),
        orders(s.queue, cmd) == 0,
        forall|x: int, y: int|
            0 <= x < s.cfg.commands.len() && 0 <= y < s.cfg.commands.len() && (
            #[trigger] s.cfg.commands[x]).1 == cmd && (#[trigger] s.cfg.commands[y]).1 == cmd ==> x
                == y,
    ensures
        in_time_order(s.with_commands(k).queue),
        s.with_commands(k).cfg == s.cfg,
        orders(s.with_commands(k).queue, cmd) <= 1,
        orders(s.with_commands(k).queue, cmd) == 1 ==> exists|x: int|
            0 <= x < k && (#[trigger] s.cfg.commands[x]).1 == cmd,
    decreases k,
{
    if k > 0 {
        lemma_commands_orders(s, cmd, k - 1);
        let a = s.with_commands(k - 1);
        let e = Timed {
            at: max_of(s.cfg.commands[k - 1].0 as int, a.now as int) as Time,
            item: Scheduled::Command(s.cfg.commands[k - 1].1),
        };
        lemma_tally_enqueue(a.queue, e, gives(cmd));
        lemma_enqueue(a.queue, e);
        if orders(a.queue, cmd) == 1 {
            let x = choose|x: int| 0 <= x < k - 1 && (#[trigger] s.cfg.commands[x]).1 == cmd;
            assert(s.cfg.commands[k - 1].1 != cmd);
        }
    }
}

// ---- Laws ------------------------------------------------------------------

/// The messages of a lease that is granted once do not cross, in any state of a run.
pub proof fn law_one_grant_does_not_cross(
    cfg: Config,
    normal: spec_fn(NormalDraw) -> Time,
    i: int,
    t: int,
    n: nat,
)
    requires
        cfg.valid(),
        normal_ok(normal),
        sized(Sim::blank(cfg, normal)),
        granted_once(cfg, i),
        t <= cfg.duration,
    ensures
        !crosses(Sim::initial(cfg, normal).steps(t, n), i),
{
    let s = Sim::initial(cfg, normal);
    lemma_initial(cfg, normal);
    lemma_initial_single(cfg, normal, i);
    lemma_steps_single(s, i, t, n);
    lemma_steps_ok(s, t, n);
    lemma_single_does_not_cross(s.steps(t, n), i);
}

/// A lease that is granted once is safe whatever the delays: with clocks that keep to
/// the drift that the lease allows for, the grantee does not hold it longer than the
/// grantor promised, by either's clock and in global time, at any time of a run. The
/// first renew, like any message, may come arbitrarily late or be lost; the lease may
/// be revoked at any time, and the parties may crash and recover.
pub proof fn law_one_grant_is_safe_whatever_the_delays(
    cfg: Config,
    normal: spec_fn(NormalDraw) -> Time,
    i: int,
    t: int,
)
    requires
        cfg.valid(),
        normal_ok(normal),
        sized(Sim::blank(cfg, normal)),
        timely(cfg, i),
        granted_once(cfg, i),
    ensures
        ({
            let l = Sim::initial(cfg, normal).advanced(t).leases[i];
            let (d, c) = (l.grantor.grant_expiry, l.grantee.hold_expiry);
            l.grantee.status == LeaseStatus::Active ==> {
                &&& forall|u: int|
                    0 <= u && #[trigger] grantee_clock(cfg, i, u) <= c ==> grantor_clock(cfg, i, u)
                        <= d
                &&& grantor_time(cfg, i, d as int) >= grantee_time(cfg, i, c as int)
            }
        }),
{
    let s = Sim::initial(cfg, normal);
    lemma_initial(cfg, normal);
    let target = s.target(t);
    assert forall|k: nat| !upsets(#[trigger] s.steps(target, k), i) by {
        law_one_grant_does_not_cross(cfg, normal, i, target, k);
    }
    law_hold_is_promised_whatever_the_delays(cfg, normal, i, t);
}

} // verus!
