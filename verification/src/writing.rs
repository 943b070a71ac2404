//! The write path: when there are writes, how many at a time, when one commits,
//! and what it does to leases.

use crate::clock::Time;
use crate::dist::NormalDraw;
use crate::event::{Command, EventKind, LeaseStatus, MsgKind, NodeId};
use crate::moves::{
    concerns_write, is_guard, is_quiet, is_renewal, is_retreat, is_write_event, is_write_move,
    keep_apply, keep_poll, keep_receive_write, keep_write_tick, kept_by_moves,
    lemma_reply_live, lemma_send_live, lemma_writes_enqueue, moves, writes,
};
use crate::progress::{lemma_steps_next, lemma_steps_ok, sized};
use crate::safety::{lemma_begin_guard_effect, lemma_send_renew_effect};
use crate::scenario::Config;
use crate::sim::{
    max_of, round_position, GranteeState, GrantorState, LeaseState, NodeState, Round, Sim,
};
use crate::timeline::{in_time_order, lemma_enqueue, Scheduled, Timed};
use crate::topology::lemma_below_len;
use crate::upkeep::{
    lemma_broadcast, lemma_emit, lemma_leader, lemma_lease_position, lemma_parties, lemma_popped,
    lemma_reply, lemma_round_position, lemma_send, lemma_smallest_grantee, lemma_with_grantee,
    lemma_with_grantor, message_ok,
};
use vstd::prelude::*;

verus! {

/// Nothing about a write is outstanding, due or reported.
pub open spec fn writeless(s: Sim) -> bool {
    &&& s.rounds.len() == 0
    &&& writes(s.queue).len() == 0
    &&& forall|k: int| 0 <= k < s.pending.len() ==> !is_write_event((#[trigger] s.pending[k]).kind)
}

/// Nothing about a write is outstanding or due; for disruptive writes, at most
/// one round is outstanding.
pub open spec fn one_round_at_most(s: Sim) -> bool {
    s.cfg.write_disruptive ==> s.rounds.len() <= 1
}

spec fn writeless_in(cfg: Config) -> spec_fn(Sim) -> bool {
    |s: Sim| s.cfg == cfg && writeless(s)
}

spec fn one_round_in(cfg: Config) -> spec_fn(Sim) -> bool {
    |s: Sim| s.cfg == cfg && one_round_at_most(s)
}

proof fn lemma_writeless_kept(cfg: Config)
    ensures
        kept_by_moves(writeless_in(cfg), false),
{
    let prop = writeless_in(cfg);
    assert forall|a: Sim, b: Sim|
        a.ok() && b.ok() && prop(a) && #[trigger] moves(a, b, false) implies prop(b) by {
        if is_quiet(a, b) || is_retreat(a, b) {
        } else if exists|j: usize| is_guard(a, b, j) {
            let j = choose|j: usize| is_guard(a, b, j);
            lemma_begin_guard_effect(a, j);
        } else {
            let j = choose|j: usize| is_renewal(a, b, j);
            lemma_send_renew_effect(a, j);
        }
    }
}

proof fn lemma_one_round_kept(cfg: Config)
    ensures
        kept_by_moves(one_round_in(cfg), true),
{
    let prop = one_round_in(cfg);
    assert forall|a: Sim, b: Sim|
        a.ok() && b.ok() && prop(a) && #[trigger] moves(a, b, true) implies prop(b) by {
        if is_quiet(a, b) || is_retreat(a, b) || is_write_move(a, b) {
        } else if exists|j: usize| is_guard(a, b, j) {
            let j = choose|j: usize| is_guard(a, b, j);
            lemma_begin_guard_effect(a, j);
        } else {
            let j = choose|j: usize| is_renewal(a, b, j);
            lemma_send_renew_effect(a, j);
        }
    }
}

/// What a lease message does to the write path: nothing.
pub open spec fn leaves_writes(a: Sim, b: Sim) -> bool {
    &&& b.ok()
    &&& b.cfg == a.cfg
    &&& b.rounds == a.rounds
    &&& writes(b.queue) == writes(a.queue)
    &&& a.pending.len() <= b.pending.len()
    &&& forall|k: int| 0 <= k < a.pending.len() ==> #[trigger] b.pending[k] == a.pending[k]
    &&& forall|k: int|
        a.pending.len() <= k < b.pending.len() ==> !is_write_event((#[trigger] b.pending[k]).kind)
}

proof fn lemma_leaves_trans(a: Sim, b: Sim, c: Sim)
    requires
        leaves_writes(a, b),
        leaves_writes(b, c),
    ensures
        leaves_writes(a, c),
{
    assert forall|k: int| 0 <= k < a.pending.len() implies #[trigger] c.pending[k] == a.pending[k] by {
        assert(b.pending[k] == a.pending[k]);
    }
    assert forall|k: int| a.pending.len() <= k < c.pending.len() implies !is_write_event(
        (#[trigger] c.pending[k]).kind,
    ) by {
        if k < b.pending.len() {
            assert(c.pending[k] == b.pending[k]);
        }
    }
}

proof fn leave_emit(s: Sim, kind: EventKind)
    requires
        s.ok(),
        !is_write_event(kind),
    ensures
        leaves_writes(s, s.emit(kind)),
{
    lemma_emit(s, kind);
}

proof fn leave_send(s: Sim, from: NodeId, to: NodeId, kind: MsgKind, tag: usize)
    requires
        s.ok(),
        !kind.is_write_path(),
        message_ok(s.cfg, from, to, kind, tag),
    ensures
        leaves_writes(s, s.send(from, to, kind, tag)),
{
    lemma_send(s, from, to, kind, tag);
    lemma_send_live(s, from, to, kind, tag);
}

proof fn leave_reply(s: Sim, from: NodeId, to: NodeId, kind: MsgKind, tag: usize)
    requires
        s.ok(),
        !kind.is_write_path(),
        kind.is_reply(),
        message_ok(s.cfg, from, to, kind, tag),
    ensures
        leaves_writes(s, s.reply_after_delay(from, to, kind, tag)),
{
    lemma_reply(s, from, to, kind, tag);
    lemma_reply_live(s, from, to, kind, tag);
}

proof fn leave_begin_revoke(s: Sim, j: usize)
    requires
        s.ok(),
        j < s.leases.len(),
    ensures
        leaves_writes(s, s.begin_revoke(j)),
{
    reveal(Sim::begin_revoke);
    lemma_parties(s, j as int);
    let l = s.leases[j as int];
    let g = GrantorState { intended: false, ..l.grantor };
    lemma_with_grantor(s, j as int, g);
    let s1 = s.with_grantor(j as int, g);
    leave_send(s1, l.id.grantor, l.id.grantee, MsgKind::Revoke, j);
}

proof fn leave_on_guard(s: Sim, j: usize)
    requires
        s.ok(),
        j < s.leases.len(),
    ensures
        leaves_writes(s, s.on_guard(j)),
{
    reveal(Sim::on_guard);
    lemma_parties(s, j as int);
    let l = s.leases[j as int];
    let g = GranteeState {
        guard_deadline: (s.local(l.id.grantee) + s.params().guard_len()) as Time,
        status: LeaseStatus::Guarding,
        ..l.grantee
    };
    lemma_with_grantee(s, j as int, g);
    let s1 = s.with_grantee(j as int, g);
    let ev = EventKind::GranteeLease { lease: l.id, status: LeaseStatus::Guarding };
    leave_emit(s1, ev);
    leave_reply(s1.emit(ev), l.id.grantee, l.id.grantor, MsgKind::GuardReply, j);
    lemma_leaves_trans(s1, s1.emit(ev), s.on_guard(j));
}

proof fn leave_on_guard_reply(s: Sim, j: usize)
    requires
        s.ok(),
        j < s.leases.len(),
    ensures
        leaves_writes(s, s.on_guard_reply(j)),
{
    reveal(Sim::on_guard_reply);
    lemma_parties(s, j as int);
    let l = s.leases[j as int];
    if l.grantor.status == LeaseStatus::Guarding {
        let d = s.local(l.id.grantor) as Time;
        let g = GrantorState {
            status: LeaseStatus::Active,
            last_reply: d,
            next_renew_due: d,
            ..l.grantor
        };
        lemma_with_grantor(s, j as int, g);
        let s1 = s.with_grantor(j as int, g);
        let ev = EventKind::GrantorLease { lease: l.id, status: LeaseStatus::Active };
        leave_emit(s1, ev);
        let s2 = s1.emit(ev);
        crate::upkeep::lemma_send_renew(s2, j);
        lemma_send_renew_effect(s2, j);
        assert(leaves_writes(s2, s2.send_renew(j)));
        lemma_leaves_trans(s1, s2, s2.send_renew(j));
    }
}

proof fn leave_on_renew(s: Sim, j: usize)
    requires
        s.ok(),
        j < s.leases.len(),
    ensures
        leaves_writes(s, s.on_renew(j)),
{
    reveal(Sim::on_renew);
    lemma_parties(s, j as int);
    let l = s.leases[j as int];
    if s.accepts_renew(j as int) {
        let g = GranteeState {
            hold_expiry: (s.local(l.id.grantee) + s.params().hold_len()) as Time,
            status: LeaseStatus::Active,
            ..l.grantee
        };
        lemma_with_grantee(s, j as int, g);
        let s1 = s.with_grantee(j as int, g);
        let ev = EventKind::GranteeLease { lease: l.id, status: LeaseStatus::Active };
        leave_emit(s1, ev);
        let s2 = if l.grantee.status != LeaseStatus::Active {
            s1.emit(ev)
        } else {
            s1
        };
        leave_reply(s2, l.id.grantee, l.id.grantor, MsgKind::RenewReply, j);
        lemma_leaves_trans(
            s1,
            s2,
            s2.reply_after_delay(l.id.grantee, l.id.grantor, MsgKind::RenewReply, j),
        );
    }
}

proof fn leave_on_renew_reply(s: Sim, j: usize)
    requires
        s.ok(),
        j < s.leases.len(),
    ensures
        leaves_writes(s, s.on_renew_reply(j)),
{
    crate::upkeep::lemma_on_renew_reply(s, j);
    reveal(Sim::on_renew_reply);
}

proof fn leave_on_revoke(s: Sim, j: usize)
    requires
        s.ok(),
        j < s.leases.len(),
    ensures
        leaves_writes(s, s.on_revoke(j)),
{
    reveal(Sim::on_revoke);
    lemma_parties(s, j as int);
    let l = s.leases[j as int];
    let g = GranteeState {
        status: LeaseStatus::Expired,
        hold_expiry: s.local(l.id.grantee) as Time,
        ..l.grantee
    };
    lemma_with_grantee(s, j as int, g);
    let s1 = s.with_grantee(j as int, g);
    let ev = EventKind::GranteeLease { lease: l.id, status: LeaseStatus::Expired };
    leave_emit(s1, ev);
    let s2 = if l.holding() {
        s1.emit(ev)
    } else {
        s
    };
    leave_reply(s2, l.id.grantee, l.id.grantor, MsgKind::RevokeReply, j);
    assert(leaves_writes(s, s2));
    lemma_leaves_trans(s, s2, s.on_revoke(j));
}

proof fn leave_on_revoke_reply(s: Sim, j: usize)
    requires
        s.ok(),
        j < s.leases.len(),
    ensures
        leaves_writes(s, s.on_revoke_reply(j)),
{
    crate::upkeep::lemma_on_revoke_reply(s, j);
    reveal(Sim::on_revoke_reply);
}

/// A party that acts on a lease message leaves writes alone.
proof fn leave_receive(s: Sim, from: NodeId, to: NodeId, kind: MsgKind, tag: usize)
    requires
        s.ok(),
        message_ok(s.cfg, from, to, kind, tag),
        !kind.is_write_path(),
    ensures
        leaves_writes(s, s.receive(from, to, kind, tag)),
{
    match kind {
        MsgKind::Guard => leave_on_guard(s, tag),
        MsgKind::GuardReply => leave_on_guard_reply(s, tag),
        MsgKind::Renew => leave_on_renew(s, tag),
        MsgKind::RenewReply => leave_on_renew_reply(s, tag),
        MsgKind::Revoke => leave_on_revoke(s, tag),
        _ => leave_on_revoke_reply(s, tag),
    }
}

/// Taking the first entry off the timeline.
proof fn lemma_writes_drop_first(queue: Seq<Timed>)
    requires
        queue.len() > 0,
    ensures
        !concerns_write(queue[0]) ==> writes(queue.drop_first()) == writes(queue),
        concerns_write(queue[0]) ==> writes(queue).len() > 0,
{
    let head = seq![queue[0]];
    let rest = queue.drop_first();
    assert(queue =~= head + rest);
    Seq::filter_distributes_over_add(head, rest, |e: Timed| concerns_write(e));
    assert(writes(queue) == writes(head) + writes(rest));
    reveal(Seq::filter);
    assert(head.drop_last() =~= Seq::<Timed>::empty());
    assert(writes(Seq::<Timed>::empty()) =~= Seq::<Timed>::empty());
    if !concerns_write(queue[0]) {
        assert(writes(head) =~= Seq::<Timed>::empty());
        assert(writes(queue) =~= writes(rest));
    } else {
        assert(writes(head) =~= head);
    }
}

proof fn lemma_step_writeless(s: Sim)
    requires
        s.ok(),
        sized(s),
        s.queue.len() > 0,
        s.queue[0].at <= s.cfg.duration,
        writeless(s),
    ensures
        writeless(s.step()),
{
    lemma_popped(s);
    lemma_writes_drop_first(s.queue);
    lemma_writeless_kept(s.cfg);
    let p = s.popped();
    let prop = writeless_in(s.cfg);
    assert(prop(p));
    match s.queue[0].item {
        Scheduled::Poll { node } => {
            keep_poll(prop, false, p, node);
            assert(prop(p.poll(node)));
        },
        Scheduled::WriteTick => {},
        Scheduled::Command(cmd) => {
            if let Command::Revoke(id) = cmd {
                reveal(Sim::apply);
                lemma_lease_position(p.leases, id, 0);
                if p.declared(id) {
                    leave_begin_revoke(p, p.lease_index(id) as usize);
                    lemma_writeless_after(p, p.begin_revoke(p.lease_index(id) as usize));
                }
            } else {
                keep_apply(prop, false, p, cmd);
                assert(prop(p.apply(cmd)));
            }
        },
        Scheduled::Send { from, to, kind, tag } => {
            leave_send(p, from, to, kind, tag);
            lemma_writeless_after(p, p.send(from, to, kind, tag));
        },
        Scheduled::Arrival { from, to, kind, tag, fate } => {
            reveal(Sim::arrive);
            leave_emit(p, EventKind::MessageDropped { from, to, kind });
            lemma_writeless_after(p, p.emit(EventKind::MessageDropped { from, to, kind }));
            let ev = EventKind::MessageDelivered { from, to, kind };
            leave_emit(p, ev);
            let q = p.emit(ev);
            lemma_writeless_after(p, q);
            leave_receive(q, from, to, kind, tag);
            lemma_writeless_after(q, q.receive(from, to, kind, tag));
        },
    }
}

proof fn lemma_writeless_after(a: Sim, b: Sim)
    requires
        writeless(a),
        leaves_writes(a, b),
    ensures
        writeless(b),
{
    assert forall|k: int| 0 <= k < b.pending.len() implies !is_write_event(
        (#[trigger] b.pending[k]).kind,
    ) by {
        if k < a.pending.len() {
            assert(b.pending[k] == a.pending[k]);
        }
    }
}

proof fn lemma_step_one_round(s: Sim)
    requires
        s.ok(),
        sized(s),
        s.queue.len() > 0,
        s.queue[0].at <= s.cfg.duration,
        one_round_at_most(s),
    ensures
        one_round_at_most(s.step()),
{
    lemma_popped(s);
    lemma_one_round_kept(s.cfg);
    let p = s.popped();
    let prop = one_round_in(s.cfg);
    assert(prop(p));
    match s.queue[0].item {
        Scheduled::Poll { node } => {
            keep_poll(prop, true, p, node);
            assert(prop(p.poll(node)));
        },
        Scheduled::WriteTick => {
            keep_write_tick(prop, true, p);
            assert(prop(p.write_tick()));
        },
        Scheduled::Command(cmd) => {
            if let Command::Revoke(id) = cmd {
                reveal(Sim::apply);
                lemma_lease_position(p.leases, id, 0);
                if p.declared(id) {
                    leave_begin_revoke(p, p.lease_index(id) as usize);
                }
            } else {
                keep_apply(prop, true, p, cmd);
                assert(prop(p.apply(cmd)));
            }
        },
        Scheduled::Send { from, to, kind, tag } => {
            lemma_send(p, from, to, kind, tag);
        },
        Scheduled::Arrival { from, to, kind, tag, fate } => {
            reveal(Sim::arrive);
            let ev = EventKind::MessageDelivered { from, to, kind };
            lemma_emit(p, ev);
            let q = p.emit(ev);
            assert(prop(q));
            if kind.is_write_path() {
                keep_receive_write(prop, true, q, from, to, kind, tag);
                assert(prop(q.receive(from, to, kind, tag)));
            } else {
                leave_receive(q, from, to, kind, tag);
            }
        },
    }
}

// ---- Laws -----------------------------------------------------------------

proof fn lemma_polls_writes(s: Sim, k: int)
    requires
        in_time_order(s.queue),
        0 <= k,
    ensures
        writes(s.with_polls(k).queue) == writes(s.queue),
        in_time_order(s.with_polls(k).queue),
        s.with_polls(k).now == s.now,
        s.with_polls(k).cfg == s.cfg,
    decreases k,
{
    if k > 0 {
        lemma_polls_writes(s, k - 1);
        let s1 = s.with_polls(k - 1);
        let e = Timed {
            at: max_of(0, s1.now as int) as Time,
            item: Scheduled::Poll { node: (k - 1) as usize },
        };
        lemma_writes_enqueue(s1.queue, e);
        lemma_enqueue(s1.queue, e);
    }
}

proof fn lemma_commands_writes(s: Sim, k: int)
    requires
        in_time_order(s.queue),
        0 <= k <= s.cfg.commands.len(),
        forall|j: int|
            0 <= j < s.cfg.commands.len() ==> (#[trigger] s.cfg.commands[j]).1 != Command::Write,
    ensures
        writes(s.with_commands(k).queue) == writes(s.queue),
        in_time_order(s.with_commands(k).queue),
        s.with_commands(k).cfg == s.cfg,
    decreases k,
{
    if k > 0 {
        lemma_commands_writes(s, k - 1);
        let s1 = s.with_commands(k - 1);
        let (at, cmd) = s.cfg.commands[k - 1];
        assert(s.cfg.commands[k - 1].1 != Command::Write);
        let e = Timed {
            at: max_of(at as int, s1.now as int) as Time,
            item: Scheduled::Command(cmd),
        };
        lemma_writes_enqueue(s1.queue, e);
        lemma_enqueue(s1.queue, e);
    }
}

/// A scenario without a write interval whose script holds no write starts
/// without any.
pub proof fn law_writeless_at_start(cfg: Config, normal: spec_fn(NormalDraw) -> Time)
    requires
        cfg.valid(),
        crate::upkeep::normal_ok(normal),
        sized(Sim::blank(cfg, normal)),
        cfg.write_interval is None,
        forall|j: int|
            0 <= j < cfg.commands.len() ==> (#[trigger] cfg.commands[j]).1 != Command::Write,
    ensures
        writeless(Sim::initial(cfg, normal)),
{
    let s = Sim::blank(cfg, normal);
    reveal(Seq::filter);
    assert(writes(s.queue) =~= Seq::<Timed>::empty());
    lemma_polls_writes(s, cfg.nodes.len() as int);
    let s1 = s.with_polls(cfg.nodes.len() as int);
    lemma_commands_writes(s1, cfg.commands.len() as int);
    crate::progress::lemma_initial(cfg, normal);
}

/// No writes when disabled: where no write is outstanding or due, none ever is,
/// and nothing about a write is ever reported.
pub proof fn law_no_writes_when_disabled(s: Sim, t: int, n: nat)
    requires
        s.ok(),
        sized(s),
        t <= s.cfg.duration,
        writeless(s),
    ensures
        writeless(s.steps(t, n)),
    decreases n,
{
    if n > 0 {
        law_no_writes_when_disabled(s, t, (n - 1) as nat);
        let before = s.steps(t, (n - 1) as nat);
        lemma_steps_next(s, t, (n - 1) as nat);
        lemma_steps_ok(s, t, (n - 1) as nat);
        if !before.settled(t) {
            lemma_step_writeless(before);
        }
    }
}

/// Disruptive writes run one at a time.
pub proof fn law_one_disruptive_round_at_a_time(s: Sim, t: int, n: nat)
    requires
        s.ok(),
        sized(s),
        t <= s.cfg.duration,
        one_round_at_most(s),
    ensures
        one_round_at_most(s.steps(t, n)),
    decreases n,
{
    if n > 0 {
        law_one_disruptive_round_at_a_time(s, t, (n - 1) as nat);
        let before = s.steps(t, (n - 1) as nat);
        lemma_steps_next(s, t, (n - 1) as nat);
        lemma_steps_ok(s, t, (n - 1) as nat);
        if !before.settled(t) {
            lemma_step_one_round(before);
        }
    }
}

/// A reply set commits only if it covers every reader: each grantee other than
/// the leader has replied.
pub proof fn law_commit_covers_every_grantee(s: Sim, replied: Set<NodeId>, leader: NodeId, i: int)
    requires
        s.may_commit(replied, leader),
        0 <= i < s.leases.len(),
        s.leases[i].id.grantee != leader,
    ensures
        replied.contains(s.leases[i].id.grantee),
{
}

/// Two reply sets that may commit, each with its leader, have a node in common.
pub proof fn law_commit_majorities_intersect(
    s: Sim,
    replied1: Set<NodeId>,
    leader1: NodeId,
    replied2: Set<NodeId>,
    leader2: NodeId,
)
    requires
        s.may_commit(replied1, leader1),
        s.may_commit(replied2, leader2),
        replied1.finite(),
        replied2.finite(),
        !replied1.contains(leader1),
        !replied2.contains(leader2),
        leader1 < s.nodes.len(),
        leader2 < s.nodes.len(),
        forall|x: NodeId| replied1.contains(x) ==> x < s.nodes.len(),
        forall|x: NodeId| replied2.contains(x) ==> x < s.nodes.len(),
        s.nodes.len() <= usize::MAX,
    ensures
        exists|x: NodeId|
            replied1.insert(leader1).contains(x) && #[trigger] replied2.insert(leader2).contains(x),
{
    let (a, b) = (replied1.insert(leader1), replied2.insert(leader2));
    if forall|x: NodeId| a.contains(x) ==> !b.contains(x) {
        assert(a.disjoint(b));
        vstd::set_lib::lemma_set_disjoint_lens(a, b);
        lemma_below_len((a + b), s.nodes.len());
        assert(false);
    }
    let x = choose|x: NodeId| a.contains(x) && b.contains(x);
    assert(b.contains(x));
}

/// Non-disruptive writes leave leases and nodes entirely untouched, at every
/// step of their path.
pub proof fn law_nondisruptive_writes_leave_leases_alone(
    s: Sim,
    from: NodeId,
    to: NodeId,
    kind: MsgKind,
    tag: usize,
)
    requires
        s.ok(),
        sized(s),
        !s.cfg.write_disruptive,
        kind.is_write_path(),
        message_ok(s.cfg, from, to, kind, tag),
    ensures
        s.serve_write().leases == s.leases,
        s.serve_write().nodes == s.nodes,
        s.write_tick().leases == s.leases,
        s.write_tick().nodes == s.nodes,
        s.receive(from, to, kind, tag).leases == s.leases,
        s.receive(from, to, kind, tag).nodes == s.nodes,
{
    lemma_serve_write_untouched(s);
    reveal(Sim::write_tick);
    if let Some(iv) = s.cfg.write_interval {
        crate::upkeep::lemma_jittered(s, iv as int);
        let s1 = s.after_jitter(iv as int);
        crate::upkeep::lemma_draw(s, s1.rng);
        let next = s.now + s.jittered(iv as int);
        crate::upkeep::lemma_schedule(s1, next, Scheduled::WriteTick);
        lemma_serve_write_untouched(s1);
        lemma_serve_write_untouched(s1.schedule(next, Scheduled::WriteTick));
    }
    match kind {
        MsgKind::Write => {
            reveal(Sim::on_write);
            lemma_reply(s, to, from, MsgKind::WriteReply, tag);
        },
        MsgKind::WriteReply => {
            reveal(Sim::on_write_reply);
            let p = round_position(s.rounds, tag, 0);
            lemma_round_position(s.rounds, tag, 0);
            if p < s.rounds.len() {
                let r = s.rounds[p];
                let s1 = Sim {
                    rounds: s.rounds.update(p, Round { replied: r.replied.insert(from), ..r }),
                    ..s
                };
                assert(crate::upkeep::rounds_ok(s1.now, s1.rounds));
                reveal(Sim::try_commit);
                lemma_leader(s1);
                if let Some(leader) = s1.leader() {
                    let ev = EventKind::WriteCommitted { leader };
                    lemma_emit(s1, ev);
                    lemma_broadcast(
                        s1.emit(ev),
                        leader,
                        MsgKind::Commit,
                        tag,
                        s1.nodes.len() as int,
                    );
                }
            }
        },
        _ => {},
    }
}

proof fn lemma_serve_write_untouched(s: Sim)
    requires
        s.ok(),
        sized(s),
        !s.cfg.write_disruptive,
    ensures
        s.serve_write().leases == s.leases,
        s.serve_write().nodes == s.nodes,
{
    lemma_leader(s);
    if let Some(leader) = s.leader() {
        reveal(Sim::begin_write);
        let id = s.next_write_id;
        let opened = Sim {
            next_write_id: id.wrapping_add(1),
            rounds: s.rounds.push(Round { id, started: s.now, replied: Set::empty() }),
            ..s
        };
        assert(opened.ok());
        let ev = EventKind::WriteStarted { leader };
        lemma_emit(opened, ev);
        lemma_broadcast(opened.emit(ev), leader, MsgKind::Write, id, s.nodes.len() as int);
    }
}

/// The leader is the smallest node that some lease is granted to; there is one
/// exactly if there is a lease.
pub proof fn law_leader_is_smallest_grantee(s: Sim)
    ensures
        s.leader() is None <==> s.leases.len() == 0,
        s.leader() matches Some(m) ==> {
            &&& exists|i: int| 0 <= i < s.leases.len() && (#[trigger] s.leases[i]).id.grantee == m
            &&& forall|i: int| 0 <= i < s.leases.len() ==> (#[trigger] s.leases[i]).id.grantee >= m
        },
{
    lemma_smallest_grantee(s.leases, s.leases.len() as int);
}

/// What tearing down the first `k` leases for `node` does to each lease.
proof fn lemma_suspend_effect(s: Sim, node: NodeId, k: int)
    requires
        s.ok(),
        0 <= k <= s.leases.len(),
    ensures
        s.suspend(node, k).leases.len() == s.leases.len(),
        forall|i: int|
            0 <= i < s.leases.len() ==> torn_down(
                s,
                node,
                s.leases[i],
                #[trigger] s.suspend(node, k).leases[i],
                i < k,
            ),
    decreases k,
{
    if k > 0 {
        lemma_suspend_effect(s, node, k - 1);
        crate::upkeep::lemma_suspend(s, node, k - 1);
        let s1 = s.suspend(node, k - 1);
        let s2 = s1.suspend_hold(node, k - 1);
        let s3 = s2.suspend_grant(node, k - 1);
        assert(torn_down(s, node, s.leases[k - 1], s1.leases[k - 1], false));
        assert forall|i: int| 0 <= i < s.leases.len() implies torn_down(
            s,
            node,
            s.leases[i],
            #[trigger] s3.leases[i],
            i < k,
        ) by {
            assert(torn_down(s, node, s.leases[i], s1.leases[i], i < k - 1));
            if i != k - 1 {
                assert(s3.leases[i] == s1.leases[i]);
            }
        }
    }
}

/// `m` is what the lease `l` looks like after `node` tore down what it takes
/// part in (if `done`).
pub open spec fn torn_down(s: Sim, node: NodeId, l: LeaseState, m: LeaseState, done: bool) -> bool {
    &&& m.id == l.id
    &&& m.grantee == if done && l.id.grantee == node && l.holding() {
        GranteeState {
            status: LeaseStatus::Expired,
            hold_expiry: s.local(node) as Time,
            ..l.grantee
        }
    } else {
        l.grantee
    }
    &&& m.grantor == if done && l.id.grantor == node && l.granting() {
        GrantorState {
            status: LeaseStatus::Inactive,
            intended: false,
            reguard_on_thaw: true,
            ..l.grantor
        }
    } else {
        l.grantor
    }
}

/// A disruptive write tears down every lease a node takes part in as it learns
/// of it: the holds expire, the grants fall idle and are marked for re-guarding,
/// and the node freezes. The promise `D'` is kept, and leases between other nodes
/// are untouched.
pub proof fn law_disruptive_write_tears_down(s: Sim, node: NodeId, i: int)
    requires
        s.ok(),
        node < s.nodes.len(),
        0 <= i < s.leases.len(),
    ensures
        ({
            let b = s.suspend_reads(node);
            &&& b.nodes[node as int].write_frozen
            &&& torn_down(s, node, s.leases[i], b.leases[i], true)
            &&& b.leases[i].id.grantee == node ==> !b.leases[i].holding()
            &&& b.leases[i].id.grantor == node ==> !b.leases[i].granting()
        }),
{
    reveal(Sim::suspend_reads);
    let n = NodeState { write_frozen: true, ..s.nodes[node as int] };
    crate::upkeep::lemma_with_node(s, node, n);
    let s1 = s.with_node(node, n);
    lemma_suspend_effect(s1, node, s.leases.len() as int);
    crate::upkeep::lemma_suspend(s1, node, s.leases.len() as int);
    assert(torn_down(
        s1,
        node,
        s1.leases[i],
        s1.suspend(node, s.leases.len() as int).leases[i],
        true,
    ));
}

/// A grantee frozen for a write ignores renews.
pub proof fn law_frozen_grantee_ignores_renews(s: Sim, i: usize)
    requires
        i < s.leases.len(),
        s.nodes[s.leases[i as int].id.grantee as int].write_frozen,
    ensures
        s.on_renew(i) == s,
{
    reveal(Sim::on_renew);
}

/// `m` is what the lease `l` looks like after `node` re-guarded what a write
/// tore down (if `done`).
pub open spec fn reguarded(s: Sim, node: NodeId, l: LeaseState, m: LeaseState, done: bool) -> bool {
    &&& m.id == l.id
    &&& m.grantee == l.grantee
    &&& m.grantor == if done && l.id.grantor == node && l.grantor.reguard_on_thaw {
        GrantorState {
            status: LeaseStatus::Guarding,
            intended: true,
            awaiting_reply: false,
            reguard_on_thaw: false,
            guard_since: s.local(node) as Time,
            ..l.grantor
        }
    } else {
        l.grantor
    }
}

proof fn lemma_reguard_effect(s: Sim, node: NodeId, k: int)
    requires
        s.ok(),
        sized(s),
        0 <= k <= s.leases.len(),
    ensures
        s.reguard(node, k).leases.len() == s.leases.len(),
        forall|i: int|
            0 <= i < s.leases.len() ==> reguarded(
                s,
                node,
                s.leases[i],
                #[trigger] s.reguard(node, k).leases[i],
                i < k,
            ),
    decreases k,
{
    if k > 0 {
        lemma_reguard_effect(s, node, k - 1);
        crate::upkeep::lemma_reguard(s, node, k - 1);
        let s1 = s.reguard(node, k - 1);
        let s2 = s.reguard(node, k);
        lemma_begin_guard_effect(s1, (k - 1) as usize);
        assert(reguarded(s, node, s.leases[k - 1], s1.leases[k - 1], false));
        assert forall|i: int| 0 <= i < s.leases.len() implies reguarded(
            s,
            node,
            s.leases[i],
            #[trigger] s2.leases[i],
            i < k,
        ) by {
            assert(reguarded(s, node, s.leases[i], s1.leases[i], i < k - 1));
            if i != k - 1 {
                assert(s2.leases[i] == s1.leases[i]);
            }
        }
    }
}

/// Recovery is commit-driven: the moment a node thaws, it opens a fresh guard
/// for every grant the write tore down, and touches no other lease.
pub proof fn law_thaw_reopens_every_guard(s: Sim, node: NodeId, i: int)
    requires
        s.ok(),
        sized(s),
        node < s.nodes.len(),
        0 <= i < s.leases.len(),
    ensures
        ({
            let b = s.thaw_and_reguard(node);
            &&& !b.nodes[node as int].write_frozen
            &&& reguarded(s, node, s.leases[i], b.leases[i], true)
            &&& s.leases[i].id.grantor == node && s.leases[i].grantor.reguard_on_thaw
                ==> b.leases[i].grantor.status == LeaseStatus::Guarding
        }),
{
    reveal(Sim::thaw_and_reguard);
    let n = NodeState { write_frozen: false, ..s.nodes[node as int] };
    crate::upkeep::lemma_with_node(s, node, n);
    let s1 = s.with_node(node, n);
    lemma_reguard_effect(s1, node, s.leases.len() as int);
    crate::upkeep::lemma_reguard(s1, node, s.leases.len() as int);
    assert(reguarded(
        s1,
        node,
        s1.leases[i],
        s1.reguard(node, s.leases.len() as int).leases[i],
        true,
    ));
}

/// Re-guarding touches neither nodes nor rounds.
proof fn lemma_reguard_frame(s: Sim, node: NodeId, k: int)
    requires
        s.ok(),
        sized(s),
        0 <= k <= s.leases.len(),
    ensures
        s.reguard(node, k).nodes == s.nodes,
        s.reguard(node, k).rounds == s.rounds,
        s.reguard(node, k).now == s.now,
        s.reguard(node, k).leases.len() == s.leases.len(),
    decreases k,
{
    if k > 0 {
        lemma_reguard_frame(s, node, k - 1);
        crate::upkeep::lemma_reguard(s, node, k - 1);
        let a = s.reguard(node, k - 1);
        if a.leases[k - 1].id.grantor == node && a.leases[k - 1].grantor.reguard_on_thaw {
            lemma_begin_guard_effect(a, (k - 1) as usize);
            reveal(Sim::begin_guard);
            reveal(Sim::send);
        }
    }
}

/// Thawing the first `k` nodes leaves none of them frozen, and none of their grants
/// torn down.
proof fn lemma_thaw_all_effect(s: Sim, k: int)
    requires
        s.ok(),
        sized(s),
        0 <= k <= s.nodes.len(),
    ensures
        s.thaw_all(k).ok(),
        sized(s.thaw_all(k)),
        s.thaw_all(k).cfg == s.cfg,
        s.thaw_all(k).now == s.now,
        s.thaw_all(k).rounds == s.rounds,
        s.thaw_all(k).nodes.len() == s.nodes.len(),
        s.thaw_all(k).leases.len() == s.leases.len(),
        forall|m: int| 0 <= m < k ==> !(#[trigger] s.thaw_all(k).nodes[m]).write_frozen,
        forall|i: int|
            0 <= i < s.leases.len() && (#[trigger] s.thaw_all(k).leases[i]).id.grantor < k
                ==> !s.thaw_all(k).leases[i].grantor.reguard_on_thaw,
    decreases k,
{
    if k > 0 {
        lemma_thaw_all_effect(s, k - 1);
        let a = s.thaw_all(k - 1);
        let node = (k - 1) as usize;
        crate::upkeep::lemma_thaw_and_reguard(a, node);
        let n = NodeState { write_frozen: false, ..a.nodes[node as int] };
        crate::upkeep::lemma_with_node(a, node, n);
        lemma_reguard_frame(a.with_node(node, n), node, a.leases.len() as int);
        let b = a.thaw_and_reguard(node);
        assert(b.nodes == a.nodes.update(node as int, n) && b.rounds == a.rounds) by {
            reveal(Sim::thaw_and_reguard);
        }
        assert forall|i: int|
            0 <= i < s.leases.len() && (#[trigger] b.leases[i]).id.grantor < k implies !b.leases[i].grantor.reguard_on_thaw by {
            law_thaw_reopens_every_guard(a, node, i);
            assert(a.leases[i].id.grantor < k - 1 ==> !a.leases[i].grantor.reguard_on_thaw);
        }
    }
}

/// A round that cannot commit does not hang the cluster: on its poll the leader
/// abandons every round that has been outstanding for the round timeout. If writes
/// are disruptive, it then thaws every node, and every grant that a write tore down
/// is guarded afresh; if they are not, nothing else is touched.
pub proof fn law_stale_rounds_are_abandoned(s: Sim, leader: NodeId)
    requires
        s.ok(),
        sized(s),
        s.leader() == Some(leader),
    ensures
        ({
            let b = s.abort_stale_writes(leader);
            &&& forall|k: int| 0 <= k < b.rounds.len() ==> !b.stale(#[trigger] b.rounds[k])
            &&& s.cfg.write_disruptive && s.has_stale_round() ==> {
                &&& forall|m: int| 0 <= m < b.nodes.len() ==> !(#[trigger] b.nodes[m]).write_frozen
                &&& forall|i: int|
                    0 <= i < b.leases.len()
                        ==> !(#[trigger] b.leases[i]).grantor.reguard_on_thaw
            }
            &&& !s.cfg.write_disruptive ==> b.leases == s.leases && b.nodes == s.nodes
        }),
{
    reveal(Sim::abort_stale_writes);
    let keep = |r: Round| !s.stale(r);
    let kept = s.rounds.filter(keep);
    let a = Sim { rounds: kept, ..s };
    crate::upkeep::lemma_rounds_filter(s, keep);
    assert forall|k: int| 0 <= k < kept.len() implies !s.stale(#[trigger] kept[k]) by {
        crate::upkeep::lemma_filter_from(s.rounds, keep, k);
    }
    if s.has_stale_round() && s.cfg.write_disruptive {
        lemma_thaw_all_effect(a, s.nodes.len() as int);
        let b = a.thaw_all(s.nodes.len() as int);
        assert forall|i: int| 0 <= i < b.leases.len() implies !(
        #[trigger] b.leases[i]).grantor.reguard_on_thaw by {
            lemma_parties(b, i);
        }
    }
}

} // verus!
