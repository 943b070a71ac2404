//! What has been reported, and what was in flight before, does not influence
//! what happens next. So it does not matter in how many calls a run is advanced.

use crate::clock::Time;
use crate::event::{Command, Event, EventKind, MsgKind, NodeId};
use crate::progress::{lemma_advanced, lemma_run_is, lemma_settles, lemma_steps_ok, sized};
use crate::sim::{max_of, round_position, InFlight, Round, Sim};
use crate::timeline::Scheduled;
use vstd::prelude::*;

verus! {

impl Sim {
    /// The same state with earlier events and earlier messages put in front.
    pub open spec fn after_history(self, p: Seq<Event>, f: Seq<InFlight>) -> Sim {
        Sim { pending: p + self.pending, in_flight: f + self.in_flight, ..self }
    }
}

proof fn hist_emit(s: Sim, kind: EventKind, p: Seq<Event>, f: Seq<InFlight>)
    ensures
        s.after_history(p, f).emit(kind) == s.emit(kind).after_history(p, f),
{
    assert(s.after_history(p, f).emit(kind) =~= s.emit(kind).after_history(p, f));
}

proof fn hist_send(
    s: Sim,
    from: NodeId,
    to: NodeId,
    kind: MsgKind,
    tag: usize,
    p: Seq<Event>,
    f: Seq<InFlight>,
)
    ensures
        s.after_history(p, f).send(from, to, kind, tag) == s.send(
            from,
            to,
            kind,
            tag,
        ).after_history(p, f),
{
    reveal(Sim::send);
    assert(s.after_history(p, f).send(from, to, kind, tag) =~= s.send(
        from,
        to,
        kind,
        tag,
    ).after_history(p, f));
}

proof fn hist_reply(
    s: Sim,
    from: NodeId,
    to: NodeId,
    kind: MsgKind,
    tag: usize,
    p: Seq<Event>,
    f: Seq<InFlight>,
)
    ensures
        s.after_history(p, f).reply_after_delay(from, to, kind, tag) == s.reply_after_delay(
            from,
            to,
            kind,
            tag,
        ).after_history(p, f),
{
    reveal(Sim::reply_after_delay);
}

proof fn hist_broadcast(
    s: Sim,
    from: NodeId,
    kind: MsgKind,
    tag: usize,
    k: int,
    p: Seq<Event>,
    f: Seq<InFlight>,
)
    ensures
        s.after_history(p, f).broadcast(from, kind, tag, k) == s.broadcast(
            from,
            kind,
            tag,
            k,
        ).after_history(p, f),
    decreases k,
{
    if k > 0 {
        hist_broadcast(s, from, kind, tag, k - 1, p, f);
        hist_send(s.broadcast(from, kind, tag, k - 1), from, (k - 1) as usize, kind, tag, p, f);
    }
}

proof fn hist_fail_node(s: Sim, node: NodeId, p: Seq<Event>, f: Seq<InFlight>)
    ensures
        s.after_history(p, f).fail_node(node) == s.fail_node(node).after_history(p, f),
{
    reveal(Sim::fail_node);
    assert(s.after_history(p, f).fail_node(node) =~= s.fail_node(node).after_history(p, f));
}

proof fn hist_recover_node(s: Sim, node: NodeId, p: Seq<Event>, f: Seq<InFlight>)
    ensures
        s.after_history(p, f).recover_node(node) == s.recover_node(node).after_history(p, f),
{
    reveal(Sim::recover_node);
    assert(s.after_history(p, f).recover_node(node) =~= s.recover_node(node).after_history(p, f));
}

proof fn hist_fault_trial(s: Sim, node: NodeId, p: Seq<Event>, f: Seq<InFlight>)
    ensures
        s.after_history(p, f).fault_trial(node) == s.fault_trial(node).after_history(p, f),
{
    reveal(Sim::fault_trial);
    hist_fail_node(s.draw(), node, p, f);
    hist_recover_node(s.draw(), node, p, f);
    assert(s.after_history(p, f).draw() == s.draw().after_history(p, f));
}

proof fn hist_begin_guard(s: Sim, i: usize, p: Seq<Event>, f: Seq<InFlight>)
    ensures
        s.after_history(p, f).begin_guard(i) == s.begin_guard(i).after_history(p, f),
{
    reveal(Sim::begin_guard);
    let l = s.leases[i as int];
    let g = crate::sim::GrantorState {
        status: crate::event::LeaseStatus::Guarding,
        intended: true,
        awaiting_reply: false,
        reguard_on_thaw: false,
        guard_since: s.local(l.id.grantor) as Time,
        ..l.grantor
    };
    hist_send(s.with_grantor(i as int, g), l.id.grantor, l.id.grantee, MsgKind::Guard, i, p, f);
}

proof fn hist_begin_revoke(s: Sim, i: usize, p: Seq<Event>, f: Seq<InFlight>)
    ensures
        s.after_history(p, f).begin_revoke(i) == s.begin_revoke(i).after_history(p, f),
{
    reveal(Sim::begin_revoke);
    let l = s.leases[i as int];
    let g = crate::sim::GrantorState { intended: false, ..l.grantor };
    hist_send(s.with_grantor(i as int, g), l.id.grantor, l.id.grantee, MsgKind::Revoke, i, p, f);
}

proof fn hist_send_renew(s: Sim, i: usize, p: Seq<Event>, f: Seq<InFlight>)
    ensures
        s.after_history(p, f).send_renew(i) == s.send_renew(i).after_history(p, f),
{
    reveal(Sim::send_renew);
    let l = s.leases[i as int];
    let b = s.local(l.id.grantor);
    let g = crate::sim::GrantorState {
        grant_expiry: max_of(l.grantor.grant_expiry as int, b + s.params().grant_len()) as Time,
        next_renew_due: (b + s.params().renew_interval) as Time,
        awaiting_reply: true,
        ..l.grantor
    };
    hist_send(s.with_grantor(i as int, g), l.id.grantor, l.id.grantee, MsgKind::Renew, i, p, f);
}

proof fn hist_expire(s: Sim, node: NodeId, p: Seq<Event>, f: Seq<InFlight>)
    ensures
        s.after_history(p, f).expire_stale_guards(node) == s.expire_stale_guards(
            node,
        ).after_history(p, f),
        s.after_history(p, f).expire_stale_renews(node) == s.expire_stale_renews(
            node,
        ).after_history(p, f),
{
    reveal(Sim::expire_stale_guards);
    reveal(Sim::expire_stale_renews);
}

proof fn hist_maybe_initiate(s: Sim, node: NodeId, k: int, p: Seq<Event>, f: Seq<InFlight>)
    ensures
        s.after_history(p, f).maybe_initiate(node, k) == s.maybe_initiate(node, k).after_history(
            p,
            f,
        ),
    decreases k,
{
    if k > 0 && !s.nodes[node as int].write_frozen {
        hist_maybe_initiate(s, node, k - 1, p, f);
        let s1 = s.maybe_initiate(node, k - 1);
        assert(s1.after_history(p, f).draw() == s1.draw().after_history(p, f));
        hist_begin_guard(s1.draw(), (k - 1) as usize, p, f);
    }
}

proof fn hist_service_grants(s: Sim, node: NodeId, k: int, p: Seq<Event>, f: Seq<InFlight>)
    ensures
        s.after_history(p, f).service_grants(node, k) == s.service_grants(node, k).after_history(
            p,
            f,
        ),
    decreases k,
{
    if k > 0 {
        hist_service_grants(s, node, k - 1, p, f);
        hist_send_renew(s.service_grants(node, k - 1), (k - 1) as usize, p, f);
    }
}

proof fn hist_recompute_statuses(s: Sim, node: NodeId, k: int, p: Seq<Event>, f: Seq<InFlight>)
    ensures
        s.after_history(p, f).recompute_statuses(node, k) == s.recompute_statuses(
            node,
            k,
        ).after_history(p, f),
    decreases k,
{
    if k > 0 {
        hist_recompute_statuses(s, node, k - 1, p, f);
        let s1 = s.recompute_statuses(node, k - 1);
        assert(s1.after_history(p, f).recompute_grantor(node, k - 1) =~= s1.recompute_grantor(
            node,
            k - 1,
        ).after_history(p, f));
        let s2 = s1.recompute_grantor(node, k - 1);
        assert(s2.after_history(p, f).recompute_grantee(node, k - 1) =~= s2.recompute_grantee(
            node,
            k - 1,
        ).after_history(p, f));
    }
}

proof fn hist_suspend(s: Sim, node: NodeId, k: int, p: Seq<Event>, f: Seq<InFlight>)
    ensures
        s.after_history(p, f).suspend(node, k) == s.suspend(node, k).after_history(p, f),
    decreases k,
{
    if k > 0 {
        hist_suspend(s, node, k - 1, p, f);
        let s1 = s.suspend(node, k - 1);
        assert(s1.after_history(p, f).suspend_hold(node, k - 1) =~= s1.suspend_hold(
            node,
            k - 1,
        ).after_history(p, f));
        let s2 = s1.suspend_hold(node, k - 1);
        assert(s2.after_history(p, f).suspend_grant(node, k - 1) =~= s2.suspend_grant(
            node,
            k - 1,
        ).after_history(p, f));
    }
}

proof fn hist_suspend_reads(s: Sim, node: NodeId, p: Seq<Event>, f: Seq<InFlight>)
    ensures
        s.after_history(p, f).suspend_reads(node) == s.suspend_reads(node).after_history(p, f),
{
    reveal(Sim::suspend_reads);
    let n = crate::sim::NodeState { write_frozen: true, ..s.nodes[node as int] };
    hist_suspend(s.with_node(node, n), node, s.leases.len() as int, p, f);
}

proof fn hist_reguard(s: Sim, node: NodeId, k: int, p: Seq<Event>, f: Seq<InFlight>)
    ensures
        s.after_history(p, f).reguard(node, k) == s.reguard(node, k).after_history(p, f),
    decreases k,
{
    if k > 0 {
        hist_reguard(s, node, k - 1, p, f);
        hist_begin_guard(s.reguard(node, k - 1), (k - 1) as usize, p, f);
    }
}

proof fn hist_thaw_and_reguard(s: Sim, node: NodeId, p: Seq<Event>, f: Seq<InFlight>)
    ensures
        s.after_history(p, f).thaw_and_reguard(node) == s.thaw_and_reguard(node).after_history(p, f),
{
    reveal(Sim::thaw_and_reguard);
    let n = crate::sim::NodeState { write_frozen: false, ..s.nodes[node as int] };
    hist_reguard(s.with_node(node, n), node, s.leases.len() as int, p, f);
}

proof fn hist_thaw_all(s: Sim, k: int, p: Seq<Event>, f: Seq<InFlight>)
    ensures
        s.after_history(p, f).thaw_all(k) == s.thaw_all(k).after_history(p, f),
    decreases k,
{
    if k > 0 {
        hist_thaw_all(s, k - 1, p, f);
        hist_thaw_and_reguard(s.thaw_all(k - 1), (k - 1) as usize, p, f);
    }
}

proof fn hist_abort_stale_writes(s: Sim, node: NodeId, p: Seq<Event>, f: Seq<InFlight>)
    ensures
        s.after_history(p, f).abort_stale_writes(node) == s.abort_stale_writes(node).after_history(
            p,
            f,
        ),
{
    reveal(Sim::abort_stale_writes);
    let h = s.after_history(p, f);
    let (keep, keep_h) = (|r: Round| !s.stale(r), |r: Round| !h.stale(r));
    assert(keep =~= keep_h);
    assert(h.has_stale_round() == s.has_stale_round()) by {
        if s.has_stale_round() {
            let k = choose|k: int| 0 <= k < s.rounds.len() && s.stale(#[trigger] s.rounds[k]);
            assert(h.stale(h.rounds[k]));
        }
        if h.has_stale_round() {
            let k = choose|k: int| 0 <= k < h.rounds.len() && h.stale(#[trigger] h.rounds[k]);
            assert(s.stale(s.rounds[k]));
        }
    }
    let s1 = Sim { rounds: s.rounds.filter(keep), ..s };
    hist_thaw_all(s1, s.nodes.len() as int, p, f);
}

proof fn hist_poll(s: Sim, node: NodeId, p: Seq<Event>, f: Seq<InFlight>)
    ensures
        s.after_history(p, f).poll(node) == s.poll(node).after_history(p, f),
{
    reveal(Sim::poll);
    hist_fault_trial(s, node, p, f);
    let s0 = s.fault_trial(node);
    assert(s0.after_history(p, f).tend(node) == s0.tend(node).after_history(p, f)) by {
        reveal(Sim::tend);
        hist_abort_stale_writes(s0, node, p, f);
        let s1 = s0.abort_stale_writes(node);
        hist_expire(s1, node, p, f);
        let s2 = s1.expire_stale_guards(node);
        hist_expire(s2, node, p, f);
        let s3 = s2.expire_stale_renews(node);
        hist_maybe_initiate(s3, node, s3.leases.len() as int, p, f);
        let s4 = s3.maybe_initiate(node, s3.leases.len() as int);
        hist_service_grants(s4, node, s4.leases.len() as int, p, f);
    }
    let s5 = if s0.nodes[node as int].up {
        s0.tend(node)
    } else {
        s0
    };
    hist_recompute_statuses(s5, node, s5.leases.len() as int, p, f);
}

proof fn hist_begin_write(s: Sim, leader: NodeId, p: Seq<Event>, f: Seq<InFlight>)
    ensures
        s.after_history(p, f).begin_write(leader) == s.begin_write(leader).after_history(p, f),
{
    reveal(Sim::begin_write);
    let id = s.next_write_id;
    let opened = Sim {
        next_write_id: id.wrapping_add(1),
        rounds: s.rounds.push(Round { id, started: s.now, replied: Set::empty() }),
        ..s
    };
    hist_suspend_reads(opened, leader, p, f);
    let s1 = if s.cfg.write_disruptive {
        opened.suspend_reads(leader)
    } else {
        opened
    };
    let ev = EventKind::WriteStarted { leader };
    hist_emit(s1, ev, p, f);
    hist_broadcast(s1.emit(ev), leader, MsgKind::Write, id, s.nodes.len() as int, p, f);
}

proof fn hist_serve_write(s: Sim, p: Seq<Event>, f: Seq<InFlight>)
    ensures
        s.after_history(p, f).serve_write() == s.serve_write().after_history(p, f),
{
    if let Some(leader) = s.leader() {
        hist_begin_write(s, leader, p, f);
    }
}

proof fn hist_write_tick(s: Sim, p: Seq<Event>, f: Seq<InFlight>)
    ensures
        s.after_history(p, f).write_tick() == s.write_tick().after_history(p, f),
{
    reveal(Sim::write_tick);
    if let Some(iv) = s.cfg.write_interval {
        let s1 = s.after_jitter(iv as int);
        let next = s.now + s.jittered(iv as int);
        hist_serve_write(s1, p, f);
        hist_serve_write(s1.schedule(next, Scheduled::WriteTick), p, f);
    } else {
        hist_serve_write(s, p, f);
    }
}

proof fn hist_try_commit(s: Sim, write_id: usize, p: Seq<Event>, f: Seq<InFlight>)
    ensures
        s.after_history(p, f).try_commit(write_id) == s.try_commit(write_id).after_history(p, f),
{
    reveal(Sim::try_commit);
    if let Some(leader) = s.leader() {
        let ev = EventKind::WriteCommitted { leader };
        hist_emit(s, ev, p, f);
        let s1 = s.emit(ev);
        hist_broadcast(s1, leader, MsgKind::Commit, write_id, s.nodes.len() as int, p, f);
        let sent = s1.broadcast(leader, MsgKind::Commit, write_id, s.nodes.len() as int);
        hist_thaw_and_reguard(sent, leader, p, f);
        let h = s.after_history(p, f);
        let r = s.rounds[round_position(s.rounds, write_id, 0)].replied;
        assert(h.may_commit(r, leader) == s.may_commit(r, leader));
    }
}

proof fn hist_receive_write(
    s: Sim,
    from: NodeId,
    to: NodeId,
    kind: MsgKind,
    tag: usize,
    p: Seq<Event>,
    f: Seq<InFlight>,
)
    requires
        kind.is_write_path(),
    ensures
        s.after_history(p, f).receive(from, to, kind, tag) == s.receive(
            from,
            to,
            kind,
            tag,
        ).after_history(p, f),
{
    match kind {
        MsgKind::Write => {
            reveal(Sim::on_write);
            hist_suspend_reads(s, to, p, f);
            let s1 = if s.cfg.write_disruptive {
                s.suspend_reads(to)
            } else {
                s
            };
            hist_reply(s1, to, from, MsgKind::WriteReply, tag, p, f);
        },
        MsgKind::WriteReply => {
            reveal(Sim::on_write_reply);
            let x = round_position(s.rounds, tag, 0);
            let r = s.rounds[x];
            let s1 = Sim {
                rounds: s.rounds.update(x, Round { replied: r.replied.insert(from), ..r }),
                ..s
            };
            hist_try_commit(s1, tag, p, f);
        },
        _ => hist_thaw_and_reguard(s, to, p, f),
    }
}

proof fn hist_on_guard(s: Sim, i: usize, p: Seq<Event>, f: Seq<InFlight>)
    ensures
        s.after_history(p, f).on_guard(i) == s.on_guard(i).after_history(p, f),
{
    reveal(Sim::on_guard);
    let l = s.leases[i as int];
    let g = crate::sim::GranteeState {
        guard_deadline: (s.local(l.id.grantee) + s.params().guard_len()) as Time,
        status: crate::event::LeaseStatus::Guarding,
        ..l.grantee
    };
    let ev = EventKind::GranteeLease {
        lease: l.id,
        status: crate::event::LeaseStatus::Guarding,
    };
    let s1 = s.with_grantee(i as int, g);
    hist_emit(s1, ev, p, f);
    hist_reply(s1.emit(ev), l.id.grantee, l.id.grantor, MsgKind::GuardReply, i, p, f);
}

proof fn hist_on_guard_reply(s: Sim, i: usize, p: Seq<Event>, f: Seq<InFlight>)
    ensures
        s.after_history(p, f).on_guard_reply(i) == s.on_guard_reply(i).after_history(p, f),
{
    reveal(Sim::on_guard_reply);
    let l = s.leases[i as int];
    let d = s.local(l.id.grantor) as Time;
    let g = crate::sim::GrantorState {
        status: crate::event::LeaseStatus::Active,
        last_reply: d,
        next_renew_due: d,
        ..l.grantor
    };
    let ev = EventKind::GrantorLease { lease: l.id, status: crate::event::LeaseStatus::Active };
    let s1 = s.with_grantor(i as int, g);
    hist_emit(s1, ev, p, f);
    hist_send_renew(s1.emit(ev), i, p, f);
}

proof fn hist_on_renew(s: Sim, i: usize, p: Seq<Event>, f: Seq<InFlight>)
    ensures
        s.after_history(p, f).on_renew(i) == s.on_renew(i).after_history(p, f),
{
    reveal(Sim::on_renew);
    let l = s.leases[i as int];
    let g = crate::sim::GranteeState {
        hold_expiry: (s.local(l.id.grantee) + s.params().hold_len()) as Time,
        status: crate::event::LeaseStatus::Active,
        ..l.grantee
    };
    let ev = EventKind::GranteeLease { lease: l.id, status: crate::event::LeaseStatus::Active };
    let s1 = s.with_grantee(i as int, g);
    hist_emit(s1, ev, p, f);
    hist_reply(s1, l.id.grantee, l.id.grantor, MsgKind::RenewReply, i, p, f);
    hist_reply(s1.emit(ev), l.id.grantee, l.id.grantor, MsgKind::RenewReply, i, p, f);
}

proof fn hist_on_revoke(s: Sim, i: usize, p: Seq<Event>, f: Seq<InFlight>)
    ensures
        s.after_history(p, f).on_revoke(i) == s.on_revoke(i).after_history(p, f),
{
    reveal(Sim::on_revoke);
    let l = s.leases[i as int];
    let g = crate::sim::GranteeState {
        status: crate::event::LeaseStatus::Expired,
        hold_expiry: s.local(l.id.grantee) as Time,
        ..l.grantee
    };
    let ev = EventKind::GranteeLease { lease: l.id, status: crate::event::LeaseStatus::Expired };
    let s1 = s.with_grantee(i as int, g);
    hist_emit(s1, ev, p, f);
    hist_reply(s, l.id.grantee, l.id.grantor, MsgKind::RevokeReply, i, p, f);
    hist_reply(s1.emit(ev), l.id.grantee, l.id.grantor, MsgKind::RevokeReply, i, p, f);
}

proof fn hist_on_revoke_reply(s: Sim, i: usize, p: Seq<Event>, f: Seq<InFlight>)
    ensures
        s.after_history(p, f).on_revoke_reply(i) == s.on_revoke_reply(i).after_history(p, f),
{
    reveal(Sim::on_revoke_reply);
    assert(s.after_history(p, f).on_revoke_reply(i) =~= s.on_revoke_reply(i).after_history(p, f));
}

proof fn hist_receive(
    s: Sim,
    from: NodeId,
    to: NodeId,
    kind: MsgKind,
    tag: usize,
    p: Seq<Event>,
    f: Seq<InFlight>,
)
    ensures
        s.after_history(p, f).receive(from, to, kind, tag) == s.receive(
            from,
            to,
            kind,
            tag,
        ).after_history(p, f),
{
    match kind {
        MsgKind::Guard => hist_on_guard(s, tag, p, f),
        MsgKind::GuardReply => hist_on_guard_reply(s, tag, p, f),
        MsgKind::Renew => hist_on_renew(s, tag, p, f),
        MsgKind::RenewReply => {
            reveal(Sim::on_renew_reply);
        },
        MsgKind::Revoke => hist_on_revoke(s, tag, p, f),
        MsgKind::RevokeReply => hist_on_revoke_reply(s, tag, p, f),
        _ => hist_receive_write(s, from, to, kind, tag, p, f),
    }
}

proof fn hist_apply(s: Sim, cmd: Command, p: Seq<Event>, f: Seq<InFlight>)
    ensures
        s.after_history(p, f).apply(cmd) == s.apply(cmd).after_history(p, f),
{
    reveal(Sim::apply);
    match cmd {
        Command::Initiate(id) => hist_begin_guard(s, s.lease_index(id) as usize, p, f),
        Command::Revoke(id) => hist_begin_revoke(s, s.lease_index(id) as usize, p, f),
        Command::FailNode(node) => hist_fail_node(s, node, p, f),
        Command::RecoverNode(node) => hist_recover_node(s, node, p, f),
        Command::Write => hist_serve_write(s, p, f),
    }
}

/// What a step does is the same after any history.
pub proof fn lemma_step_after_history(s: Sim, p: Seq<Event>, f: Seq<InFlight>)
    requires
        s.queue.len() > 0,
    ensures
        s.after_history(p, f).step() == s.step().after_history(p, f),
{
    let x = s.popped();
    assert(s.after_history(p, f).popped() == x.after_history(p, f));
    match s.queue[0].item {
        Scheduled::Poll { node } => hist_poll(x, node, p, f),
        Scheduled::Send { from, to, kind, tag } => hist_send(x, from, to, kind, tag, p, f),
        Scheduled::Arrival { from, to, kind, tag, fate } => {
            reveal(Sim::arrive);
            hist_emit(x, EventKind::MessageDropped { from, to, kind }, p, f);
            let ev = EventKind::MessageDelivered { from, to, kind };
            hist_emit(x, ev, p, f);
            hist_receive(x.emit(ev), from, to, kind, tag, p, f);
        },
        Scheduled::Command(cmd) => hist_apply(x, cmd, p, f),
        Scheduled::WriteTick => hist_write_tick(x, p, f),
    }
}

pub proof fn lemma_steps_after_history(s: Sim, t: int, n: nat, p: Seq<Event>, f: Seq<InFlight>)
    ensures
        s.after_history(p, f).steps(t, n) == s.steps(t, n).after_history(p, f),
    decreases n,
{
    if n > 0 && !s.settled(t) {
        lemma_step_after_history(s, p, f);
        lemma_steps_after_history(s.step(), t, (n - 1) as nat, p, f);
    }
}

/// Steps add up.
proof fn lemma_steps_add(s: Sim, t: int, n: nat, m: nat)
    ensures
        s.steps(t, n).steps(t, m) == s.steps(t, n + m),
    decreases n,
{
    if n > 0 && !s.settled(t) {
        lemma_steps_add(s.step(), t, (n - 1) as nat, m);
    } else if n > 0 {
        assert(s.steps(t, n) == s);
        assert(s.steps(t, m) == s);
    }
}

/// The steps due up to a time are the first of those due up to a later time.
proof fn lemma_steps_of_later(s: Sim, t: int, u: int, n: nat) -> (k: nat)
    requires
        t <= u,
    ensures
        s.steps(u, k) == s.steps(t, n),
    decreases n,
{
    if n == 0 || s.settled(t) {
        0
    } else {
        let k = lemma_steps_of_later(s.step(), t, u, (n - 1) as nat);
        k + 1
    }
}

/// The time shown does not influence what is due next.
proof fn lemma_steps_ignore_now(s: Sim, now: Time, t: int, n: nat)
    ensures
        s.settled(t) ==> (Sim { now, ..s }).steps(t, n) == (Sim { now, ..s }),
        !s.settled(t) && n > 0 ==> (Sim { now, ..s }).steps(t, n) == s.steps(t, n),
{
    let x = Sim { now, ..s };
    if !s.settled(t) && n > 0 {
        assert(x.popped() == s.popped());
        assert(x.step() == s.step());
    }
}

/// Filtering twice, the second time more strictly.
proof fn lemma_filter_twice(s: Seq<InFlight>, a: Time, b: Time)
    requires
        a <= b,
    ensures
        s.filter(|m: InFlight| m.arrival > a).filter(|m: InFlight| m.arrival > b) == s.filter(
            |m: InFlight| m.arrival > b,
        ),
    decreases s.len(),
{
    reveal(Seq::filter);
    let (fa, fb) = (|m: InFlight| m.arrival > a, |m: InFlight| m.arrival > b);
    if s.len() > 0 {
        let rest = s.drop_last();
        lemma_filter_twice(rest, a, b);
        if fa(s.last()) {
            let x = rest.filter(fa).push(s.last());
            assert(s.filter(fa) == x);
            assert(x.drop_last() =~= rest.filter(fa));
        }
    }
}

/// It does not matter in how many calls a run is advanced: going to `t` and then
/// to `u` leads to the same state as going to `u` at once, and the events of the
/// two calls together are the events of the one.
#[verifier::rlimit(40)]
pub proof fn law_advance_in_parts(s: Sim, t: int, u: int)
    requires
        s.ok(),
        sized(s),
        s.pending.len() == 0,
        t <= u,
    ensures
        s.advanced(t).taken().advanced(u).taken() == s.advanced(u).taken(),
        s.advanced(u).pending == s.advanced(t).pending + s.advanced(t).taken().advanced(u).pending,
{
    let (t1, t2) = (s.target(t), s.target(u));
    // The run to `t1`, and from there to `t2`.
    let n = lemma_settles(s, t1);
    lemma_run_is(s, t1, n);
    lemma_steps_ok(s, t1, n);
    let r = s.run(t1);
    let k = lemma_steps_of_later(s, t1, t2, n);
    let m = lemma_settles(r, t2);
    lemma_steps_add(s, t2, k, m);
    lemma_run_is(s, t2, k + m);
    // The same from the state that the first call left behind.
    lemma_advanced(s, t);
    let a = s.advanced(t).taken();
    let bare = Sim { pending: Seq::empty(), in_flight: Seq::empty(), ..r };
    let now = max_of(r.now as int, t1) as Time;
    let gone = |x: InFlight| x.arrival > now;
    let kept = r.in_flight.filter(gone);
    assert(r =~= bare.after_history(r.pending, r.in_flight));
    lemma_steps_after_history(bare, t2, m, r.pending, r.in_flight);
    let bare_now = Sim { now, ..bare };
    assert(a =~= bare_now.after_history(Seq::empty(), kept));
    lemma_steps_after_history(bare_now, t2, m, Seq::empty(), kept);
    lemma_steps_ignore_now(bare, now, t2, m);
    assert(r.steps(t2, m).settled(t2));
    assert(bare.steps(t2, m).settled(t2));
    assert(bare_now.steps(t2, m).settled(t2));
    lemma_run_is(a, t2, m);
    assert(a.target(u) == t2);
    let e = bare.steps(t2, m);
    lemma_steps_ok(r, t2, m);
    lemma_steps_ok(a, t2, m);
    let last = max_of(e.now as int, t2) as Time;
    assert(max_of(bare_now.steps(t2, m).now as int, t2) == max_of(e.now as int, t2)) by {
        if bare.settled(t2) || m == 0 {
            assert(e == bare);
            assert(bare_now.steps(t2, m) == bare_now);
        }
    }
    // What is still in flight at the end.
    let late = |x: InFlight| x.arrival > last;
    lemma_filter_twice(r.in_flight, now, last);
    Seq::filter_distributes_over_add(r.in_flight, e.in_flight, late);
    Seq::filter_distributes_over_add(kept, e.in_flight, late);
    assert(bare_now.steps(t2, m).in_flight == e.in_flight);
    assert(bare_now.steps(t2, m).pending == e.pending);
    assert(s.advanced(u).in_flight == (r.in_flight + e.in_flight).filter(late));
    assert(a.advanced(u).in_flight == (kept + e.in_flight).filter(late));
    assert(a.advanced(u).pending =~= e.pending);
    assert(s.advanced(u).pending =~= r.pending + e.pending);
    assert(a.advanced(u).taken() =~= s.advanced(u).taken());
}

} // verus!
