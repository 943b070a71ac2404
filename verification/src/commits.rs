//! Writes, step by step: who opens one, who is told, when it commits and when it is
//! given up.

use crate::clock::Time;
use crate::delivery::answers_after;
use crate::dist::lands_on;
use crate::event::{Command, Event, EventKind, LeaseStatus, MsgFate, MsgKind, NodeId};
use crate::moves::{lemma_enqueue_keeps, lemma_send_keeps, lemma_send_live};
use crate::progress::sized;
use crate::sim::{max_of, round_position, GranteeState, LeaseState, NodeState, Round, Sim};
use crate::tending::{
    guarded, lemma_fault_trial_effect, lemma_poll_parts, lemma_tend_nodes, wakes, wakes_up,
};
use crate::timeline::{Scheduled, Timed};
use crate::upkeep::{
    lemma_broadcast, lemma_draw, lemma_emit, lemma_jittered, lemma_leader, lemma_popped,
    lemma_reply, lemma_round_position, lemma_rounds_filter, lemma_schedule, lemma_smallest_grantee,
    lemma_suspend_reads, lemma_thaw_and_reguard, message_ok,
};
use crate::writing::{law_disruptive_write_tears_down, law_thaw_reopens_every_guard};
use vstd::prelude::*;

verus! {

/// The node is the leader: the smallest that some lease is granted to.
pub open spec fn leads(s: Sim, node: NodeId) -> bool {
    &&& exists|i: int| 0 <= i < s.leases.len() && (#[trigger] s.leases[i]).id.grantee == node
    &&& forall|i: int| 0 <= i < s.leases.len() ==> (#[trigger] s.leases[i]).id.grantee >= node
}

/// The next thing to happen in the run.
pub open spec fn happens(s: Sim, item: Scheduled) -> bool {
    &&& s.ok()
    &&& sized(s)
    &&& s.queue.len() > 0
    &&& s.queue[0].item == item
    &&& s.queue[0].at <= s.cfg.duration
}

/// The event reports that a message of the kind went out.
pub open spec fn sends(e: Event, from: NodeId, to: NodeId, kind: MsgKind) -> bool {
    e.kind matches EventKind::MessageSent { from: f, to: t, kind: k, .. } && f == from && t == to
        && k == kind
}

/// The events `b` are the events `a` and more, which report that a message of the kind
/// went out from the node to each other node among the first `k`.
pub open spec fn sent_to_all(
    a: Seq<Event>,
    b: Seq<Event>,
    from: NodeId,
    kind: MsgKind,
    k: int,
) -> bool {
    &&& forall|m: int| 0 <= m < a.len() ==> #[trigger] b[m] == a[m]
    &&& forall|to: NodeId| to < k && to != from ==> #[trigger] one_sent(a, b, from, to, kind)
}

/// Of the events `b`, one that is not among the first, `a`, reports such a message.
pub open spec fn one_sent(
    a: Seq<Event>,
    b: Seq<Event>,
    from: NodeId,
    to: NodeId,
    kind: MsgKind,
) -> bool {
    exists|m: int| a.len() <= m < b.len() && #[trigger] sends(b[m], from, to, kind)
}

proof fn lemma_leads(s: Sim, leader: NodeId)
    requires
        s.ok(),
        leads(s, leader),
    ensures
        s.leader() == Some(leader),
        leader < s.nodes.len(),
{
    lemma_smallest_grantee(s.leases, s.leases.len() as int);
    lemma_leader(s);
    let m = s.leader()->Some_0;
    let i = choose|i: int| 0 <= i < s.leases.len() && (#[trigger] s.leases[i]).id.grantee == m;
    let j = choose|j: int| 0 <= j < s.leases.len() && (#[trigger] s.leases[j]).id.grantee == leader;
    assert(m <= leader);
    assert(leader <= m);
}

/// On the timeline is the arrival of a message of the kind, about the write `tag`, at each
/// other node among the first `k`.
pub open spec fn on_the_way_to_all(b: Sim, from: NodeId, kind: MsgKind, tag: usize, k: int) -> bool {
    forall|to: NodeId| to < k && to != from ==> #[trigger] on_the_way(b, from, to, kind, tag)
}

/// On the timeline is the arrival of such a message.
pub open spec fn on_the_way(b: Sim, from: NodeId, to: NodeId, kind: MsgKind, tag: usize) -> bool {
    exists|at: Time, fate: MsgFate| #[trigger]
        b.queue.contains(Timed { at, item: Scheduled::Arrival { from, to, kind, tag, fate } })
}

/// A broadcast puts a message on its way to every other node.
proof fn lemma_broadcast_on_the_way(s: Sim, from: NodeId, kind: MsgKind, tag: usize, k: int)
    requires
        s.ok(),
        kind.is_write_path(),
        from < s.nodes.len(),
        0 <= k <= s.nodes.len(),
        s.nodes.len() <= usize::MAX,
    ensures
        on_the_way_to_all(s.broadcast(from, kind, tag, k), from, kind, tag, k),
    decreases k,
{
    if k > 0 {
        lemma_broadcast_on_the_way(s, from, kind, tag, k - 1);
        lemma_broadcast(s, from, kind, tag, k - 1);
        let a = s.broadcast(from, kind, tag, k - 1);
        let b = s.broadcast(from, kind, tag, k);
        assert forall|to: NodeId| to < k && to != from implies #[trigger] on_the_way(
            b,
            from,
            to,
            kind,
            tag,
        ) by {
            if to == k - 1 {
                reveal(Sim::send);
                crate::upkeep::lemma_arrival(a, from, to);
                let fate = a.fate_of(from, to, kind);
                let e = Timed {
                    at: a.arrival_of(from, to) as Time,
                    item: Scheduled::Arrival { from, to, kind, tag, fate },
                };
                lemma_enqueue_keeps(a.queue, e);
                assert(b.queue.contains(e));
            } else {
                assert(on_the_way(a, from, to, kind, tag));
                let (at, fate) = choose|at: Time, fate: MsgFate| #[trigger]
                    a.queue.contains(
                        Timed { at, item: Scheduled::Arrival { from, to, kind, tag, fate } },
                    );
                let e = Timed { at, item: Scheduled::Arrival { from, to, kind, tag, fate } };
                if k - 1 != from {
                    lemma_send_keeps(a, from, (k - 1) as usize, kind, tag);
                }
                assert(b.queue.contains(e));
            }
        }
    }
}

/// A broadcast reaches out to every other node, once.
proof fn lemma_broadcast_told(s: Sim, from: NodeId, kind: MsgKind, tag: usize, k: int)
    requires
        s.ok(),
        kind.is_write_path(),
        from < s.nodes.len(),
        0 <= k <= s.nodes.len(),
        s.nodes.len() <= usize::MAX,
    ensures
        sent_to_all(s.pending, s.broadcast(from, kind, tag, k).pending, from, kind, k),
        s.broadcast(from, kind, tag, k).pending.len() == s.pending.len() + k - (if from < k {
            1int
        } else {
            0int
        }),
    decreases k,
{
    if k > 0 {
        lemma_broadcast_told(s, from, kind, tag, k - 1);
        lemma_broadcast(s, from, kind, tag, k - 1);
        let a = s.broadcast(from, kind, tag, k - 1);
        let b = s.broadcast(from, kind, tag, k);
        if k - 1 != from {
            lemma_send_live(a, from, (k - 1) as usize, kind, tag);
            assert(sends(b.pending[a.pending.len() as int], from, (k - 1) as usize, kind));
        }
        assert forall|m: int| 0 <= m < s.pending.len() implies #[trigger] b.pending[m]
            == s.pending[m] by {
            assert(a.pending[m] == s.pending[m]);
        }
        assert forall|to: NodeId| to < k && to != from implies #[trigger] one_sent(
            s.pending,
            b.pending,
            from,
            to,
            kind,
        ) by {
            if to < k - 1 {
                assert(one_sent(s.pending, a.pending, from, to, kind));
                let m = choose|m: int|
                    s.pending.len() <= m < a.pending.len() && #[trigger] sends(
                        a.pending[m],
                        from,
                        to,
                        kind,
                    );
                assert(sends(b.pending[m], from, to, kind));
            }
        }
    }
}

/// The node has given up, for a write, all that it held, guarded or granted: its holds are
/// over, and its grants are idle, though their promises stay as they were, and are to be
/// guarded afresh once it thaws. What others hold and grant is left alone.
pub open spec fn gives_up_leases(s: Sim, b: Sim, node: NodeId) -> bool {
    forall|i: int|
        0 <= i < s.leases.len() ==> {
            let (l, m) = (s.leases[i], #[trigger] b.leases[i]);
            &&& l.id.grantee == node && (l.grantee.status == LeaseStatus::Active
                || l.grantee.status == LeaseStatus::Guarding) ==> m.grantee == (GranteeState {
                status: LeaseStatus::Expired,
                hold_expiry: b.cfg.nodes[node as int].clock.reading(b.now as int) as Time,
                ..l.grantee
            })
            &&& l.grantee.status != LeaseStatus::Active && l.grantee.status
                != LeaseStatus::Guarding ==> m.grantee == l.grantee
            &&& l.id.grantor == node && (l.grantor.status == LeaseStatus::Active
                || l.grantor.status == LeaseStatus::Guarding) ==> m.grantor.status
                == LeaseStatus::Inactive && m.grantor.reguard_on_thaw && !m.grantor.intended
                && m.grantor.grant_expiry == l.grantor.grant_expiry
            &&& l.id.grantor == node && l.grantor.status != LeaseStatus::Active
                && l.grantor.status != LeaseStatus::Guarding ==> m.grantor == l.grantor
            &&& l.id.grantor != node ==> m.grantor == l.grantor
            &&& l.id.grantee != node ==> m.grantee == l.grantee
        }
}

// ---- Opening a round -------------------------------------------------------

/// What serving a write does.
proof fn lemma_serve(s: Sim)
    requires
        s.ok(),
        sized(s),
    ensures
        s.leases.len() == 0 ==> s.serve_write() == s,
        forall|leader: NodeId| #[trigger] leads(s, leader) ==> {
            let b = s.serve_write();
            let n = s.pending.len() as int;
            let opens = s.nodes[leader as int].up && (s.cfg.write_disruptive ==> s.rounds.len()
                == 0);
            &&& opens ==> {
                &&& b.rounds == s.rounds.push(
                    Round { id: s.next_write_id, started: s.now, replied: Set::empty() },
                )
                &&& exists|m: int|
                    n <= m < b.pending.len() && #[trigger] b.pending[m] == (Event {
                        at: s.now,
                        kind: EventKind::WriteStarted { leader },
                    })
                &&& sent_to_all(s.pending, b.pending, leader, MsgKind::Write, s.nodes.len() as int)
            &&& on_the_way_to_all(b, leader, MsgKind::Write, s.next_write_id, s.nodes.len() as int)
            &&& b.next_write_id == s.next_write_id.wrapping_add(1)
                &&& on_the_way_to_all(b, leader, MsgKind::Write, s.next_write_id, s.nodes.len() as int)
                &&& b.next_write_id == s.next_write_id.wrapping_add(1)
                &&& s.cfg.write_disruptive ==> b.nodes[leader as int].write_frozen
                    && gives_up_leases(s, b, leader)
                &&& !s.cfg.write_disruptive ==> b.leases == s.leases && b.nodes == s.nodes
                    && b.pending.len() == n + s.nodes.len()
            }
            &&& !opens ==> b == s
        },
{
    if s.leases.len() == 0 {
        lemma_smallest_grantee(s.leases, 0);
    }
    assert forall|leader: NodeId| #[trigger] leads(s, leader) implies {
        let b = s.serve_write();
        let n = s.pending.len() as int;
        let opens = s.nodes[leader as int].up && (s.cfg.write_disruptive ==> s.rounds.len() == 0);
        &&& opens ==> {
            &&& b.rounds == s.rounds.push(
                Round { id: s.next_write_id, started: s.now, replied: Set::empty() },
            )
            &&& exists|m: int|
                n <= m < b.pending.len() && #[trigger] b.pending[m] == (Event {
                    at: s.now,
                    kind: EventKind::WriteStarted { leader },
                })
            &&& sent_to_all(s.pending, b.pending, leader, MsgKind::Write, s.nodes.len() as int)
            &&& on_the_way_to_all(b, leader, MsgKind::Write, s.next_write_id, s.nodes.len() as int)
            &&& b.next_write_id == s.next_write_id.wrapping_add(1)
            &&& s.cfg.write_disruptive ==> b.nodes[leader as int].write_frozen && gives_up_leases(
                s,
                b,
                leader,
            )
            &&& !s.cfg.write_disruptive ==> b.leases == s.leases && b.nodes == s.nodes
                && b.pending.len() == n + s.nodes.len()
        }
        &&& !opens ==> b == s
    } by {
        lemma_leads(s, leader);
        if s.nodes[leader as int].up && (s.cfg.write_disruptive ==> s.rounds.len() == 0) {
            lemma_begin_write_told(s, leader);
        }
    }
}

/// A leader opens a round.
proof fn lemma_begin_write_told(s: Sim, leader: NodeId)
    requires
        s.ok(),
        sized(s),
        leader < s.nodes.len(),
    ensures
        ({
            let b = s.begin_write(leader);
            let n = s.pending.len() as int;
            &&& b.rounds == s.rounds.push(
                Round { id: s.next_write_id, started: s.now, replied: Set::empty() },
            )
            &&& exists|m: int|
                n <= m < b.pending.len() && #[trigger] b.pending[m] == (Event {
                    at: s.now,
                    kind: EventKind::WriteStarted { leader },
                })
            &&& sent_to_all(s.pending, b.pending, leader, MsgKind::Write, s.nodes.len() as int)
            &&& on_the_way_to_all(b, leader, MsgKind::Write, s.next_write_id, s.nodes.len() as int)
            &&& b.next_write_id == s.next_write_id.wrapping_add(1)
            &&& s.cfg.write_disruptive ==> b.nodes[leader as int].write_frozen && gives_up_leases(
                s,
                b,
                leader,
            )
            &&& !s.cfg.write_disruptive ==> b.leases == s.leases && b.nodes == s.nodes
                && b.pending.len() == n + s.nodes.len()
        }),
{
    reveal(Sim::begin_write);
    let id = s.next_write_id;
    let opened = Sim {
        next_write_id: id.wrapping_add(1),
        rounds: s.rounds.push(Round { id, started: s.now, replied: Set::empty() }),
        ..s
    };
    assert(opened.ok());
    assert(opened.pending.is_prefix_of(opened.pending));
    lemma_suspend_reads(opened, leader);
    lemma_suspend_next_id(opened, leader);
    let s1 = if s.cfg.write_disruptive {
        opened.suspend_reads(leader)
    } else {
        opened
    };
    if s.cfg.write_disruptive {
        lemma_gives_up(opened, leader);
        lemma_frozen(opened, leader);
    }
    let ev = EventKind::WriteStarted { leader };
    lemma_emit(s1, ev);
    let s2 = s1.emit(ev);
    let k = s.nodes.len() as int;
    lemma_broadcast(s2, leader, MsgKind::Write, id, k);
    lemma_broadcast_told(s2, leader, MsgKind::Write, id, k);
    lemma_broadcast_on_the_way(s2, leader, MsgKind::Write, id, k);
    let b = s.begin_write(leader);
    assert(b == s2.broadcast(leader, MsgKind::Write, id, k));
    let m = s1.pending.len() as int;
    assert(b.pending[m] == s2.pending[m]);
    assert forall|m: int| 0 <= m < s.pending.len() implies #[trigger] b.pending[m]
        == s.pending[m] by {
        assert(s1.pending[m] == s.pending[m]);
        assert(s2.pending[m] == s1.pending[m]);
    }
    assert forall|to: NodeId| to < k && to != leader implies #[trigger] one_sent(
        s.pending,
        b.pending,
        leader,
        to,
        MsgKind::Write,
    ) by {
        assert(one_sent(s2.pending, b.pending, leader, to, MsgKind::Write));
        let m = choose|m: int|
            s2.pending.len() <= m < b.pending.len() && #[trigger] sends(
                b.pending[m],
                leader,
                to,
                MsgKind::Write,
            );
    }
}

/// What tearing leases down comes to.
proof fn lemma_gives_up(s: Sim, node: NodeId)
    requires
        s.ok(),
        node < s.nodes.len(),
    ensures
        gives_up_leases(s, s.suspend_reads(node), node),
{
    let b = s.suspend_reads(node);
    lemma_suspend_reads(s, node);
    assert forall|i: int| 0 <= i < s.leases.len() implies {
        let (l, m) = (s.leases[i], #[trigger] b.leases[i]);
        &&& l.id.grantee == node && (l.grantee.status == LeaseStatus::Active || l.grantee.status
            == LeaseStatus::Guarding) ==> m.grantee == (GranteeState {
            status: LeaseStatus::Expired,
            hold_expiry: b.cfg.nodes[node as int].clock.reading(b.now as int) as Time,
            ..l.grantee
        })
        &&& l.grantee.status != LeaseStatus::Active && l.grantee.status != LeaseStatus::Guarding
            ==> m.grantee == l.grantee
        &&& l.id.grantor == node && (l.grantor.status == LeaseStatus::Active || l.grantor.status
            == LeaseStatus::Guarding) ==> m.grantor.status == LeaseStatus::Inactive
            && m.grantor.reguard_on_thaw && !m.grantor.intended && m.grantor.grant_expiry
            == l.grantor.grant_expiry
        &&& l.id.grantor == node && l.grantor.status != LeaseStatus::Active && l.grantor.status
            != LeaseStatus::Guarding ==> m.grantor == l.grantor
        &&& l.id.grantor != node ==> m.grantor == l.grantor
        &&& l.id.grantee != node ==> m.grantee == l.grantee
    } by {
        law_disruptive_write_tears_down(s, node, i);
    }
}

/// A node that tears its leases down is frozen.
proof fn lemma_frozen(s: Sim, node: NodeId)
    requires
        s.ok(),
        node < s.nodes.len(),
    ensures
        s.suspend_reads(node).nodes == s.nodes.update(
            node as int,
            NodeState { write_frozen: true, ..s.nodes[node as int] },
        ),
{
    reveal(Sim::suspend_reads);
    let n = NodeState { write_frozen: true, ..s.nodes[node as int] };
    crate::upkeep::lemma_with_node(s, node, n);
    crate::upkeep::lemma_suspend(s.with_node(node, n), node, s.leases.len() as int);
}

proof fn lemma_suspend_next_id(s: Sim, node: NodeId)
    requires
        s.ok(),
        node < s.nodes.len(),
    ensures
        s.suspend_reads(node).next_write_id == s.next_write_id,
        s.suspend_reads(node).rng == s.rng,
{
    reveal(Sim::suspend_reads);
    lemma_suspend_id(
        s.with_node(node, NodeState { write_frozen: true, ..s.nodes[node as int] }),
        node,
        s.leases.len() as int,
    );
}

proof fn lemma_suspend_id(s: Sim, node: NodeId, k: int)
    ensures
        s.suspend(node, k).next_write_id == s.next_write_id,
        s.suspend(node, k).rng == s.rng,
    decreases k,
{
    if k > 0 {
        lemma_suspend_id(s, node, k - 1);
    }
}

/// A write that is commanded is served by the leader, if it is up and, where writes
/// disrupt, no other write is outstanding: a round opens, under a number of its own and
/// without replies, that is reported, and every other node is told. Where writes do not
/// disrupt, that is all; where they do, the leader gives up its leases and freezes.
/// Otherwise nothing happens.
pub proof fn law_write_opens_round(s: Sim, leader: NodeId)
    requires
        happens(s, Scheduled::Command(Command::Write)),
        leads(s, leader),
    ensures
        ({
            let b = s.step();
            let (n, at) = (s.pending.len() as int, s.queue[0].at);
            let opens = s.nodes[leader as int].up && (s.cfg.write_disruptive ==> s.rounds.len()
                == 0);
            &&& opens ==> {
                &&& b.rounds == s.rounds.push(
                    Round { id: s.next_write_id, started: at, replied: Set::empty() },
                )
                &&& exists|m: int|
                    n <= m < b.pending.len() && #[trigger] b.pending[m] == (Event {
                        at,
                        kind: EventKind::WriteStarted { leader },
                    })
                &&& sent_to_all(s.pending, b.pending, leader, MsgKind::Write, s.nodes.len() as int)
            &&& on_the_way_to_all(b, leader, MsgKind::Write, s.next_write_id, s.nodes.len() as int)
            &&& b.next_write_id == s.next_write_id.wrapping_add(1)
                &&& on_the_way_to_all(b, leader, MsgKind::Write, s.next_write_id, s.nodes.len() as int)
                &&& b.next_write_id == s.next_write_id.wrapping_add(1)
                &&& s.cfg.write_disruptive ==> b.nodes[leader as int].write_frozen
                    && gives_up_leases(s, b, leader)
                &&& !s.cfg.write_disruptive ==> b.leases == s.leases && b.nodes == s.nodes
                    && b.pending.len() == n + s.nodes.len()
            }
            &&& !opens ==> b.rounds == s.rounds && b.pending == s.pending && b.leases == s.leases
                && b.nodes == s.nodes && b.in_flight == s.in_flight
        }),
{
    lemma_popped(s);
    let a = s.popped();
    reveal(Sim::apply);
    lemma_serve(a);
    assert(leads(a, leader));
}

/// Writes that come by themselves keep their pace: the next one is due one write interval
/// later, give or take up to a fifth (at least one tick), any such value as likely as any
/// other, unless the run is over by then. And one is served now, as if commanded.
pub proof fn law_writes_keep_pace(s: Sim, iv: Time, leader: NodeId)
    requires
        happens(s, Scheduled::WriteTick),
        s.cfg.write_interval == Some(iv),
        leads(s, leader),
    ensures
        ({
            let b = s.step();
            let (n, at) = (s.pending.len() as int, s.queue[0].at);
            let slack = fifth_of(iv as int);
            let opens = s.nodes[leader as int].up && (s.cfg.write_disruptive ==> s.rounds.len()
                == 0);
            &&& exists|v: int| #[trigger]
                lands_on(s.rng.output(), iv - slack, iv + slack, v) && writes_next(
                    s,
                    b,
                    at + max_of(v, 1),
                )
            &&& opens ==> b.rounds == s.rounds.push(
                Round { id: s.next_write_id, started: at, replied: Set::empty() },
            ) && exists|m: int|
                n <= m < b.pending.len() && #[trigger] b.pending[m] == (Event {
                    at,
                    kind: EventKind::WriteStarted { leader },
                })
            &&& !opens ==> b.rounds == s.rounds && b.pending == s.pending && b.leases == s.leases
                && b.nodes == s.nodes
        }),
{
    lemma_popped(s);
    let a = s.popped();
    reveal(Sim::write_tick);
    lemma_jittered(a, iv as int);
    let next = a.now + a.jittered(iv as int);
    let s1 = a.after_jitter(iv as int);
    lemma_draw(a, s1.rng);
    lemma_schedule(s1, next, Scheduled::WriteTick);
    let s2 = if next <= s.cfg.duration {
        s1.schedule(next, Scheduled::WriteTick)
    } else {
        s1
    };
    lemma_serve(s2);
    assert(leads(s2, leader));
    let e = Timed { at: next as Time, item: Scheduled::WriteTick };
    if next <= s.cfg.duration {
        lemma_enqueue_keeps(s1.queue, e);
        lemma_serve_keeps(s2, e);
    }
    let span = crate::sim::jitter_span(iv as int);
    crate::rng::law_range_within_bounds(a.rng, -span, span);
    let v = iv + a.rng.ranged(-span, span);
    lemma_ranged_lands(a.rng, -span, span);
    assert(span == fifth_of(iv as int));
    assert(lands_on(s.rng.output(), iv - span, iv + span, v));
    assert(writes_next(s, s.step(), a.now + max_of(v, 1)));
}

/// A draw from a range lands on a value of it.
proof fn lemma_ranged_lands(rng: crate::rng::RngState, lo: int, hi: int)
    requires
        lo < hi,
    ensures
        lands_on(rng.output(), lo, hi, rng.ranged(lo, hi)),
{
    let x = rng.output() as int;
    let span = hi - lo + 1;
    vstd::arithmetic::div_mod::lemma_fundamental_div_mod(x, span);
    vstd::arithmetic::div_mod::lemma_mod_multiples_basic(x / span, span);
    assert((x / span) * span == span * (x / span)) by (nonlinear_arith);
}

/// A fifth of an interval, at least one tick.
pub open spec fn fifth_of(iv: int) -> int {
    if iv >= 5 {
        iv / 5
    } else {
        1
    }
}

/// The next write that comes by itself is due at `next`, if the run lasts that long.
pub open spec fn writes_next(s: Sim, b: Sim, next: int) -> bool {
    next <= s.cfg.duration ==> b.queue.contains(
        Timed { at: next as Time, item: Scheduled::WriteTick },
    )
}

/// Serving a write takes nothing off the timeline.
proof fn lemma_serve_keeps(s: Sim, e: Timed)
    requires
        s.ok(),
        sized(s),
        s.queue.contains(e),
    ensures
        s.serve_write().queue.contains(e),
{
    let prop = |x: Sim| x.queue.contains(e);
    assert(crate::moves::kept_by_moves(prop, true)) by {
        assert forall|x: Sim, y: Sim|
            x.ok() && y.ok() && prop(x) && #[trigger] crate::moves::moves(
                x,
                y,
                true,
            ) implies prop(y) by {
            lemma_move_keeps(x, y);
        }
    }
    crate::moves::keep_serve_write(prop, true, s);
    assert(prop(s.serve_write()));
}

/// A move takes nothing off the timeline.
proof fn lemma_move_keeps(x: Sim, y: Sim)
    requires
        x.ok(),
        y.ok(),
        crate::moves::moves(x, y, true),
    ensures
        crate::moves::keeps_entries(x.queue, y.queue),
{
    if exists|j: usize| crate::moves::is_guard(x, y, j) {
        let j = choose|j: usize| crate::moves::is_guard(x, y, j);
        reveal(Sim::begin_guard);
        let l = x.leases[j as int];
        let x1 = x.with_grantor(j as int, guarded(l.grantor, x.local(l.id.grantor)));
        lemma_send_keeps(x1, l.id.grantor, l.id.grantee, MsgKind::Guard, j);
    } else if exists|j: usize| crate::moves::is_renewal(x, y, j) {
        let j = choose|j: usize| crate::moves::is_renewal(x, y, j);
        reveal(Sim::send_renew);
        let l = x.leases[j as int];
        let b = x.local(l.id.grantor);
        let x1 = x.with_grantor(
            j as int,
            crate::sim::GrantorState {
                grant_expiry: max_of(
                    l.grantor.grant_expiry as int,
                    b + x.params().grant_len(),
                ) as Time,
                next_renew_due: (b + x.params().renew_interval) as Time,
                awaiting_reply: true,
                ..l.grantor
            },
        );
        lemma_send_keeps(x1, l.id.grantor, l.id.grantee, MsgKind::Renew, j);
    } else if crate::moves::is_retreat(x, y) {
        assert(y.queue == x.queue);
    }
}

// ---- Replies and commits ---------------------------------------------------

/// A node that a write reaches, and that is up, answers it after its response delay.
/// Where writes disrupt, it tears down what it takes part in and freezes; where they do
/// not, nothing else changes.
pub proof fn law_write_is_answered(s: Sim, from: NodeId, to: NodeId, tag: usize)
    requires
        happens(
            s,
            Scheduled::Arrival { from, to, kind: MsgKind::Write, tag, fate: MsgFate::Delivered },
        ),
        s.nodes[to as int].up,
    ensures
        ({
            let b = s.step();
            &&& exists|at: Time|
                answers_after(s, to, at) && #[trigger] b.queue.contains(
                    Timed {
                        at,
                        item: Scheduled::Send { from: to, to: from, kind: MsgKind::WriteReply, tag },
                    },
                )
            &&& b.rounds == s.rounds
            &&& s.cfg.write_disruptive ==> b.nodes == s.nodes.update(
                to as int,
                NodeState { write_frozen: true, ..s.nodes[to as int] },
            ) && gives_up_leases(s, b, to)
            &&& !s.cfg.write_disruptive ==> b.nodes == s.nodes && b.leases == s.leases
        }),
{
    lemma_popped(s);
    let a = s.popped();
    reveal(Sim::arrive);
    reveal(Sim::on_write);
    let ev = EventKind::MessageDelivered { from, to, kind: MsgKind::Write };
    lemma_emit(a, ev);
    let q = a.emit(ev);
    lemma_suspend_reads(q, to);
    lemma_frozen(q, to);
    lemma_suspend_next_id(q, to);
    let s1 = if s.cfg.write_disruptive {
        q.suspend_reads(to)
    } else {
        q
    };
    assert(message_ok(s1.cfg, to, from, MsgKind::WriteReply, tag));
    lemma_reply(s1, to, from, MsgKind::WriteReply, tag);
    let b = s.step();
    assert(b == s1.reply_after_delay(to, from, MsgKind::WriteReply, tag));
    crate::delivery::lemma_reply_scheduled(s1, to, from, MsgKind::WriteReply, tag);
    if s.cfg.write_disruptive {
        lemma_gives_up(q, to);
        assert(gives_up_leases(s, b, to));
    }
}

/// A reply is counted, and a round commits there and then if, with it, the nodes that
/// have replied and the leader are more than half of all nodes and cover every node that
/// a lease is granted to: that is reported, every other node is told, and the round is
/// over, but no other. Where writes disrupt, the leader thaws, and guards afresh what it
/// granted. Short of that, the reply is only recorded.
pub proof fn law_enough_replies_commit(
    s: Sim,
    p: int,
    from: NodeId,
    to: NodeId,
    tag: usize,
    leader: NodeId,
)
    requires
        happens(
            s,
            Scheduled::Arrival {
                from,
                to,
                kind: MsgKind::WriteReply,
                tag,
                fate: MsgFate::Delivered,
            },
        ),
        s.nodes[to as int].up,
        leads(s, leader),
        0 <= p < s.rounds.len(),
        s.rounds[p].id == tag,
        forall|q: int| 0 <= q < p ==> (#[trigger] s.rounds[q]).id != tag,
    ensures
        ({
            let b = s.step();
            let (n, at) = (s.pending.len() as int, s.queue[0].at);
            let replied = s.rounds[p].replied.insert(from);
            let enough = 2 * (replied.len() + 1) > s.nodes.len() && forall|i: int|
                0 <= i < s.leases.len() ==> (#[trigger] s.leases[i]).id.grantee == leader
                    || replied.contains(s.leases[i].id.grantee);
            &&& enough ==> {
                &&& n + 1 < b.pending.len()
                &&& b.pending[n + 1] == (Event { at, kind: EventKind::WriteCommitted { leader } })
                &&& sent_to_all(s.pending, b.pending, leader, MsgKind::Commit, s.nodes.len() as int)
                &&& forall|q: int| 0 <= q < b.rounds.len() ==> (#[trigger] b.rounds[q]).id != tag
                &&& forall|q: int|
                    0 <= q < s.rounds.len() && (#[trigger] s.rounds[q]).id != tag
                        ==> b.rounds.contains(s.rounds[q])
                &&& s.cfg.write_disruptive ==> !b.nodes[leader as int].write_frozen
                    && guards_afresh(s.leases, b, leader)
                &&& !s.cfg.write_disruptive ==> b.nodes == s.nodes && b.leases == s.leases
                    && b.pending.len() == n + 1 + s.nodes.len()
            }
            &&& !enough ==> {
                &&& b.rounds == s.rounds.update(p, Round { replied, ..s.rounds[p] })
                &&& b.pending == s.pending.push(
                    Event {
                        at,
                        kind: EventKind::MessageDelivered { from, to, kind: MsgKind::WriteReply },
                    },
                )
                &&& b.nodes == s.nodes
                &&& b.leases == s.leases
            }
        }),
{
    lemma_popped(s);
    let a = s.popped();
    reveal(Sim::arrive);
    reveal(Sim::on_write_reply);
    reveal(Sim::try_commit);
    let ev = EventKind::MessageDelivered { from, to, kind: MsgKind::WriteReply };
    lemma_emit(a, ev);
    let q = a.emit(ev);
    lemma_round_position(q.rounds, tag, 0);
    assert(round_position(q.rounds, tag, 0) == p) by {
        let r = round_position(q.rounds, tag, 0);
        if r < p {
            assert(q.rounds[r].id != tag);
        }
        if p < r {
            assert(q.rounds[p].id != tag);
        }
    }
    let replied = s.rounds[p].replied.insert(from);
    let rounds = q.rounds.update(p, Round { replied, ..q.rounds[p] });
    let s1 = Sim { rounds, ..q };
    assert(crate::upkeep::rounds_ok(s1.now, s1.rounds));
    assert(s1.ok());
    lemma_round_position(s1.rounds, tag, 0);
    assert(round_position(s1.rounds, tag, 0) == p) by {
        let r = round_position(s1.rounds, tag, 0);
        if r < p {
            assert(q.rounds[r].id != tag);
            assert(s1.rounds[r] == q.rounds[r]);
        }
        if p < r {
            assert(s1.rounds[p].id != tag);
        }
    }
    assert(leads(s1, leader));
    lemma_leads(s1, leader);
    let b = s.step();
    assert(b == s1.try_commit(tag));
    let enough = 2 * (replied.len() + 1) > s.nodes.len() && forall|i: int|
        0 <= i < s.leases.len() ==> (#[trigger] s.leases[i]).id.grantee == leader
            || replied.contains(s.leases[i].id.grantee);
    assert(s1.may_commit(replied, leader) == enough) by {
        assert(s1.leases == s.leases);
    }
    if enough {
        lemma_commit_told(s1, tag, leader);
        assert forall|q2: int|
            0 <= q2 < s.rounds.len() && (#[trigger] s.rounds[q2]).id != tag implies b.rounds.contains(
            s.rounds[q2],
        ) by {
            assert(s1.rounds[q2] == s.rounds[q2]);
        }
        assert(s1.pending == s.pending.push(Event { at: s.queue[0].at, kind: ev }));
        assert(sent_to_all(s.pending, b.pending, leader, MsgKind::Commit, s.nodes.len() as int)) by {
            assert forall|m: int| 0 <= m < s.pending.len() implies #[trigger] b.pending[m]
                == s.pending[m] by {
                assert(b.pending[m] == s1.pending[m]);
            }
            assert forall|x: NodeId| x < s.nodes.len() && x != leader implies #[trigger] one_sent(
                s.pending,
                b.pending,
                leader,
                x,
                MsgKind::Commit,
            ) by {
                assert(one_sent(s1.pending, b.pending, leader, x, MsgKind::Commit));
                let m = choose|m: int|
                    s1.pending.len() <= m < b.pending.len() && #[trigger] sends(
                        b.pending[m],
                        leader,
                        x,
                        MsgKind::Commit,
                    );
            }
        }
    }
}

/// A round commits.
proof fn lemma_commit_told(s: Sim, tag: usize, leader: NodeId)
    requires
        s.ok(),
        sized(s),
        s.leader() == Some(leader),
        leader < s.nodes.len(),
        ({
            let p = round_position(s.rounds, tag, 0);
            0 <= p < s.rounds.len() && s.may_commit(s.rounds[p].replied, leader)
        }),
    ensures
        ({
            let b = s.try_commit(tag);
            let n = s.pending.len() as int;
            &&& n < b.pending.len()
            &&& b.pending[n] == (Event { at: s.now, kind: EventKind::WriteCommitted { leader } })
            &&& sent_to_all(s.pending, b.pending, leader, MsgKind::Commit, s.nodes.len() as int)
            &&& forall|q: int| 0 <= q < b.rounds.len() ==> (#[trigger] b.rounds[q]).id != tag
            &&& forall|q: int|
                0 <= q < s.rounds.len() && (#[trigger] s.rounds[q]).id != tag ==> b.rounds.contains(
                    s.rounds[q],
                )
            &&& s.cfg.write_disruptive ==> !b.nodes[leader as int].write_frozen && guards_afresh(
                s.leases,
                b,
                leader,
            )
            &&& !s.cfg.write_disruptive ==> b.nodes == s.nodes && b.leases == s.leases
                && b.pending.len() == n + s.nodes.len()
        }),
{
    reveal(Sim::try_commit);
    let ev = EventKind::WriteCommitted { leader };
    lemma_emit(s, ev);
    let s1 = s.emit(ev);
    let k = s.nodes.len() as int;
    lemma_broadcast(s1, leader, MsgKind::Commit, tag, k);
    lemma_broadcast_told(s1, leader, MsgKind::Commit, tag, k);
    let sent = s1.broadcast(leader, MsgKind::Commit, tag, k);
    lemma_thaw_and_reguard(sent, leader);
    assert(sent.pending.is_prefix_of(sent.pending));
    let s2 = if s.cfg.write_disruptive {
        sent.thaw_and_reguard(leader)
    } else {
        sent
    };
    let b = s.try_commit(tag);
    assert(b.pending == s2.pending && b.nodes == s2.nodes && b.leases == s2.leases);
    if s.cfg.write_disruptive {
        lemma_smallest_grantee(s.leases, s.leases.len() as int);
        law_thaw_reopens_every_guard(sent, leader, 0);
        assert forall|i: int| 0 <= i < s.leases.len() implies #[trigger] b.leases[i]
            == afresh(s.leases[i], leader, b) by {
            crate::upkeep::lemma_parties(sent, i);
            law_thaw_reopens_every_guard(sent, leader, i);
        }
    }
    assert(b.pending[s.pending.len() as int] == s1.pending[s.pending.len() as int]) by {
        assert(sent.pending[s.pending.len() as int] == s1.pending[s.pending.len() as int]);
        assert(s2.pending[s.pending.len() as int] == sent.pending[s.pending.len() as int]);
    }
    assert(sent_to_all(s.pending, b.pending, leader, MsgKind::Commit, k)) by {
        assert forall|m: int| 0 <= m < s.pending.len() implies #[trigger] b.pending[m]
            == s.pending[m] by {
            assert(s1.pending[m] == s.pending[m]);
            assert(sent.pending[m] == s1.pending[m]);
            assert(s2.pending[m] == sent.pending[m]);
        }
        assert forall|to: NodeId| to < k && to != leader implies #[trigger] one_sent(
            s.pending,
            b.pending,
            leader,
            to,
            MsgKind::Commit,
        ) by {
            assert(one_sent(s1.pending, sent.pending, leader, to, MsgKind::Commit));
            let m = choose|m: int|
                s1.pending.len() <= m < sent.pending.len() && #[trigger] sends(
                    sent.pending[m],
                    leader,
                    to,
                    MsgKind::Commit,
                );
            assert(s2.pending[m] == sent.pending[m]);
            assert(sends(b.pending[m], leader, to, MsgKind::Commit));
        }
    }
    let keep = |r: Round| r.id != tag;
    assert(b.rounds == s.rounds.filter(keep));
    assert forall|q: int| 0 <= q < b.rounds.len() implies (#[trigger] b.rounds[q]).id != tag by {
        crate::upkeep::lemma_filter_from(s.rounds, keep, q);
    }
    assert forall|q: int|
        0 <= q < s.rounds.len() && (#[trigger] s.rounds[q]).id != tag implies b.rounds.contains(
        s.rounds[q],
    ) by {
        lemma_filter_keeps(s.rounds, keep, q);
    }
}

/// What a filter lets through is still there.
pub proof fn lemma_filter_keeps<A>(s: Seq<A>, keep: spec_fn(A) -> bool, i: int)
    requires
        0 <= i < s.len(),
        keep(s[i]),
    ensures
        s.filter(keep).contains(s[i]),
    decreases s.len(),
{
    reveal(Seq::filter);
    let rest = s.drop_last();
    if i == s.len() - 1 {
        let f = s.filter(keep);
        assert(f[f.len() - 1] == s[i]);
    } else {
        lemma_filter_keeps(rest, keep, i);
        let f = rest.filter(keep);
        let j = choose|j: int| 0 <= j < f.len() && f[j] == s[i];
        assert(s.filter(keep)[j] == s[i]);
    }
}

/// A reply to a write that is not outstanding any more changes nothing.
pub proof fn law_late_reply_is_ignored(s: Sim, from: NodeId, to: NodeId, tag: usize)
    requires
        happens(
            s,
            Scheduled::Arrival {
                from,
                to,
                kind: MsgKind::WriteReply,
                tag,
                fate: MsgFate::Delivered,
            },
        ),
        forall|q: int| 0 <= q < s.rounds.len() ==> (#[trigger] s.rounds[q]).id != tag,
    ensures
        s.step().rounds == s.rounds,
        s.step().nodes == s.nodes,
        s.step().leases == s.leases,
        s.step().pending == s.pending.push(
            Event {
                at: s.queue[0].at,
                kind: EventKind::MessageDelivered { from, to, kind: MsgKind::WriteReply },
            },
        ),
{
    lemma_popped(s);
    let a = s.popped();
    reveal(Sim::arrive);
    reveal(Sim::on_write_reply);
    lemma_round_position(a.rounds, tag, 0);
}

/// A commit that reaches a node that is up thaws it, where writes disrupt, and re-opens
/// the guard of every grant of the node that a write tore down, and of no other; where
/// writes do not disrupt, it changes nothing.
pub proof fn law_commit_thaws(s: Sim, from: NodeId, to: NodeId, tag: usize, i: int)
    requires
        happens(
            s,
            Scheduled::Arrival { from, to, kind: MsgKind::Commit, tag, fate: MsgFate::Delivered },
        ),
        s.nodes[to as int].up,
        0 <= i < s.leases.len(),
    ensures
        ({
            let b = s.step();
            let (l, m) = (s.leases[i], b.leases[i]);
            let local = s.cfg.nodes[to as int].clock.reading(s.queue[0].at as int);
            &&& s.cfg.write_disruptive ==> !b.nodes[to as int].write_frozen
            &&& s.cfg.write_disruptive && l.id.grantor == to && l.grantor.reguard_on_thaw
                ==> m.grantor == guarded(l.grantor, local)
            &&& !s.cfg.write_disruptive || l.id.grantor != to || !l.grantor.reguard_on_thaw
                ==> m == l
            &&& m.grantee == l.grantee
            &&& !s.cfg.write_disruptive ==> b.nodes == s.nodes && b.leases == s.leases
            &&& b.rounds == s.rounds
        }),
{
    lemma_popped(s);
    let a = s.popped();
    reveal(Sim::arrive);
    let ev = EventKind::MessageDelivered { from, to, kind: MsgKind::Commit };
    lemma_emit(a, ev);
    let q = a.emit(ev);
    if s.cfg.write_disruptive {
        lemma_thaw_and_reguard(q, to);
        law_thaw_reopens_every_guard(q, to, i);
    }
}

/// The lease after its grantor, if it is the node, opened the guard of a grant afresh that
/// a write tore down.
pub open spec fn afresh(l: LeaseState, node: NodeId, b: Sim) -> LeaseState {
    if l.id.grantor == node && l.grantor.reguard_on_thaw {
        LeaseState {
            grantor: guarded(
                l.grantor,
                b.cfg.nodes[node as int].clock.reading(b.now as int),
            ),
            ..l
        }
    } else {
        l
    }
}

/// The node has opened the guard of every grant afresh that a write tore down, and left
/// every other lease alone.
pub open spec fn guards_afresh(leases: Seq<LeaseState>, b: Sim, node: NodeId) -> bool {
    forall|i: int| 0 <= i < leases.len() ==> #[trigger] b.leases[i] == afresh(leases[i], node, b)
}

// ---- Giving up -------------------------------------------------------------

/// Thawing the first `k` nodes re-opens the guards of their torn-down grants.
proof fn lemma_thaw_all_reguards(s: Sim, k: int, i: int)
    requires
        s.ok(),
        sized(s),
        0 <= k <= s.nodes.len(),
        0 <= i < s.leases.len(),
        s.leases[i].grantor.reguard_on_thaw,
    ensures
        s.thaw_all(k).leases[i].id == s.leases[i].id,
        s.thaw_all(k).leases[i].grantor == if s.leases[i].id.grantor < k {
            guarded(s.leases[i].grantor, s.local(s.leases[i].id.grantor))
        } else {
            s.leases[i].grantor
        },
    decreases k,
{
    if k > 0 {
        lemma_thaw_all_reguards(s, k - 1, i);
        crate::upkeep::lemma_thaw_all(s, k - 1);
        let a = s.thaw_all(k - 1);
        law_thaw_reopens_every_guard(a, (k - 1) as usize, i);
    }
}

/// When the leader wakes and is up, it gives up every write that has been outstanding for
/// 1500 ticks, and no other. Where writes disrupt, that thaws every node, and the guard of
/// every grant that a write tore down opens afresh there and then. No other node gives up
/// writes, and without such a write no node is thawed.
pub proof fn law_leader_gives_up_stale_writes(s: Sim, node: NodeId)
    requires
        wakes(s, node),
        wakes_up(s, node),
    ensures
        ({
            let b = s.step();
            let at = s.queue[0].at;
            let any = exists|q: int|
                0 <= q < s.rounds.len() && at - (#[trigger] s.rounds[q]).started >= 1500;
            &&& leads(s, node) ==> forall|r: Round| #[trigger]
                b.rounds.contains(r) <==> s.rounds.contains(r) && at - r.started < 1500
            &&& !leads(s, node) ==> b.rounds == s.rounds
            &&& leads(s, node) && any && s.cfg.write_disruptive ==> {
                &&& forall|m: int| 0 <= m < s.nodes.len() ==> !(#[trigger] b.nodes[m]).write_frozen
                &&& s.cfg.params.t_guard > s.cfg.params.t_delta ==> forall|i: int|
                    0 <= i < s.leases.len() && s.leases[i].grantor.reguard_on_thaw ==> {
                        let h = (#[trigger] b.leases[i]).grantor;
                        &&& h.status == LeaseStatus::Guarding
                        &&& h.intended
                        &&& h.guard_since
                            == s.cfg.nodes[s.leases[i].id.grantor as int].clock.reading(at as int)
                    }
            }
            &&& !(leads(s, node) && any && s.cfg.write_disruptive) ==> forall|m: int|
                0 <= m < s.nodes.len() ==> (#[trigger] b.nodes[m]).write_frozen
                    == s.nodes[m].write_frozen
        }),
{
    lemma_popped(s);
    let a = s.popped();
    lemma_poll_parts(a, node);
    lemma_fault_trial_effect(a, node);
    let s1 = a.fault_trial(node);
    lemma_tend_nodes(s1, node);
    let s2 = s1.tend(node);
    let b = s.step();
    let c = s1.abort_stale_writes(node);
    crate::upkeep::lemma_abort_stale_writes(s1, node);
    let at = s.queue[0].at;
    let any = exists|q: int|
        0 <= q < s.rounds.len() && at - (#[trigger] s.rounds[q]).started >= 1500;
    assert(s1.has_stale_round() == any) by {
        if any {
            let q = choose|q: int|
                0 <= q < s.rounds.len() && at - (#[trigger] s.rounds[q]).started >= 1500;
            assert(s1.stale(s1.rounds[q]));
        }
        if s1.has_stale_round() {
            let q = choose|q: int|
                0 <= q < s1.rounds.len() && s1.stale(#[trigger] s1.rounds[q]);
            assert(at - s.rounds[q].started >= 1500);
        }
    }
    lemma_same_parties(s, s1);
    lemma_smallest_grantee(s1.leases, s1.leases.len() as int);
    assert(leads(s1, node) <==> s1.leader() == Some(node)) by {
        if leads(s1, node) {
            lemma_leads(s1, node);
        }
    }
    let keep = |r: Round| !s1.stale(r);
    lemma_rounds_filter(s1, keep);
    let d = Sim { rounds: s1.rounds.filter(keep), ..s1 };
    let k = s1.nodes.len() as int;
    crate::upkeep::lemma_thaw_all(d, k);
    reveal(Sim::abort_stale_writes);
    if leads(s, node) {
        assert forall|r: Round| #[trigger] b.rounds.contains(r) <==> s.rounds.contains(r) && at
            - r.started < 1500 by {
            if any {
                lemma_filter_contains(s1.rounds, keep, r);
            } else if s.rounds.contains(r) {
                let q = choose|q: int| 0 <= q < s.rounds.len() && s.rounds[q] == r;
                assert(at - s.rounds[q].started < 1500);
            }
        }
        if any && s.cfg.write_disruptive {
            crate::writing::law_stale_rounds_are_abandoned(s1, node);
            if s.cfg.params.t_guard > s.cfg.params.t_delta {
                assert forall|i: int|
                    0 <= i < s.leases.len() && s.leases[i].grantor.reguard_on_thaw implies {
                    let h = (#[trigger] b.leases[i]).grantor;
                    &&& h.status == LeaseStatus::Guarding
                    &&& h.intended
                    &&& h.guard_since
                        == s.cfg.nodes[s.leases[i].id.grantor as int].clock.reading(at as int)
                } by {
                    crate::upkeep::lemma_parties(s1, i);
                    assert(s1.leases[i].grantor.reguard_on_thaw);
                    lemma_thaw_all_reguards(d, k, i);
                    crate::tending::lemma_tend_keeps_guard(s1, node, i);
                    crate::tending::lemma_recompute_lease(s2, node, s2.leases.len() as int, i);
                }
            }
        }
    }
    if !(leads(s, node) && any && s.cfg.write_disruptive) {
        assert(c.nodes == s1.nodes);
    }
}

/// The parties of a lease stay what they are.
proof fn lemma_same_parties(s: Sim, b: Sim)
    requires
        s.ok(),
        b.ok(),
        b.cfg == s.cfg,
    ensures
        forall|node: NodeId| #[trigger] leads(s, node) == leads(b, node),
{
    assert forall|node: NodeId| #[trigger] leads(s, node) == leads(b, node) by {
        assert forall|i: int| 0 <= i < s.leases.len() implies (#[trigger] b.leases[i]).id
            == s.leases[i].id by {}
        assert forall|i: int| 0 <= i < s.leases.len() implies (#[trigger] s.leases[i]).id
            == b.leases[i].id by {}
        if leads(s, node) {
            let i = choose|i: int|
                0 <= i < s.leases.len() && (#[trigger] s.leases[i]).id.grantee == node;
            assert(b.leases[i].id.grantee == node);
        }
        if leads(b, node) {
            let i = choose|i: int|
                0 <= i < b.leases.len() && (#[trigger] b.leases[i]).id.grantee == node;
            assert(s.leases[i].id.grantee == node);
        }
    }
}

/// A filter lets through what it keeps, and nothing else.
proof fn lemma_filter_contains<A>(s: Seq<A>, keep: spec_fn(A) -> bool, x: A)
    ensures
        s.filter(keep).contains(x) <==> s.contains(x) && keep(x),
{
    if s.filter(keep).contains(x) {
        let i = choose|i: int| 0 <= i < s.filter(keep).len() && s.filter(keep)[i] == x;
        crate::upkeep::lemma_filter_from(s, keep, i);
    }
    if s.contains(x) && keep(x) {
        let i = choose|i: int| 0 <= i < s.len() && s[i] == x;
        lemma_filter_keeps(s, keep, i);
    }
}

} // verus!
