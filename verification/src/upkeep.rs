//! What holds of a simulation between any two scheduled items, and that every
//! item keeps it.

use crate::clock::Time;
use crate::dist::{lemma_drawn_bounds, Dist, NormalDraw};
use crate::event::{Command, Event, EventKind, LeaseId, LeaseStatus, MsgFate, MsgKind, NodeId};
use crate::scenario::{
    command_valid, delay_valid, lemma_readings_within_limit, within_limit, Config, LIMIT,
};
use crate::sim::{
    guard_given_up, lease_position, max_of, min_of, renew_given_up, round_position,
    smallest_grantee, unintended, GranteeState, GrantorState, InFlight, LeaseState, NodeState,
    Round, Sim, POLL_INTERVAL,
};
use crate::timeline::{enqueue, in_time_order, lemma_enqueue, slot, Scheduled, Timed};
use vstd::prelude::*;

verus! {

/// `x` is at most `k` times [`LIMIT`] either way.
pub open spec fn within(x: int, k: int) -> bool {
    -k * LIMIT <= x <= k * LIMIT
}

/// A message between declared nodes; one about a lease travels between the
/// lease's two parties in the direction of its kind.
pub open spec fn message_ok(
    cfg: Config,
    from: NodeId,
    to: NodeId,
    kind: MsgKind,
    tag: usize,
) -> bool {
    &&& from < cfg.nodes.len()
    &&& to < cfg.nodes.len()
    &&& !kind.is_write_path() ==> {
        &&& tag < cfg.leases.len()
        &&& kind.is_from_grantor() ==> from == cfg.leases[tag as int].grantor && to
            == cfg.leases[tag as int].grantee
        &&& !kind.is_from_grantor() ==> from == cfg.leases[tag as int].grantee && to
            == cfg.leases[tag as int].grantor
    }
}

pub open spec fn item_ok(cfg: Config, item: Scheduled) -> bool {
    match item {
        Scheduled::Poll { node } => node < cfg.nodes.len(),
        Scheduled::Send { from, to, kind, tag } => kind.is_reply() && message_ok(
            cfg,
            from,
            to,
            kind,
            tag,
        ),
        Scheduled::Arrival { from, to, kind, tag, .. } => message_ok(cfg, from, to, kind, tag),
        Scheduled::Command(cmd) => command_valid(cmd, cfg.nodes.len()),
        Scheduled::WriteTick => true,
    }
}

/// The timeline is ordered, lies ahead, and names what is declared.
pub open spec fn queue_ok(cfg: Config, now: Time, queue: Seq<Timed>) -> bool {
    &&& in_time_order(queue)
    &&& forall|i: int|
        0 <= i < queue.len() ==> (#[trigger] queue[i]).at >= now && item_ok(cfg, queue[i].item)
}

pub open spec fn grantor_ok(g: GrantorState) -> bool {
    &&& within(g.grant_expiry as int, 5)
    &&& within(g.next_renew_due as int, 2)
    &&& within(g.guard_since as int, 1)
    &&& within(g.last_reply as int, 1)
}

pub open spec fn grantee_ok(g: GranteeState) -> bool {
    &&& within(g.hold_expiry as int, 3)
    &&& within(g.guard_deadline as int, 3)
}

/// There is a state for every declared lease, and no bound of it is far off.
pub open spec fn leases_ok(cfg: Config, leases: Seq<LeaseState>) -> bool {
    &&& leases.len() == cfg.leases.len()
    &&& forall|i: int|
        0 <= i < leases.len() ==> (#[trigger] leases[i]).id == cfg.leases[i] && grantor_ok(
            leases[i].grantor,
        ) && grantee_ok(leases[i].grantee)
}

/// Messages in flight were sent by now and take at least one tick.
pub open spec fn flights_ok(cfg: Config, now: Time, flights: Seq<InFlight>) -> bool {
    forall|i: int|
        0 <= i < flights.len() ==> 0 <= (#[trigger] flights[i]).sent <= now && flights[i].sent
            < flights[i].arrival <= flights[i].sent + LIMIT && flights[i].from < cfg.nodes.len()
            && flights[i].to < cfg.nodes.len()
}

/// Events are in ascending order of time, none later than now.
pub open spec fn events_ok(now: Time, events: Seq<Event>) -> bool {
    &&& forall|i: int, j: int| 0 <= i <= j < events.len() ==> events[i].at <= events[j].at
    &&& forall|i: int| 0 <= i < events.len() ==> (#[trigger] events[i]).at <= now
}

pub open spec fn rounds_ok(now: Time, rounds: Seq<Round>) -> bool {
    forall|i: int|
        0 <= i < rounds.len() ==> 0 <= (#[trigger] rounds[i]).started <= now
            && rounds[i].replied.finite()
}

/// Gaussian samples are at most [`LIMIT`].
pub open spec fn normal_ok(normal: spec_fn(NormalDraw) -> Time) -> bool {
    forall|d: NormalDraw| (#[trigger] normal(d)) <= LIMIT
}

/// How much an item may still set in motion in the tick it takes effect in: a
/// deferred send nothing, any other item at most one deferred send.
pub open spec fn weight(item: Scheduled) -> nat {
    match item {
        Scheduled::Send { .. } => 1,
        _ => 2,
    }
}

/// The total weight of the entries due by time `t`.
pub open spec fn due(queue: Seq<Timed>, t: int) -> nat
    decreases queue.len(),
{
    if queue.len() == 0 {
        0
    } else {
        due(queue.drop_last(), t) + if queue.last().at <= t {
            weight(queue.last().item)
        } else {
            0
        }
    }
}

impl Sim {
    /// The state is one that a run of a valid scenario can be in.
    pub open spec fn ok(self) -> bool {
        &&& self.cfg.valid()
        &&& normal_ok(self.normal)
        &&& 0 <= self.now <= self.cfg.duration
        &&& self.nodes.len() == self.cfg.nodes.len()
        &&& leases_ok(self.cfg, self.leases)
        &&& queue_ok(self.cfg, self.now, self.queue)
        &&& flights_ok(self.cfg, self.now, self.in_flight)
        &&& events_ok(self.now, self.pending)
        &&& rounds_ok(self.now, self.rounds)
    }

    /// `next` is a later moment of the same run in the same tick, at which at
    /// most `extra` more weight is due; nothing that was reported is lost, and
    /// what is newly reported is dated now.
    pub open spec fn leads_to(self, next: Sim, extra: nat) -> bool {
        &&& next.ok()
        &&& next.cfg == self.cfg
        &&& next.normal == self.normal
        &&& next.now == self.now
        &&& due(next.queue, self.now as int) <= due(self.queue, self.now as int) + extra
        &&& self.pending.is_prefix_of(next.pending)
        &&& forall|i: int|
            self.pending.len() <= i < next.pending.len() ==> (#[trigger] next.pending[i]).at
                == self.now
    }
}

pub proof fn lemma_due_push(queue: Seq<Timed>, entry: Timed, t: int)
    ensures
        due(queue.push(entry), t) == due(queue, t) + if entry.at <= t {
            weight(entry.item)
        } else {
            0
        },
{
    assert(queue.push(entry).drop_last() =~= queue);
}

pub proof fn lemma_due_enqueue(queue: Seq<Timed>, entry: Timed, t: int)
    requires
        in_time_order(queue),
    ensures
        due(enqueue(queue, entry), t) == due(queue, t) + if entry.at <= t {
            weight(entry.item)
        } else {
            0
        },
    decreases queue.len(),
{
    lemma_enqueue(queue, entry);
    if queue.len() == 0 || queue.last().at <= entry.at {
        assert(enqueue(queue, entry) =~= queue.push(entry));
        lemma_due_push(queue, entry, t);
    } else {
        let rest = queue.drop_last();
        lemma_due_enqueue(rest, entry, t);
        lemma_enqueue(rest, entry);
        assert(enqueue(queue, entry) =~= enqueue(rest, entry).push(queue.last()));
        lemma_due_push(enqueue(rest, entry), queue.last(), t);
    }
}

pub proof fn lemma_due_drop_first(queue: Seq<Timed>, t: int)
    requires
        queue.len() > 0,
    ensures
        due(queue, t) == due(queue.drop_first(), t) + if queue[0].at <= t {
            weight(queue[0].item)
        } else {
            0
        },
    decreases queue.len(),
{
    if queue.len() == 1 {
        assert(queue.drop_first() =~= Seq::empty());
        assert(queue.drop_last() =~= Seq::empty());
        assert(due(Seq::<Timed>::empty(), t) == 0);
    } else {
        lemma_due_drop_first(queue.drop_last(), t);
        assert(queue.drop_last().drop_first() =~= queue.drop_first().drop_last());
    }
}

pub proof fn lemma_leads_to_trans(a: Sim, b: Sim, c: Sim, x: nat, y: nat)
    requires
        a.leads_to(b, x),
        b.leads_to(c, y),
    ensures
        a.leads_to(c, x + y),
{
    assert forall|i: int| 0 <= i < a.pending.len() implies a.pending[i] == c.pending[i] by {
        assert(a.pending[i] == b.pending[i]);
    }
    assert(a.pending =~= c.pending.take(a.pending.len() as int));
    assert forall|i: int| a.pending.len() <= i < c.pending.len() implies (#[trigger] c.pending[i]).at
        == a.now by {
        if i < b.pending.len() {
            assert(c.pending[i] == b.pending[i]);
        }
    }
}

/// The clock readings of the current tick.
pub proof fn lemma_local(s: Sim, node: NodeId)
    requires
        s.ok(),
        node < s.nodes.len(),
    ensures
        within_limit(s.local(node)),
{
    lemma_readings_within_limit(
        s.cfg.nodes[node as int].clock,
        s.cfg.duration as int,
        s.now as int,
    );
}

pub proof fn lemma_schedule(s: Sim, at: int, item: Scheduled)
    requires
        s.ok(),
        item_ok(s.cfg, item),
        at <= i64::MAX,
    ensures
        s.leads_to(
            s.schedule(at, item),
            if at <= s.now {
                weight(item)
            } else {
                0
            },
        ),
        s.schedule(at, item).queue == enqueue(
            s.queue,
            Timed { at: max_of(at, s.now as int) as Time, item },
        ),
{
    let entry = Timed { at: max_of(at, s.now as int) as Time, item };
    lemma_enqueue(s.queue, entry);
    lemma_due_enqueue(s.queue, entry, s.now as int);
    let q = enqueue(s.queue, entry);
    let p = slot(s.queue, entry.at);
    assert forall|i: int| 0 <= i < q.len() implies (#[trigger] q[i]).at >= s.now && item_ok(
        s.cfg,
        q[i].item,
    ) by {
        if i < p {
            assert(q[i] == s.queue[i]);
        } else if i > p {
            assert(q[i] == s.queue[i - 1]);
        }
    }
    assert(s.pending.is_prefix_of(s.pending));
}

pub proof fn lemma_emit(s: Sim, kind: EventKind)
    requires
        s.ok(),
    ensures
        s.leads_to(s.emit(kind), 0),
{
    assert(s.pending =~= s.emit(kind).pending.take(s.pending.len() as int));
}

pub proof fn lemma_draw(s: Sim, rng: crate::rng::RngState)
    requires
        s.ok(),
    ensures
        s.leads_to((Sim { rng, ..s }), 0),
{
    assert(s.pending.is_prefix_of(s.pending));
}

pub proof fn lemma_with_grantor(s: Sim, i: int, g: GrantorState)
    requires
        s.ok(),
        0 <= i < s.leases.len(),
        grantor_ok(g),
    ensures
        s.leads_to(s.with_grantor(i, g), 0),
{
    assert(s.pending.is_prefix_of(s.pending));
}

pub proof fn lemma_with_grantee(s: Sim, i: int, g: GranteeState)
    requires
        s.ok(),
        0 <= i < s.leases.len(),
        grantee_ok(g),
    ensures
        s.leads_to(s.with_grantee(i, g), 0),
{
    assert(s.pending.is_prefix_of(s.pending));
}

pub proof fn lemma_with_node(s: Sim, node: NodeId, state: NodeState)
    requires
        s.ok(),
        node < s.nodes.len(),
    ensures
        s.leads_to(s.with_node(node, state), 0),
{
    assert(s.pending.is_prefix_of(s.pending));
}

/// The delays drawn in a valid scenario.
pub proof fn lemma_delay(d: Dist, rng: crate::rng::RngState, normal: spec_fn(NormalDraw) -> Time)
    requires
        delay_valid(d),
        normal_ok(normal),
    ensures
        0 <= d.drawn(rng, normal) <= LIMIT,
{
    lemma_drawn_bounds(d, rng, normal);
}

/// A declared link, or the default one, has a valid delay.
pub proof fn lemma_link_delay(cfg: Config, from: NodeId, to: NodeId)
    requires
        cfg.valid(),
    ensures
        delay_valid(cfg.link(from, to).delay),
{
    let p = crate::scenario::link_position(cfg.links, from, to, 0);
    lemma_link_position_bounds(cfg.links, from, to, 0);
    if p < cfg.links.len() {
        assert(cfg.link(from, to) == cfg.links[p]);
    }
}

proof fn lemma_link_position_bounds(
    links: Seq<crate::scenario::LinkConfig>,
    from: NodeId,
    to: NodeId,
    k: int,
)
    requires
        0 <= k <= links.len(),
    ensures
        k <= crate::scenario::link_position(links, from, to, k) <= links.len(),
    decreases links.len() - k,
{
    if k < links.len() && !links[k].connects(from, to) {
        lemma_link_position_bounds(links, from, to, k + 1);
    }
}

/// When a message sent now arrives.
pub proof fn lemma_arrival(s: Sim, from: NodeId, to: NodeId)
    requires
        s.ok(),
    ensures
        s.now < s.arrival_of(from, to) <= s.now + LIMIT,
{
    lemma_link_delay(s.cfg, from, to);
    lemma_delay(s.cfg.link(from, to).delay, s.rng_after_loss(from, to), s.normal);
}

/// Sending a message keeps the invariant, and touches neither leases nor nodes
/// nor rounds.
pub proof fn lemma_send(s: Sim, from: NodeId, to: NodeId, kind: MsgKind, tag: usize)
    requires
        s.ok(),
        message_ok(s.cfg, from, to, kind, tag),
    ensures
        s.leads_to(s.send(from, to, kind, tag), 0),
        s.send(from, to, kind, tag).leases == s.leases,
        s.send(from, to, kind, tag).nodes == s.nodes,
        s.send(from, to, kind, tag).rounds == s.rounds,
        s.send(from, to, kind, tag).next_write_id == s.next_write_id,
{
    reveal(Sim::send);
    lemma_arrival(s, from, to);
    let arrival = s.arrival_of(from, to) as Time;
    let fate = s.fate_of(from, to, kind);
    let sent = s.now;
    let flights = s.in_flight.push(InFlight { from, to, kind, sent, arrival, fate });
    let s1 = Sim {
        rng: s.cfg.link(from, to).delay.rng_after(s.rng_after_loss(from, to)),
        in_flight: flights,
        ..s
    };
    assert(flights_ok(s.cfg, s.now, flights));
    let ev = EventKind::MessageSent { from, to, kind, sent, arrival, fate };
    assert(s1.ok());
    lemma_emit(s1, ev);
    lemma_schedule(s1.emit(ev), arrival as int, Scheduled::Arrival { from, to, kind, tag, fate });
    let s3 = s1.emit(ev).schedule(arrival as int, Scheduled::Arrival { from, to, kind, tag, fate });
    lemma_leads_to_trans(s1, s1.emit(ev), s3, 0, 0);
    assert(s.pending == s1.pending && s.queue == s1.queue);
    assert(s.leads_to(s3, 0));
}

pub proof fn lemma_reply(s: Sim, from: NodeId, to: NodeId, kind: MsgKind, tag: usize)
    requires
        s.ok(),
        kind.is_reply(),
        message_ok(s.cfg, from, to, kind, tag),
    ensures
        s.leads_to(s.reply_after_delay(from, to, kind, tag), 1),
        s.reply_after_delay(from, to, kind, tag).leases == s.leases,
        s.reply_after_delay(from, to, kind, tag).nodes == s.nodes,
        s.reply_after_delay(from, to, kind, tag).rounds == s.rounds,
        s.reply_after_delay(from, to, kind, tag).next_write_id == s.next_write_id,
        s.reply_after_delay(from, to, kind, tag).pending == s.pending,
        s.reply_after_delay(from, to, kind, tag).in_flight == s.in_flight,
{
    reveal(Sim::reply_after_delay);
    let think = s.cfg.nodes[from as int].response_delay;
    lemma_delay(think, s.rng, s.normal);
    let s1 = Sim { rng: think.rng_after(s.rng), ..s };
    lemma_draw(s, s1.rng);
    let at = s.now + think.drawn(s.rng, s.normal);
    lemma_schedule(s1, at, Scheduled::Send { from, to, kind, tag });
    lemma_leads_to_trans(s, s1, s1.schedule(at, Scheduled::Send { from, to, kind, tag }), 0, 1);
}

pub proof fn lemma_broadcast(s: Sim, from: NodeId, kind: MsgKind, tag: usize, k: int)
    requires
        s.ok(),
        kind.is_write_path(),
        from < s.nodes.len(),
        0 <= k <= s.nodes.len(),
        s.nodes.len() <= usize::MAX,
    ensures
        s.leads_to(s.broadcast(from, kind, tag, k), 0),
        s.broadcast(from, kind, tag, k).leases == s.leases,
        s.broadcast(from, kind, tag, k).nodes == s.nodes,
        s.broadcast(from, kind, tag, k).rounds == s.rounds,
        s.broadcast(from, kind, tag, k).next_write_id == s.next_write_id,
    decreases k,
{
    if k > 0 {
        lemma_broadcast(s, from, kind, tag, k - 1);
        let s1 = s.broadcast(from, kind, tag, k - 1);
        if k - 1 != from {
            lemma_send(s1, from, (k - 1) as usize, kind, tag);
            lemma_leads_to_trans(s, s1, s1.send(from, (k - 1) as usize, kind, tag), 0, 0);
        }
    } else {
        assert(s.pending.is_prefix_of(s.pending));
    }
}

pub proof fn lemma_lease_position(leases: Seq<LeaseState>, id: LeaseId, k: int)
    requires
        0 <= k <= leases.len(),
    ensures
        ({
            let p = lease_position(leases, id, k);
            &&& k <= p <= leases.len()
            &&& p < leases.len() ==> leases[p].id == id
            &&& forall|j: int| k <= j < p ==> (#[trigger] leases[j]).id != id
        }),
    decreases leases.len() - k,
{
    if k < leases.len() && leases[k].id != id {
        lemma_lease_position(leases, id, k + 1);
    }
}

pub proof fn lemma_round_position(rounds: Seq<Round>, id: usize, k: int)
    requires
        0 <= k <= rounds.len(),
    ensures
        ({
            let p = round_position(rounds, id, k);
            &&& k <= p <= rounds.len()
            &&& p < rounds.len() ==> rounds[p].id == id
            &&& forall|j: int| k <= j < p ==> (#[trigger] rounds[j]).id != id
        }),
    decreases rounds.len() - k,
{
    if k < rounds.len() && rounds[k].id != id {
        lemma_round_position(rounds, id, k + 1);
    }
}

/// The leader is the smallest grantee.
pub proof fn lemma_smallest_grantee(leases: Seq<LeaseState>, k: int)
    requires
        0 <= k <= leases.len(),
    ensures
        smallest_grantee(leases, k) is None <==> k == 0,
        smallest_grantee(leases, k) matches Some(m) ==> {
            &&& exists|i: int| 0 <= i < k && (#[trigger] leases[i]).id.grantee == m
            &&& forall|i: int| 0 <= i < k ==> (#[trigger] leases[i]).id.grantee >= m
        },
    decreases k,
{
    if k > 0 {
        lemma_smallest_grantee(leases, k - 1);
        assert(leases[k - 1].id.grantee >= smallest_grantee(leases, k)->0);
        if smallest_grantee(leases, k - 1) != smallest_grantee(leases, k) {
            assert(leases[k - 1].id.grantee == smallest_grantee(leases, k)->0);
        }
    }
}

pub proof fn lemma_leader(s: Sim)
    requires
        s.ok(),
    ensures
        s.leader() matches Some(m) ==> m < s.nodes.len(),
{
    lemma_smallest_grantee(s.leases, s.leases.len() as int);
}

pub proof fn lemma_fail_node(s: Sim, node: NodeId)
    requires
        s.ok(),
        node < s.nodes.len(),
    ensures
        s.leads_to(s.fail_node(node), 0),
{
    reveal(Sim::fail_node);
    let s1 = s.with_node(node, NodeState { up: false, ..s.nodes[node as int] });
    lemma_with_node(s, node, NodeState { up: false, ..s.nodes[node as int] });
    lemma_emit(s1, EventKind::NodeFailed { node });
    lemma_leads_to_trans(s, s1, s1.emit(EventKind::NodeFailed { node }), 0, 0);
    let r = s.leases.map_values(|l: LeaseState| unintended(l, node));
    assert(leases_ok(s.cfg, r)) by {
        assert forall|i: int| 0 <= i < r.len() implies (#[trigger] r[i]).id == s.cfg.leases[i]
            && grantor_ok(r[i].grantor) && grantee_ok(r[i].grantee) by {
            assert(s.leases[i].id == s.cfg.leases[i]);
        }
    }
}

pub proof fn lemma_recover_node(s: Sim, node: NodeId)
    requires
        s.ok(),
        node < s.nodes.len(),
    ensures
        s.leads_to(s.recover_node(node), 0),
{
    reveal(Sim::recover_node);
    let n = NodeState { up: true, ..s.nodes[node as int] };
    lemma_with_node(s, node, n);
    lemma_emit(s.with_node(node, n), EventKind::NodeRecovered { node });
    lemma_leads_to_trans(s, s.with_node(node, n), s.recover_node(node), 0, 0);
}

pub proof fn lemma_fault_trial(s: Sim, node: NodeId)
    requires
        s.ok(),
        node < s.nodes.len(),
    ensures
        s.leads_to(s.fault_trial(node), 0),
{
    reveal(Sim::fault_trial);
    lemma_draw(s, s.rng.next());
    lemma_fail_node(s.draw(), node);
    lemma_recover_node(s.draw(), node);
    lemma_leads_to_trans(s, s.draw(), s.draw().fail_node(node), 0, 0);
    lemma_leads_to_trans(s, s.draw(), s.draw().recover_node(node), 0, 0);
}

pub proof fn lemma_expire_stale_guards(s: Sim, node: NodeId)
    requires
        s.ok(),
    ensures
        s.leads_to(s.expire_stale_guards(node), 0),
{
    reveal(Sim::expire_stale_guards);
    let (local, window) = (s.local(node), s.params().guard_len());
    let r = s.leases.map_values(|l: LeaseState| guard_given_up(l, node, local, window));
    assert(leases_ok(s.cfg, r)) by {
        assert forall|i: int| 0 <= i < r.len() implies (#[trigger] r[i]).id == s.cfg.leases[i]
            && grantor_ok(r[i].grantor) && grantee_ok(r[i].grantee) by {
            assert(s.leases[i].id == s.cfg.leases[i]);
        }
    }
    assert(s.pending.is_prefix_of(s.pending));
}

pub proof fn lemma_expire_stale_renews(s: Sim, node: NodeId)
    requires
        s.ok(),
    ensures
        s.leads_to(s.expire_stale_renews(node), 0),
{
    reveal(Sim::expire_stale_renews);
    let local = s.local(node);
    let r = s.leases.map_values(|l: LeaseState| renew_given_up(l, node, local));
    assert(leases_ok(s.cfg, r)) by {
        assert forall|i: int| 0 <= i < r.len() implies (#[trigger] r[i]).id == s.cfg.leases[i]
            && grantor_ok(r[i].grantor) && grantee_ok(r[i].grantee) by {
            assert(s.leases[i].id == s.cfg.leases[i]);
        }
    }
    assert(s.pending.is_prefix_of(s.pending));
}

/// A lease's parties are nodes.
pub proof fn lemma_parties(s: Sim, i: int)
    requires
        s.ok(),
        0 <= i < s.leases.len(),
    ensures
        s.leases[i].id == s.cfg.leases[i],
        s.leases[i].id.grantor < s.nodes.len(),
        s.leases[i].id.grantee < s.nodes.len(),
        within_limit(s.local(s.leases[i].id.grantor)),
        within_limit(s.local(s.leases[i].id.grantee)),
{
    lemma_local(s, s.leases[i].id.grantor);
    lemma_local(s, s.leases[i].id.grantee);
}

pub proof fn lemma_begin_guard(s: Sim, i: usize)
    requires
        s.ok(),
        i < s.leases.len(),
    ensures
        s.leads_to(s.begin_guard(i), 0),
        s.begin_guard(i).nodes == s.nodes,
        s.begin_guard(i).rounds == s.rounds,
{
    reveal(Sim::begin_guard);
    lemma_parties(s, i as int);
    let l = s.leases[i as int];
    let g = GrantorState {
        status: LeaseStatus::Guarding,
        intended: true,
        awaiting_reply: false,
        reguard_on_thaw: false,
        guard_since: s.local(l.id.grantor) as Time,
        ..l.grantor
    };
    lemma_with_grantor(s, i as int, g);
    let s1 = s.with_grantor(i as int, g);
    lemma_send(s1, l.id.grantor, l.id.grantee, MsgKind::Guard, i);
    lemma_leads_to_trans(s, s1, s1.send(l.id.grantor, l.id.grantee, MsgKind::Guard, i), 0, 0);
}

pub proof fn lemma_begin_revoke(s: Sim, i: usize)
    requires
        s.ok(),
        i < s.leases.len(),
    ensures
        s.leads_to(s.begin_revoke(i), 0),
{
    reveal(Sim::begin_revoke);
    lemma_parties(s, i as int);
    let l = s.leases[i as int];
    let g = GrantorState { intended: false, ..l.grantor };
    lemma_with_grantor(s, i as int, g);
    let s1 = s.with_grantor(i as int, g);
    lemma_send(s1, l.id.grantor, l.id.grantee, MsgKind::Revoke, i);
    lemma_leads_to_trans(s, s1, s1.send(l.id.grantor, l.id.grantee, MsgKind::Revoke, i), 0, 0);
}

pub proof fn lemma_send_renew(s: Sim, i: usize)
    requires
        s.ok(),
        i < s.leases.len(),
    ensures
        s.leads_to(s.send_renew(i), 0),
        s.send_renew(i).nodes == s.nodes,
        s.send_renew(i).rounds == s.rounds,
{
    reveal(Sim::send_renew);
    lemma_parties(s, i as int);
    let l = s.leases[i as int];
    let b = s.local(l.id.grantor);
    let g = GrantorState {
        grant_expiry: max_of(l.grantor.grant_expiry as int, b + s.params().grant_len()) as Time,
        next_renew_due: (b + s.params().renew_interval) as Time,
        awaiting_reply: true,
        ..l.grantor
    };
    lemma_with_grantor(s, i as int, g);
    let s1 = s.with_grantor(i as int, g);
    lemma_send(s1, l.id.grantor, l.id.grantee, MsgKind::Renew, i);
    lemma_leads_to_trans(s, s1, s1.send(l.id.grantor, l.id.grantee, MsgKind::Renew, i), 0, 0);
}

pub proof fn lemma_initiate_trial(s: Sim, node: NodeId, i: usize)
    requires
        s.ok(),
        i < s.leases.len(),
    ensures
        s.leads_to(s.initiate_trial(node, i), 0),
        s.initiate_trial(node, i).nodes == s.nodes,
        s.initiate_trial(node, i).rounds == s.rounds,
{
    lemma_draw(s, s.rng.next());
    lemma_begin_guard(s.draw(), i);
    lemma_leads_to_trans(s, s.draw(), s.draw().begin_guard(i), 0, 0);
    assert(s.pending.is_prefix_of(s.pending));
}

pub proof fn lemma_maybe_initiate(s: Sim, node: NodeId, k: int)
    requires
        s.ok(),
        0 <= k <= s.leases.len(),
        s.leases.len() <= usize::MAX,
    ensures
        s.leads_to(s.maybe_initiate(node, k), 0),
        s.maybe_initiate(node, k).nodes == s.nodes,
        s.maybe_initiate(node, k).rounds == s.rounds,
    decreases k,
{
    if k > 0 && !s.nodes[node as int].write_frozen {
        lemma_maybe_initiate(s, node, k - 1);
        let s1 = s.maybe_initiate(node, k - 1);
        lemma_initiate_trial(s1, node, (k - 1) as usize);
        lemma_leads_to_trans(s, s1, s1.initiate_trial(node, (k - 1) as usize), 0, 0);
    } else {
        assert(s.pending.is_prefix_of(s.pending));
    }
}

pub proof fn lemma_service_grants(s: Sim, node: NodeId, k: int)
    requires
        s.ok(),
        0 <= k <= s.leases.len(),
        s.leases.len() <= usize::MAX,
    ensures
        s.leads_to(s.service_grants(node, k), 0),
        s.service_grants(node, k).nodes == s.nodes,
        s.service_grants(node, k).rounds == s.rounds,
    decreases k,
{
    if k > 0 {
        lemma_service_grants(s, node, k - 1);
        let s1 = s.service_grants(node, k - 1);
        lemma_send_renew(s1, (k - 1) as usize);
        lemma_leads_to_trans(s, s1, s1.send_renew((k - 1) as usize), 0, 0);
    } else {
        assert(s.pending.is_prefix_of(s.pending));
    }
}

pub proof fn lemma_recompute_grantor(s: Sim, node: NodeId, i: int)
    requires
        s.ok(),
        0 <= i < s.leases.len(),
    ensures
        s.leads_to(s.recompute_grantor(node, i), 0),
        s.recompute_grantor(node, i).nodes == s.nodes,
        s.recompute_grantor(node, i).rounds == s.rounds,
{
    let l = s.leases[i];
    let g = GrantorState { status: LeaseStatus::Expired, ..l.grantor };
    lemma_with_grantor(s, i, g);
    let ev = EventKind::GrantorLease { lease: l.id, status: LeaseStatus::Expired };
    lemma_emit(s.with_grantor(i, g), ev);
    lemma_leads_to_trans(s, s.with_grantor(i, g), s.with_grantor(i, g).emit(ev), 0, 0);
    assert(s.pending.is_prefix_of(s.pending));
}

pub proof fn lemma_recompute_grantee(s: Sim, node: NodeId, i: int)
    requires
        s.ok(),
        0 <= i < s.leases.len(),
    ensures
        s.leads_to(s.recompute_grantee(node, i), 0),
        s.recompute_grantee(node, i).nodes == s.nodes,
        s.recompute_grantee(node, i).rounds == s.rounds,
{
    let l = s.leases[i];
    let g = GranteeState { status: LeaseStatus::Expired, ..l.grantee };
    lemma_with_grantee(s, i, g);
    let ev = EventKind::GranteeLease { lease: l.id, status: LeaseStatus::Expired };
    lemma_emit(s.with_grantee(i, g), ev);
    lemma_leads_to_trans(s, s.with_grantee(i, g), s.with_grantee(i, g).emit(ev), 0, 0);
    assert(s.pending.is_prefix_of(s.pending));
}

pub proof fn lemma_recompute_statuses(s: Sim, node: NodeId, k: int)
    requires
        s.ok(),
        0 <= k <= s.leases.len(),
    ensures
        s.leads_to(s.recompute_statuses(node, k), 0),
        s.recompute_statuses(node, k).nodes == s.nodes,
        s.recompute_statuses(node, k).rounds == s.rounds,
    decreases k,
{
    if k > 0 {
        lemma_recompute_statuses(s, node, k - 1);
        let s1 = s.recompute_statuses(node, k - 1);
        lemma_recompute_grantor(s1, node, k - 1);
        let s2 = s1.recompute_grantor(node, k - 1);
        lemma_recompute_grantee(s2, node, k - 1);
        lemma_leads_to_trans(s, s1, s2, 0, 0);
        lemma_leads_to_trans(s, s2, s2.recompute_grantee(node, k - 1), 0, 0);
    } else {
        assert(s.pending.is_prefix_of(s.pending));
    }
}

pub proof fn lemma_suspend_hold(s: Sim, node: NodeId, i: int)
    requires
        s.ok(),
        0 <= i < s.leases.len(),
    ensures
        s.leads_to(s.suspend_hold(node, i), 0),
        s.suspend_hold(node, i).nodes == s.nodes,
        s.suspend_hold(node, i).rounds == s.rounds,
{
    lemma_parties(s, i);
    let l = s.leases[i];
    if l.id.grantee == node {
        let g = GranteeState {
            status: LeaseStatus::Expired,
            hold_expiry: s.local(node) as Time,
            ..l.grantee
        };
        lemma_with_grantee(s, i, g);
        let ev = EventKind::GranteeLease { lease: l.id, status: LeaseStatus::Expired };
        lemma_emit(s.with_grantee(i, g), ev);
        lemma_leads_to_trans(s, s.with_grantee(i, g), s.with_grantee(i, g).emit(ev), 0, 0);
    }
    assert(s.pending.is_prefix_of(s.pending));
}

pub proof fn lemma_suspend_grant(s: Sim, node: NodeId, i: int)
    requires
        s.ok(),
        0 <= i < s.leases.len(),
    ensures
        s.leads_to(s.suspend_grant(node, i), 0),
        s.suspend_grant(node, i).nodes == s.nodes,
        s.suspend_grant(node, i).rounds == s.rounds,
{
    let l = s.leases[i];
    let g = GrantorState {
        status: LeaseStatus::Inactive,
        intended: false,
        reguard_on_thaw: true,
        ..l.grantor
    };
    lemma_with_grantor(s, i, g);
    let ev = EventKind::GrantorLease { lease: l.id, status: LeaseStatus::Inactive };
    lemma_emit(s.with_grantor(i, g), ev);
    lemma_leads_to_trans(s, s.with_grantor(i, g), s.with_grantor(i, g).emit(ev), 0, 0);
    assert(s.pending.is_prefix_of(s.pending));
}

pub proof fn lemma_suspend(s: Sim, node: NodeId, k: int)
    requires
        s.ok(),
        0 <= k <= s.leases.len(),
    ensures
        s.leads_to(s.suspend(node, k), 0),
        s.suspend(node, k).nodes == s.nodes,
        s.suspend(node, k).rounds == s.rounds,
    decreases k,
{
    if k > 0 {
        lemma_suspend(s, node, k - 1);
        let s1 = s.suspend(node, k - 1);
        lemma_suspend_hold(s1, node, k - 1);
        let s2 = s1.suspend_hold(node, k - 1);
        lemma_suspend_grant(s2, node, k - 1);
        lemma_leads_to_trans(s, s1, s2, 0, 0);
        lemma_leads_to_trans(s, s2, s2.suspend_grant(node, k - 1), 0, 0);
    } else {
        assert(s.pending.is_prefix_of(s.pending));
    }
}

pub proof fn lemma_suspend_reads(s: Sim, node: NodeId)
    requires
        s.ok(),
        node < s.nodes.len(),
    ensures
        s.leads_to(s.suspend_reads(node), 0),
        s.suspend_reads(node).rounds == s.rounds,
{
    reveal(Sim::suspend_reads);
    let n = NodeState { write_frozen: true, ..s.nodes[node as int] };
    lemma_with_node(s, node, n);
    lemma_suspend(s.with_node(node, n), node, s.leases.len() as int);
    lemma_leads_to_trans(s, s.with_node(node, n), s.suspend_reads(node), 0, 0);
}

pub proof fn lemma_reguard(s: Sim, node: NodeId, k: int)
    requires
        s.ok(),
        0 <= k <= s.leases.len(),
        s.leases.len() <= usize::MAX,
    ensures
        s.leads_to(s.reguard(node, k), 0),
        s.reguard(node, k).nodes == s.nodes,
        s.reguard(node, k).rounds == s.rounds,
    decreases k,
{
    if k > 0 {
        lemma_reguard(s, node, k - 1);
        let s1 = s.reguard(node, k - 1);
        lemma_begin_guard(s1, (k - 1) as usize);
        lemma_leads_to_trans(s, s1, s1.begin_guard((k - 1) as usize), 0, 0);
    } else {
        assert(s.pending.is_prefix_of(s.pending));
    }
}

pub proof fn lemma_thaw_and_reguard(s: Sim, node: NodeId)
    requires
        s.ok(),
        node < s.nodes.len(),
        s.leases.len() <= usize::MAX,
    ensures
        s.leads_to(s.thaw_and_reguard(node), 0),
        s.thaw_and_reguard(node).rounds == s.rounds,
{
    reveal(Sim::thaw_and_reguard);
    let n = NodeState { write_frozen: false, ..s.nodes[node as int] };
    lemma_with_node(s, node, n);
    lemma_reguard(s.with_node(node, n), node, s.leases.len() as int);
    lemma_leads_to_trans(s, s.with_node(node, n), s.thaw_and_reguard(node), 0, 0);
}

pub proof fn lemma_thaw_all(s: Sim, k: int)
    requires
        s.ok(),
        0 <= k <= s.nodes.len(),
        s.nodes.len() <= usize::MAX,
        s.leases.len() <= usize::MAX,
    ensures
        s.leads_to(s.thaw_all(k), 0),
        s.thaw_all(k).rounds == s.rounds,
    decreases k,
{
    if k > 0 {
        lemma_thaw_all(s, k - 1);
        let s1 = s.thaw_all(k - 1);
        lemma_thaw_and_reguard(s1, (k - 1) as usize);
        lemma_leads_to_trans(s, s1, s1.thaw_and_reguard((k - 1) as usize), 0, 0);
    } else {
        assert(s.pending.is_prefix_of(s.pending));
    }
}

/// What a filter keeps was there before.
pub proof fn lemma_filter_from<A>(s: Seq<A>, keep: spec_fn(A) -> bool, i: int)
    requires
        0 <= i < s.filter(keep).len(),
    ensures
        s.contains(s.filter(keep)[i]),
        keep(s.filter(keep)[i]),
    decreases s.len(),
{
    reveal(Seq::filter);
    let rest = s.drop_last();
    let x = s.filter(keep)[i];
    if i < rest.filter(keep).len() {
        lemma_filter_from(rest, keep, i);
        let j = choose|j: int| 0 <= j < rest.len() && rest[j] == x;
        assert(s[j] == x);
    } else {
        assert(s[s.len() - 1] == x);
    }
}

/// A subsequence of the rounds is as good as the rounds.
pub proof fn lemma_rounds_filter(s: Sim, keep: spec_fn(Round) -> bool)
    requires
        s.ok(),
    ensures
        s.leads_to((Sim { rounds: s.rounds.filter(keep), ..s }), 0),
{
    let r = s.rounds.filter(keep);
    assert forall|i: int| 0 <= i < r.len() implies 0 <= (#[trigger] r[i]).started <= s.now
        && r[i].replied.finite() by {
        lemma_filter_from(s.rounds, keep, i);
    }
    assert(s.pending.is_prefix_of(s.pending));
}

pub proof fn lemma_abort_stale_writes(s: Sim, node: NodeId)
    requires
        s.ok(),
        s.nodes.len() <= usize::MAX,
        s.leases.len() <= usize::MAX,
    ensures
        s.leads_to(s.abort_stale_writes(node), 0),
{
    reveal(Sim::abort_stale_writes);
    let keep = |r: Round| !s.stale(r);
    let s1 = Sim { rounds: s.rounds.filter(keep), ..s };
    lemma_rounds_filter(s, keep);
    lemma_thaw_all(s1, s.nodes.len() as int);
    lemma_leads_to_trans(s, s1, s1.thaw_all(s.nodes.len() as int), 0, 0);
    assert(s.pending.is_prefix_of(s.pending));
}

pub proof fn lemma_tend(s: Sim, node: NodeId)
    requires
        s.ok(),
        node < s.nodes.len(),
        s.nodes.len() <= usize::MAX,
        s.leases.len() <= usize::MAX,
    ensures
        s.leads_to(s.tend(node), 0),
{
    reveal(Sim::tend);
    let s1 = s.abort_stale_writes(node);
    lemma_abort_stale_writes(s, node);
    let s2 = s1.expire_stale_guards(node);
    lemma_expire_stale_guards(s1, node);
    lemma_leads_to_trans(s, s1, s2, 0, 0);
    let s3 = s2.expire_stale_renews(node);
    lemma_expire_stale_renews(s2, node);
    lemma_leads_to_trans(s, s2, s3, 0, 0);
    let s4 = s3.maybe_initiate(node, s3.leases.len() as int);
    lemma_maybe_initiate(s3, node, s3.leases.len() as int);
    lemma_leads_to_trans(s, s3, s4, 0, 0);
    lemma_service_grants(s4, node, s4.leases.len() as int);
    lemma_leads_to_trans(s, s4, s4.service_grants(node, s4.leases.len() as int), 0, 0);
}

pub proof fn lemma_poll(s: Sim, node: NodeId)
    requires
        s.ok(),
        node < s.nodes.len(),
        s.nodes.len() <= usize::MAX,
        s.leases.len() <= usize::MAX,
    ensures
        s.leads_to(s.poll(node), 0),
{
    reveal(Sim::poll);
    let s1 = s.fault_trial(node);
    lemma_fault_trial(s, node);
    let s2 = if s1.nodes[node as int].up {
        s1.tend(node)
    } else {
        s1
    };
    lemma_tend(s1, node);
    lemma_leads_to_trans(s, s1, s1.tend(node), 0, 0);
    assert(s.leads_to(s2, 0));
    let s3 = s2.recompute_statuses(node, s2.leases.len() as int);
    lemma_recompute_statuses(s2, node, s2.leases.len() as int);
    lemma_leads_to_trans(s, s2, s3, 0, 0);
    if s3.now + POLL_INTERVAL <= s3.cfg.duration {
        lemma_schedule(s3, s3.now + POLL_INTERVAL, Scheduled::Poll { node });
        lemma_leads_to_trans(
            s,
            s3,
            s3.schedule(s3.now + POLL_INTERVAL, Scheduled::Poll { node }),
            0,
            0,
        );
    }
}

pub proof fn lemma_on_guard(s: Sim, i: usize)
    requires
        s.ok(),
        i < s.leases.len(),
    ensures
        s.leads_to(s.on_guard(i), 1),
{
    reveal(Sim::on_guard);
    lemma_parties(s, i as int);
    let l = s.leases[i as int];
    let g = GranteeState {
        guard_deadline: (s.local(l.id.grantee) + s.params().guard_len()) as Time,
        status: LeaseStatus::Guarding,
        ..l.grantee
    };
    lemma_with_grantee(s, i as int, g);
    let s1 = s.with_grantee(i as int, g);
    let ev = EventKind::GranteeLease { lease: l.id, status: LeaseStatus::Guarding };
    lemma_emit(s1, ev);
    lemma_leads_to_trans(s, s1, s1.emit(ev), 0, 0);
    lemma_reply(s1.emit(ev), l.id.grantee, l.id.grantor, MsgKind::GuardReply, i);
    lemma_leads_to_trans(s, s1.emit(ev), s.on_guard(i), 0, 1);
}

pub proof fn lemma_on_guard_reply(s: Sim, i: usize)
    requires
        s.ok(),
        i < s.leases.len(),
    ensures
        s.leads_to(s.on_guard_reply(i), 0),
{
    reveal(Sim::on_guard_reply);
    lemma_parties(s, i as int);
    let l = s.leases[i as int];
    let d = s.local(l.id.grantor) as Time;
    let g = GrantorState {
        status: LeaseStatus::Active,
        last_reply: d,
        next_renew_due: d,
        ..l.grantor
    };
    lemma_with_grantor(s, i as int, g);
    let s1 = s.with_grantor(i as int, g);
    let ev = EventKind::GrantorLease { lease: l.id, status: LeaseStatus::Active };
    lemma_emit(s1, ev);
    lemma_leads_to_trans(s, s1, s1.emit(ev), 0, 0);
    lemma_send_renew(s1.emit(ev), i);
    lemma_leads_to_trans(s, s1.emit(ev), s1.emit(ev).send_renew(i), 0, 0);
    assert(s.pending.is_prefix_of(s.pending));
}

pub proof fn lemma_on_renew(s: Sim, i: usize)
    requires
        s.ok(),
        i < s.leases.len(),
    ensures
        s.leads_to(s.on_renew(i), 1),
{
    reveal(Sim::on_renew);
    lemma_parties(s, i as int);
    let l = s.leases[i as int];
    let g = GranteeState {
        hold_expiry: (s.local(l.id.grantee) + s.params().hold_len()) as Time,
        status: LeaseStatus::Active,
        ..l.grantee
    };
    lemma_with_grantee(s, i as int, g);
    let s1 = s.with_grantee(i as int, g);
    let ev = EventKind::GranteeLease { lease: l.id, status: LeaseStatus::Active };
    lemma_emit(s1, ev);
    lemma_leads_to_trans(s, s1, s1.emit(ev), 0, 0);
    let s2 = if l.grantee.status != LeaseStatus::Active {
        s1.emit(ev)
    } else {
        s1
    };
    lemma_reply(s2, l.id.grantee, l.id.grantor, MsgKind::RenewReply, i);
    lemma_leads_to_trans(
        s,
        s2,
        s2.reply_after_delay(l.id.grantee, l.id.grantor, MsgKind::RenewReply, i),
        0,
        1,
    );
    assert(s.pending.is_prefix_of(s.pending));
}

pub proof fn lemma_on_renew_reply(s: Sim, i: usize)
    requires
        s.ok(),
        i < s.leases.len(),
    ensures
        s.leads_to(s.on_renew_reply(i), 0),
{
    reveal(Sim::on_renew_reply);
    lemma_parties(s, i as int);
    let l = s.leases[i as int];
    let d = s.local(l.id.grantor);
    let g = GrantorState {
        grant_expiry: min_of(
            l.grantor.grant_expiry as int,
            d + s.params().confirmed_len(),
        ) as Time,
        last_reply: d as Time,
        awaiting_reply: false,
        ..l.grantor
    };
    lemma_with_grantor(s, i as int, g);
    assert(s.pending.is_prefix_of(s.pending));
}

pub proof fn lemma_on_revoke(s: Sim, i: usize)
    requires
        s.ok(),
        i < s.leases.len(),
    ensures
        s.leads_to(s.on_revoke(i), 1),
{
    reveal(Sim::on_revoke);
    lemma_parties(s, i as int);
    let l = s.leases[i as int];
    let g = GranteeState {
        status: LeaseStatus::Expired,
        hold_expiry: s.local(l.id.grantee) as Time,
        ..l.grantee
    };
    lemma_with_grantee(s, i as int, g);
    let ev = EventKind::GranteeLease { lease: l.id, status: LeaseStatus::Expired };
    let s1 = s.with_grantee(i as int, g);
    lemma_emit(s1, ev);
    lemma_leads_to_trans(s, s1, s1.emit(ev), 0, 0);
    assert(s.pending.is_prefix_of(s.pending));
    let s2 = if l.holding() {
        s1.emit(ev)
    } else {
        s
    };
    lemma_reply(s2, l.id.grantee, l.id.grantor, MsgKind::RevokeReply, i);
    lemma_leads_to_trans(s, s2, s.on_revoke(i), 0, 1);
}

pub proof fn lemma_on_revoke_reply(s: Sim, i: usize)
    requires
        s.ok(),
        i < s.leases.len(),
    ensures
        s.leads_to(s.on_revoke_reply(i), 0),
{
    reveal(Sim::on_revoke_reply);
    let l = s.leases[i as int];
    let g = GrantorState { status: LeaseStatus::Expired, intended: false, ..l.grantor };
    lemma_with_grantor(s, i as int, g);
    let ev = EventKind::GrantorLease { lease: l.id, status: LeaseStatus::Expired };
    lemma_emit(s.with_grantor(i as int, g), ev);
    lemma_leads_to_trans(
        s,
        s.with_grantor(i as int, g),
        s.with_grantor(i as int, g).emit(ev),
        0,
        0,
    );
    assert(s.pending.is_prefix_of(s.pending));
}

pub proof fn lemma_begin_write(s: Sim, leader: NodeId)
    requires
        s.ok(),
        leader < s.nodes.len(),
        s.nodes.len() <= usize::MAX,
    ensures
        s.leads_to(s.begin_write(leader), 0),
{
    reveal(Sim::begin_write);
    let id = s.next_write_id;
    let opened = Sim {
        next_write_id: id.wrapping_add(1),
        rounds: s.rounds.push(Round { id, started: s.now, replied: Set::empty() }),
        ..s
    };
    assert(s.pending.is_prefix_of(s.pending));
    assert(s.leads_to(opened, 0));
    lemma_suspend_reads(opened, leader);
    lemma_leads_to_trans(s, opened, opened.suspend_reads(leader), 0, 0);
    let s1 = if s.cfg.write_disruptive {
        opened.suspend_reads(leader)
    } else {
        opened
    };
    let ev = EventKind::WriteStarted { leader };
    lemma_emit(s1, ev);
    lemma_leads_to_trans(s, s1, s1.emit(ev), 0, 0);
    lemma_broadcast(s1.emit(ev), leader, MsgKind::Write, id, s.nodes.len() as int);
    lemma_leads_to_trans(s, s1.emit(ev), s.begin_write(leader), 0, 0);
}

pub proof fn lemma_serve_write(s: Sim)
    requires
        s.ok(),
        s.nodes.len() <= usize::MAX,
    ensures
        s.leads_to(s.serve_write(), 0),
{
    lemma_leader(s);
    assert(s.pending.is_prefix_of(s.pending));
    if let Some(leader) = s.leader() {
        lemma_begin_write(s, leader);
    }
}

/// The spacing of write ticks.
pub proof fn lemma_jittered(s: Sim, iv: int)
    requires
        within_limit(iv),
    ensures
        1 <= s.jittered(iv) <= 2 * LIMIT,
        within_limit(crate::sim::jitter_span(iv)),
        crate::sim::jitter_span(iv) >= 1,
{
    crate::rng::law_range_within_bounds(
        s.rng,
        -crate::sim::jitter_span(iv),
        crate::sim::jitter_span(iv),
    );
}

pub proof fn lemma_write_tick(s: Sim)
    requires
        s.ok(),
        s.nodes.len() <= usize::MAX,
    ensures
        s.leads_to(s.write_tick(), 0),
{
    reveal(Sim::write_tick);
    assert(s.pending.is_prefix_of(s.pending));
    if let Some(iv) = s.cfg.write_interval {
        lemma_jittered(s, iv as int);
        let s1 = s.after_jitter(iv as int);
        lemma_draw(s, s1.rng);
        let next = s.now + s.jittered(iv as int);
        lemma_schedule(s1, next, Scheduled::WriteTick);
        lemma_leads_to_trans(s, s1, s1.schedule(next, Scheduled::WriteTick), 0, 0);
        let s2 = if next <= s.cfg.duration {
            s1.schedule(next, Scheduled::WriteTick)
        } else {
            s1
        };
        lemma_serve_write(s2);
        lemma_leads_to_trans(s, s2, s2.serve_write(), 0, 0);
    } else {
        lemma_serve_write(s);
    }
}

pub proof fn lemma_on_write(s: Sim, from: NodeId, to: NodeId, write_id: usize)
    requires
        s.ok(),
        from < s.nodes.len(),
        to < s.nodes.len(),
    ensures
        s.leads_to(s.on_write(from, to, write_id), 1),
{
    reveal(Sim::on_write);
    lemma_suspend_reads(s, to);
    assert(s.pending.is_prefix_of(s.pending));
    let s1 = if s.cfg.write_disruptive {
        s.suspend_reads(to)
    } else {
        s
    };
    lemma_reply(s1, to, from, MsgKind::WriteReply, write_id);
    lemma_leads_to_trans(s, s1, s.on_write(from, to, write_id), 0, 1);
}

pub proof fn lemma_try_commit(s: Sim, write_id: usize)
    requires
        s.ok(),
        s.nodes.len() <= usize::MAX,
        s.leases.len() <= usize::MAX,
    ensures
        s.leads_to(s.try_commit(write_id), 0),
{
    reveal(Sim::try_commit);
    lemma_leader(s);
    assert(s.pending.is_prefix_of(s.pending));
    if let Some(leader) = s.leader() {
        let ev = EventKind::WriteCommitted { leader };
        lemma_emit(s, ev);
        let s1 = s.emit(ev);
        let sent = s1.broadcast(leader, MsgKind::Commit, write_id, s.nodes.len() as int);
        lemma_broadcast(s1, leader, MsgKind::Commit, write_id, s.nodes.len() as int);
        lemma_leads_to_trans(s, s1, sent, 0, 0);
        lemma_thaw_and_reguard(sent, leader);
        lemma_leads_to_trans(s, sent, sent.thaw_and_reguard(leader), 0, 0);
        let s2 = if s.cfg.write_disruptive {
            sent.thaw_and_reguard(leader)
        } else {
            sent
        };
        let keep = |r: Round| r.id != write_id;
        lemma_rounds_filter(s2, keep);
        lemma_leads_to_trans(s, s2, (Sim { rounds: s2.rounds.filter(keep), ..s2 }), 0, 0);
    }
}

pub proof fn lemma_on_write_reply(s: Sim, from: NodeId, write_id: usize)
    requires
        s.ok(),
        s.nodes.len() <= usize::MAX,
        s.leases.len() <= usize::MAX,
    ensures
        s.leads_to(s.on_write_reply(from, write_id), 0),
{
    reveal(Sim::on_write_reply);
    assert(s.pending.is_prefix_of(s.pending));
    let p = round_position(s.rounds, write_id, 0);
    lemma_round_position(s.rounds, write_id, 0);
    if p < s.rounds.len() {
        let r = s.rounds[p];
        let s1 = Sim {
            rounds: s.rounds.update(p, Round { replied: r.replied.insert(from), ..r }),
            ..s
        };
        assert(rounds_ok(s1.now, s1.rounds));
        assert(s.leads_to(s1, 0));
        lemma_try_commit(s1, write_id);
        lemma_leads_to_trans(s, s1, s1.try_commit(write_id), 0, 0);
    }
}

pub proof fn lemma_receive(s: Sim, from: NodeId, to: NodeId, kind: MsgKind, tag: usize)
    requires
        s.ok(),
        message_ok(s.cfg, from, to, kind, tag),
        s.nodes.len() <= usize::MAX,
        s.leases.len() <= usize::MAX,
    ensures
        s.leads_to(s.receive(from, to, kind, tag), 1),
{
    match kind {
        MsgKind::Guard => lemma_on_guard(s, tag),
        MsgKind::GuardReply => lemma_on_guard_reply(s, tag),
        MsgKind::Renew => lemma_on_renew(s, tag),
        MsgKind::RenewReply => lemma_on_renew_reply(s, tag),
        MsgKind::Revoke => lemma_on_revoke(s, tag),
        MsgKind::RevokeReply => lemma_on_revoke_reply(s, tag),
        MsgKind::Write => lemma_on_write(s, from, to, tag),
        MsgKind::WriteReply => lemma_on_write_reply(s, from, tag),
        MsgKind::Commit => lemma_thaw_and_reguard(s, to),
    }
    assert(s.pending.is_prefix_of(s.pending));
}

pub proof fn lemma_arrive(
    s: Sim,
    from: NodeId,
    to: NodeId,
    kind: MsgKind,
    tag: usize,
    fate: MsgFate,
)
    requires
        s.ok(),
        message_ok(s.cfg, from, to, kind, tag),
        s.nodes.len() <= usize::MAX,
        s.leases.len() <= usize::MAX,
    ensures
        s.leads_to(s.arrive(from, to, kind, tag, fate), 1),
{
    reveal(Sim::arrive);
    lemma_emit(s, EventKind::MessageDropped { from, to, kind });
    let ev = EventKind::MessageDelivered { from, to, kind };
    lemma_emit(s, ev);
    lemma_receive(s.emit(ev), from, to, kind, tag);
    lemma_leads_to_trans(s, s.emit(ev), s.emit(ev).receive(from, to, kind, tag), 0, 1);
}

pub proof fn lemma_apply(s: Sim, cmd: Command)
    requires
        s.ok(),
        command_valid(cmd, s.nodes.len()),
        s.nodes.len() <= usize::MAX,
        s.leases.len() <= usize::MAX,
    ensures
        s.leads_to(s.apply(cmd), 0),
{
    reveal(Sim::apply);
    assert(s.pending.is_prefix_of(s.pending));
    match cmd {
        Command::Initiate(id) => {
            lemma_lease_position(s.leases, id, 0);
            if s.declared(id) {
                lemma_begin_guard(s, s.lease_index(id) as usize);
            }
        },
        Command::Revoke(id) => {
            lemma_lease_position(s.leases, id, 0);
            if s.declared(id) {
                lemma_begin_revoke(s, s.lease_index(id) as usize);
            }
        },
        Command::FailNode(node) => lemma_fail_node(s, node),
        Command::RecoverNode(node) => lemma_recover_node(s, node),
        Command::Write => lemma_serve_write(s),
    }
}

/// Taking the first entry off the timeline, when it is not past the end of the
/// run.
pub proof fn lemma_popped(s: Sim)
    requires
        s.ok(),
        s.queue.len() > 0,
        s.queue[0].at <= s.cfg.duration,
    ensures
        s.popped().ok(),
        item_ok(s.cfg, s.queue[0].item),
        s.popped().now >= s.now,
        due(s.popped().queue, s.popped().now as int) + weight(s.queue[0].item) == due(
            s.queue,
            s.queue[0].at as int,
        ),
{
    let q = s.queue.drop_first();
    assert forall|i: int| 0 <= i < q.len() implies (#[trigger] q[i]).at >= s.queue[0].at && item_ok(
        s.cfg,
        q[i].item,
    ) by {
        assert(q[i] == s.queue[i + 1]);
    }
    assert(in_time_order(q)) by {
        assert forall|i: int, j: int| 0 <= i <= j < q.len() implies q[i].at <= q[j].at by {
            assert(s.queue[i + 1].at <= s.queue[j + 1].at);
        }
    }
    lemma_due_drop_first(s.queue, s.queue[0].at as int);
}

/// An item that takes effect keeps the invariant, and less is due in its tick
/// than before.
pub proof fn lemma_handle(s: Sim, item: Scheduled)
    requires
        s.ok(),
        item_ok(s.cfg, item),
        s.nodes.len() <= usize::MAX,
        s.leases.len() <= usize::MAX,
    ensures
        s.leads_to(s.handle(item), (weight(item) - 1) as nat),
{
    match item {
        Scheduled::Poll { node } => lemma_poll(s, node),
        Scheduled::Send { from, to, kind, tag } => {
            lemma_send(s, from, to, kind, tag);
            assert(s.pending.is_prefix_of(s.pending));
        },
        Scheduled::Arrival { from, to, kind, tag, fate } => lemma_arrive(
            s,
            from,
            to,
            kind,
            tag,
            fate,
        ),
        Scheduled::Command(cmd) => lemma_apply(s, cmd),
        Scheduled::WriteTick => lemma_write_tick(s),
    }
}

/// One step keeps the invariant, time does not run backwards, and a step within
/// the current tick leaves less due in it.
pub proof fn lemma_step(s: Sim)
    requires
        s.ok(),
        s.queue.len() > 0,
        s.queue[0].at <= s.cfg.duration,
        s.nodes.len() <= usize::MAX,
        s.leases.len() <= usize::MAX,
    ensures
        s.step().ok(),
        s.step().cfg == s.cfg,
        s.step().normal == s.normal,
        s.step().now == s.queue[0].at,
        s.now <= s.step().now,
        due(s.step().queue, s.step().now as int) < due(s.queue, s.queue[0].at as int),
        s.pending.is_prefix_of(s.step().pending),
        forall|i: int|
            s.pending.len() <= i < s.step().pending.len() ==> (#[trigger] s.step().pending[i]).at
                == s.step().now,
{
    lemma_popped(s);
    lemma_handle(s.popped(), s.queue[0].item);
}

} // verus!
