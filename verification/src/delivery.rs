//! Messages on their way: how long they take, and which are lost.

use crate::clock::Time;
use crate::commits::{happens, sends};
use crate::dist::{is_rng_after, is_sample, law_drawn_is_the_sample, Dist};
use crate::event::{Event, EventKind, MsgFate, MsgKind, NodeId};
use crate::moves::{lemma_enqueue_keeps, lemma_send_live};
use crate::prob::{law_losses_combine, law_single_loss_is_exact, Prob};
use crate::rng::RngState;
use crate::rounding::UNIT;
use crate::scenario::{Config, LinkConfig};
use crate::sim::{max_of, Sim};
use crate::timeline::{Scheduled, Timed};
use crate::upkeep::{lemma_arrival, lemma_emit, lemma_popped, lemma_send, message_ok};
use vstd::prelude::*;

verus! {

/// A node that acts on the next thing to happen replies at `at`: after a delay that its
/// response delay and the generator stand for.
pub open spec fn answers_after(s: Sim, node: NodeId, at: Time) -> bool {
    is_sample(
        s.cfg.nodes[node as int].response_delay,
        s.rng,
        s.normal,
        at - s.queue[0].at,
    )
}

/// When a deferred reply is due.
pub proof fn lemma_reply_scheduled(s: Sim, from: NodeId, to: NodeId, kind: MsgKind, tag: usize)
    requires
        s.ok(),
        kind.is_reply(),
        message_ok(s.cfg, from, to, kind, tag),
    ensures
        exists|at: Time|
            is_sample(
                s.cfg.nodes[from as int].response_delay,
                s.rng,
                s.normal,
                at - s.now,
            ) && #[trigger] s.reply_after_delay(
                from,
                to,
                kind,
                tag,
            ).queue.contains(Timed { at, item: Scheduled::Send { from, to, kind, tag } }),
        is_rng_after(
            s.cfg.nodes[from as int].response_delay,
            s.rng,
            s.reply_after_delay(from, to, kind, tag).rng,
        ),
{
    reveal(Sim::reply_after_delay);
    let think = s.cfg.nodes[from as int].response_delay;
    crate::upkeep::lemma_delay(think, s.rng, s.normal);
    law_drawn_is_the_sample(think, s.rng, s.normal);
    let at = (s.now + think.drawn(s.rng, s.normal)) as Time;
    let e = Timed { at, item: Scheduled::Send { from, to, kind, tag } };
    lemma_enqueue_keeps(s.queue, e);
    assert(s.reply_after_delay(from, to, kind, tag).queue.contains(e));
}

// ---- Links -----------------------------------------------------------------

/// A link is as it was declared (first), and otherwise the default one: reliable, with
/// a delay of 120 to 280 ticks.
pub proof fn law_link_is_as_declared(cfg: Config, from: NodeId, to: NodeId, p: int)
    requires
        0 <= p <= cfg.links.len(),
        forall|q: int|
            0 <= q < p ==> (#[trigger] cfg.links[q]).from != from || cfg.links[q].to != to,
        p < cfg.links.len() ==> cfg.links[p].from == from && cfg.links[p].to == to,
    ensures
        p < cfg.links.len() ==> cfg.link(from, to) == cfg.links[p],
        p == cfg.links.len() ==> cfg.link(from, to) == (LinkConfig {
            from,
            to,
            delay: Dist::Uniform { lo: 120, hi: 280 },
            drop_chance: Prob { num: 0 },
            partitioned: false,
        }),
{
    lemma_link_position_is(cfg.links, from, to, 0, p);
}

proof fn lemma_link_position_is(
    links: Seq<LinkConfig>,
    from: NodeId,
    to: NodeId,
    k: int,
    p: int,
)
    requires
        0 <= k <= p <= links.len(),
        forall|q: int| k <= q < p ==> (#[trigger] links[q]).from != from || links[q].to != to,
        p < links.len() ==> links[p].from == from && links[p].to == to,
    ensures
        crate::scenario::link_position(links, from, to, k) == p,
    decreases p - k,
{
    if k < p {
        assert(links[k].from != from || links[k].to != to);
        lemma_link_position_is(links, from, to, k + 1, p);
    }
}

/// The probability, over `2^53`, with which a message is lost to its link alone.
pub open spec fn link_share(cfg: Config, from: NodeId, to: NodeId) -> int {
    let num = cfg.link(from, to).drop_chance.num;
    if num <= UNIT {
        num as int
    } else {
        UNIT as int
    }
}

/// The probability, over `2^53`, with which a message sent at `at` is lost for its kind
/// alone: none before the time from which its kind is lost at all.
pub open spec fn kind_share(cfg: Config, kind: MsgKind, at: Time) -> int {
    let num = cfg.kind_drop[kind.ordinal()].num;
    if at < cfg.kind_drop_from[kind.ordinal()] {
        0
    } else if num <= UNIT {
        num as int
    } else {
        UNIT as int
    }
}

/// `n` of the `2^53` draws are the share `1 - (1 - a)(1 - b)`, to within one draw; exactly
/// so if there is only one cause.
pub open spec fn combines(n: int, a: int, b: int) -> bool {
    let exact = UNIT * UNIT - (UNIT - a) * (UNIT - b);
    &&& exact - UNIT <= n * UNIT <= exact + UNIT
    &&& b == 0 ==> n == a
    &&& a == 0 ==> n == b
}

/// The share of draws that lose a message.
proof fn lemma_loss_combines(s: Sim, from: NodeId, to: NodeId, kind: MsgKind)
    requires
        s.ok(),
    ensures
        combines(
            s.loss(from, to, kind).num as int,
            link_share(s.cfg, from, to),
            kind_share(s.cfg, kind, s.now),
        ),
{
    let (a, b) = (s.cfg.link(from, to).drop_chance, s.cfg.kind_loss(kind, s.now as int));
    let (x, y) = (a.clamped(), b.clamped());
    assert(x.miss() == a.miss() && y.miss() == b.miss());
    law_losses_combine(x, y);
    if y.num == 0 {
        law_single_loss_is_exact(x, y);
    }
    if x.num == 0 {
        law_single_loss_is_exact(y, x);
    }
    let n = a.either_spec(b);
    assert(n == x.either_spec(y));
    let (c, d) = (link_share(s.cfg, from, to), kind_share(s.cfg, kind, s.now));
    assert(c == x.num && d == y.num);
    assert((UNIT - c) * (UNIT - d) >= 0) by (nonlinear_arith)
        requires
            0 <= c <= UNIT,
            0 <= d <= UNIT,
    ;
    assert(n <= UNIT + 1) by (nonlinear_arith)
        requires
            n * UNIT <= UNIT * UNIT + UNIT,
    ;
    assert(n as u64 == n);
}

/// What becomes of a message is settled, and reported, the moment it is sent. On a
/// partitioned link it is lost. On any other, it is lost exactly if the draw is among the
/// share of draws that the loss of the link and the loss of the kind make together. It
/// arrives after a delay that the link's distribution and the generator stand for, at
/// least a tick; the arrival is on the timeline. No value of the generator is used twice.
pub proof fn law_message_is_lost_or_arrives(
    s: Sim,
    from: NodeId,
    to: NodeId,
    kind: MsgKind,
    tag: usize,
)
    requires
        s.ok(),
        message_ok(s.cfg, from, to, kind, tag),
    ensures
        ({
            let b = s.send(from, to, kind, tag);
            let link = s.cfg.link(from, to);
            exists|arrival: Time, fate: MsgFate|
                {
                    &&& b.pending == #[trigger] s.pending.push(
                        Event {
                            at: s.now,
                            kind: EventKind::MessageSent {
                                from,
                                to,
                                kind,
                                sent: s.now,
                                arrival,
                                fate,
                            },
                        },
                    )
                    &&& link.partitioned ==> fate == MsgFate::Dropped
                    &&& !link.partitioned ==> exists|n: int| #[trigger]
                        combines(n, link_share(s.cfg, from, to), kind_share(s.cfg, kind, s.now))
                            && (fate == MsgFate::Dropped <==> s.rng.unit() < n)
                    &&& link.partitioned ==> takes(s, s.rng, link.delay, arrival)
                    &&& !link.partitioned ==> takes(s, s.rng.next(), link.delay, arrival)
                    &&& link.partitioned ==> is_rng_after(link.delay, s.rng, b.rng)
                    &&& !link.partitioned ==> is_rng_after(link.delay, s.rng.next(), b.rng)
                    &&& b.queue.contains(
                        Timed {
                            at: arrival,
                            item: Scheduled::Arrival { from, to, kind, tag, fate },
                        },
                    )
                }
        }),
{
    reveal(Sim::send);
    lemma_arrival(s, from, to);
    lemma_loss_combines(s, from, to, kind);
    let link = s.cfg.link(from, to);
    let arrival = s.arrival_of(from, to) as Time;
    let fate = s.fate_of(from, to, kind);
    let b = s.send(from, to, kind, tag);
    let rng = s.rng_after_loss(from, to);
    law_drawn_is_the_sample(link.delay, rng, s.normal);
    let d = link.delay.drawn(rng, s.normal) as int;
    assert(is_sample(link.delay, rng, s.normal, d));
    assert(takes(s, rng, link.delay, arrival));
    let e = Timed { at: arrival, item: Scheduled::Arrival { from, to, kind, tag, fate } };
    lemma_enqueue_keeps(s.queue, e);
    let sent = Event {
        at: s.now,
        kind: EventKind::MessageSent { from, to, kind, sent: s.now, arrival, fate },
    };
    assert(b.pending == s.pending.push(sent));
    let n = s.loss(from, to, kind).num as int;
    assert(combines(n, link_share(s.cfg, from, to), kind_share(s.cfg, kind, s.now)));
}

/// A message that is sent now arrives at `arrival`: after the sample of its delay that the
/// generator stands for in state `rng`, and at least a tick.
pub open spec fn takes(s: Sim, rng: RngState, delay: Dist, arrival: Time) -> bool {
    exists|d: int| #[trigger]
        is_sample(delay, rng, s.normal, d) && arrival == s.now + if d >= 1 {
            d
        } else {
            1
        }
}

/// The arrivals that the delay allows: exactly one after a fixed delay, within the bounds
/// of a uniform one.
pub proof fn law_delays_are_kept(s: Sim, rng: RngState, delay: Dist, arrival: Time)
    requires
        takes(s, rng, delay, arrival),
    ensures
        delay matches Dist::Fixed(v) ==> arrival == s.now + max_of(v as int, 1),
        delay matches Dist::Uniform { lo, hi } ==> (lo <= hi ==> s.now + max_of(lo as int, 1)
            <= arrival <= s.now + max_of(hi as int, 1)),
        arrival > s.now,
{
}

// ---- What is sent and what arrives -----------------------------------------

/// A reply that is due goes out if its sender is up, and is never sent if it is down;
/// nothing else happens.
pub proof fn law_due_reply_goes_out(s: Sim, from: NodeId, to: NodeId, kind: MsgKind, tag: usize)
    requires
        happens(s, Scheduled::Send { from, to, kind, tag }),
    ensures
        ({
            let b = s.step();
            &&& b.leases == s.leases
            &&& b.nodes == s.nodes
            &&& b.rounds == s.rounds
            &&& s.nodes[from as int].up ==> b.pending.len() == s.pending.len() + 1 && sends(
                b.pending.last(),
                from,
                to,
                kind,
            ) && b.pending.last().at == s.queue[0].at
            &&& !s.nodes[from as int].up ==> b.pending == s.pending && b.in_flight == s.in_flight
        }),
{
    lemma_popped(s);
    let a = s.popped();
    lemma_send(a, from, to, kind, tag);
    lemma_send_live(a, from, to, kind, tag);
}

/// A message ends as it was fated to: a lost one is reported lost when it would have
/// arrived, and that is all; one that arrives is reported delivered; and a node that is
/// down does not act on it.
pub proof fn law_arrival_is_reported(
    s: Sim,
    from: NodeId,
    to: NodeId,
    kind: MsgKind,
    tag: usize,
    fate: MsgFate,
)
    requires
        happens(s, Scheduled::Arrival { from, to, kind, tag, fate }),
    ensures
        ({
            let b = s.step();
            let (n, at) = (s.pending.len() as int, s.queue[0].at);
            &&& n < b.pending.len()
            &&& fate == MsgFate::Dropped ==> b.pending[n] == (Event {
                at,
                kind: EventKind::MessageDropped { from, to, kind },
            })
            &&& fate == MsgFate::Delivered ==> b.pending[n] == (Event {
                at,
                kind: EventKind::MessageDelivered { from, to, kind },
            })
            &&& fate == MsgFate::Dropped || !s.nodes[to as int].up ==> b.leases == s.leases
                && b.nodes == s.nodes && b.rounds == s.rounds && b.in_flight == s.in_flight
                && b.pending.len() == n + 1 && b.queue == s.queue.drop_first()
        }),
{
    lemma_popped(s);
    let a = s.popped();
    reveal(Sim::arrive);
    if fate == MsgFate::Delivered {
        let ev = EventKind::MessageDelivered { from, to, kind };
        lemma_emit(a, ev);
        let q = a.emit(ev);
        crate::upkeep::lemma_receive(q, from, to, kind, tag);
        if a.nodes[to as int].up {
            let b = s.step();
            assert(b.pending[s.pending.len() as int] == q.pending[s.pending.len() as int]);
        }
    }
}

} // verus!
