//! Renderable frames, interpolated from engine state at a given time.
//!
//! The engine produces discrete events; the frame layer turns the state at an
//! arbitrary global time into drawable primitives (nodes, in-flight messages,
//! lease-timer bars). Fractions are exact; where a primitive goes on a canvas is
//! up to whoever draws it.

use crate::clock::{law_reading_monotone, Time};
use crate::event::{LeaseStatus, MsgFate, MsgKind, NodeId};

use crate::sim::{max_of, min_of, InFlight, LeaseState, NodeState, Sim};
use crate::upkeep::{lemma_filter_from, within};
use vstd::prelude::*;

verus! {

/// A number in `[0, 1]`: `num / den`.
#[derive(Debug, Clone, Copy, PartialEq, Eq, Structural)]
pub struct Fraction {
    pub num: Time,
    pub den: Time,
}

impl Fraction {
    /// The fraction lies in `[0, 1]`.
    pub open spec fn wf(self) -> bool {
        0 <= self.num <= self.den && 1 <= self.den
    }

    /// Nothing left.
    pub open spec fn is_empty(self) -> bool {
        self.num == 0
    }

    /// All of it left.
    pub open spec fn is_full(self) -> bool {
        self.num == self.den
    }

    /// `self <= other`.
    pub open spec fn at_most(self, other: Fraction) -> bool {
        self.num * other.den <= other.num * self.den
    }
}

/// `part / whole`, cut to `[0, 1]`; zero if there is no whole.
pub open spec fn share(part: int, whole: int) -> Fraction {
    if whole <= 0 {
        Fraction { num: 0, den: 1 }
    } else {
        Fraction { num: max_of(min_of(part, whole), 0) as Time, den: whole as Time }
    }
}

/// Computes [`share`].
pub fn share_of(part: Time, whole: Time) -> (r: Fraction)
    ensures
        r == share(part as int, whole as int),
        r.wf(),
{
    if whole <= 0 {
        return Fraction { num: 0, den: 1 };
    }
    if part < 0 {
        Fraction { num: 0, den: whole }
    } else if part > whole {
        Fraction { num: whole, den: whole }
    } else {
        Fraction { num: part, den: whole }
    }
}

/// Visual liveness of a node.
#[derive(Debug, Clone, Copy, PartialEq, Eq, Structural)]
pub enum NodeViz {
    Up,
    Down,
}

/// A node disk to draw.
#[derive(Debug, Clone, Copy, PartialEq, Eq, Structural)]
pub struct NodeShape {
    pub id: NodeId,
    pub viz: NodeViz,
}

/// A message in flight, with `progress` in `[0, 1]` from sender to receiver.
#[derive(Debug, Clone, Copy, PartialEq, Eq, Structural)]
pub struct MsgShape {
    pub from: NodeId,
    pub to: NodeId,
    pub kind: MsgKind,
    /// Eventual fate; lets the frontend foreshadow a drop (e.g. fade out).
    pub fate: MsgFate,
    pub progress: Fraction,
}

/// A lease-timer bar: a fill in `[0, 1]` is the fraction of life remaining.
#[derive(Debug, Clone, Copy, PartialEq, Eq, Structural)]
pub struct LeaseBar {
    pub grantor: NodeId,
    pub grantee: NodeId,
    /// Status from the grantor's viewpoint.
    pub grantor_status: LeaseStatus,
    /// Status from the grantee's viewpoint.
    pub grantee_status: LeaseStatus,
    /// Remaining fraction from the grantor's viewpoint.
    pub grantor_fill: Fraction,
    /// Remaining fraction from the grantee's viewpoint.
    pub grantee_fill: Fraction,
}

/// Everything needed to paint one frame at a given global time.
#[derive(Debug, Clone, PartialEq)]
pub struct Frame {
    pub at: Time,
    pub nodes: Vec<NodeShape>,
    pub messages: Vec<MsgShape>,
    pub leases: Vec<LeaseBar>,
}

/// What a [`Frame`] shows.
#[verifier::ext_equal]
pub struct Picture {
    pub at: int,
    pub nodes: Seq<NodeShape>,
    pub messages: Seq<MsgShape>,
    pub leases: Seq<LeaseBar>,
}

impl View for Frame {
    type V = Picture;

    open spec fn view(&self) -> Picture {
        Picture {
            at: self.at as int,
            nodes: self.nodes@,
            messages: self.messages@,
            leases: self.leases@,
        }
    }
}

/// The node disk of a node.
pub open spec fn node_shape(id: NodeId, n: NodeState) -> NodeShape {
    NodeShape {
        id,
        viz: if n.up {
            NodeViz::Up
        } else {
            NodeViz::Down
        },
    }
}

/// Whether a message is under way at time `t`.
pub open spec fn under_way(m: InFlight, t: int) -> bool {
    m.sent <= t && m.arrival > t
}

/// The dot of a message in flight.
pub open spec fn msg_shape(m: InFlight, t: int) -> MsgShape {
    MsgShape {
        from: m.from,
        to: m.to,
        kind: m.kind,
        fate: m.fate,
        progress: share(t - m.sent, max_of(m.arrival - m.sent, 1)),
    }
}

impl Sim {
    /// The reading of a node's clock at time `t`.
    pub open spec fn local_at(self, node: NodeId, t: int) -> int {
        self.cfg.nodes[node as int].clock.reading(t)
    }

    /// Every clock can be read at time `t` (at any time of the run, it can).
    pub open spec fn readable(self, t: int) -> bool {
        0 <= t <= self.cfg.duration || forall|node: NodeId|
            node < self.cfg.nodes.len() ==> within(#[trigger] self.local_at(node, t), 16)
    }

    /// Fraction of a countdown remaining for one party at global time `t`.
    /// `expiry` is the party-local tick the countdown reaches empty at (its real
    /// expiry — no separate display timer), and `span` the full length it drains
    /// over: the span that expiry is (re)armed a whole away from, so the bar
    /// fills to 1 at arm and drains cleanly.
    pub open spec fn fill(self, node: NodeId, expiry: int, span: int, t: int) -> Fraction {
        share(expiry - self.local_at(node, t), span)
    }

    /// The grantor's countdown. While `Active` it reads `D'`, normalized by the
    /// full grant span that `D'` is provisioned over; while `Guarding` it runs
    /// from the guard's opening over the guard window — exactly when the grantor
    /// gives up an unanswered guard, so that bar empties as the grantor falls
    /// idle. Any other status has no live countdown.
    pub open spec fn grantor_fill(self, l: LeaseState, t: int) -> Fraction {
        match l.grantor.status {
            LeaseStatus::Active => self.fill(
                l.id.grantor,
                l.grantor.grant_expiry as int,
                self.params().grant_len(),
                t,
            ),
            LeaseStatus::Guarding => self.fill(
                l.id.grantor,
                l.grantor.guard_since + self.params().guard_len(),
                self.params().guard_len(),
                t,
            ),
            _ => Fraction { num: 0, den: 1 },
        }
    }

    /// The grantee's countdown. While `Active` it reads `C'`, normalized by the
    /// `t_lease - t_delta` that `C'` lies from a renew's receipt; while `Guarding` it reads its acceptance window `A'`. Any
    /// other status has no live countdown.
    pub open spec fn grantee_fill(self, l: LeaseState, t: int) -> Fraction {
        match l.grantee.status {
            LeaseStatus::Active => self.fill(
                l.id.grantee,
                l.grantee.hold_expiry as int,
                self.params().hold_len(),
                t,
            ),
            LeaseStatus::Guarding => self.fill(
                l.id.grantee,
                l.grantee.guard_deadline as int,
                self.params().guard_len(),
                t,
            ),
            _ => Fraction { num: 0, den: 1 },
        }
    }

    /// The timer bar of a lease.
    pub open spec fn lease_bar(self, l: LeaseState, t: int) -> LeaseBar {
        LeaseBar {
            grantor: l.id.grantor,
            grantee: l.id.grantee,
            grantor_status: l.grantor.status,
            grantee_status: l.grantee.status,
            grantor_fill: self.grantor_fill(l, t),
            grantee_fill: self.grantee_fill(l, t),
        }
    }

    /// The node disks.
    pub open spec fn node_shapes(self) -> Seq<NodeShape> {
        Seq::new(self.nodes.len(), |i: int| node_shape(i as usize, self.nodes[i]))
    }

    /// The messages under way at time `t`.
    pub open spec fn msg_shapes(self, t: int) -> Seq<MsgShape> {
        self.in_flight.filter(|m: InFlight| under_way(m, t)).map_values(
            |m: InFlight| msg_shape(m, t),
        )
    }

    /// The timer bar of each lease at time `t`.
    pub open spec fn lease_bars(self, t: int) -> Seq<LeaseBar> {
        self.leases.map_values(|l: LeaseState| self.lease_bar(l, t))
    }

    /// All that is to be seen at time `t`.
    pub open spec fn picture(self, t: int) -> Picture {
        Picture {
            at: t,
            nodes: self.node_shapes(),
            messages: self.msg_shapes(t),
            leases: self.lease_bars(t),
        }
    }
}

/// Every fraction in a frame lies in `[0, 1]`.
pub proof fn law_frame_fractions_in_unit_interval(s: Sim, t: int)
    requires
        s.ok(),
    ensures
        forall|i: int|
            0 <= i < s.lease_bars(t).len() ==> (#[trigger] s.lease_bars(t)[i]).grantor_fill.wf()
                && s.lease_bars(t)[i].grantee_fill.wf(),
        forall|i: int|
            0 <= i < s.msg_shapes(t).len() ==> (#[trigger] s.msg_shapes(t)[i]).progress.wf(),
{
    let shown = |m: InFlight| under_way(m, t);
    assert forall|i: int| 0 <= i < s.msg_shapes(t).len() implies (#[trigger] s.msg_shapes(
        t,
    )[i]).progress.wf() by {
        lemma_filter_from(s.in_flight, shown, i);
        let m = s.in_flight.filter(shown)[i];
        let j = choose|j: int| 0 <= j < s.in_flight.len() && s.in_flight[j] == m;
        assert(s.in_flight[j].sent < s.in_flight[j].arrival);
    }
}

proof fn lemma_share_monotone(part1: int, part2: int, whole: int)
    requires
        part1 <= part2,
        whole <= i64::MAX,
    ensures
        share(part1, whole).at_most(share(part2, whole)),
{
    let (a, b) = (share(part1, whole), share(part2, whole));
    assert(a.num <= b.num && a.den == b.den);
    assert(a.num * b.den <= b.num * a.den) by (nonlinear_arith)
        requires
            a.num <= b.num,
            a.den == b.den,
            a.den >= 1,
    ;
}

/// As long as nothing happens to a lease, its bars only drain (on clocks that do
/// not run backwards).
pub proof fn law_bars_drain(s: Sim, l: LeaseState, t1: int, t2: int)
    requires
        s.ok(),
        l.id.grantor < s.nodes.len(),
        l.id.grantee < s.nodes.len(),
        s.cfg.nodes[l.id.grantor as int].clock.drift.mantissa >= 0,
        s.cfg.nodes[l.id.grantee as int].clock.drift.mantissa >= 0,
        t1 <= t2,
    ensures
        s.lease_bar(l, t2).grantor_fill.at_most(s.lease_bar(l, t1).grantor_fill),
        s.lease_bar(l, t2).grantee_fill.at_most(s.lease_bar(l, t1).grantee_fill),
{
    law_reading_monotone(s.cfg.nodes[l.id.grantor as int].clock, t1, t2);
    law_reading_monotone(s.cfg.nodes[l.id.grantee as int].clock, t1, t2);
    let p = s.params();
    let (g1, g2) = (s.local_at(l.id.grantor, t1), s.local_at(l.id.grantor, t2));
    let (h1, h2) = (s.local_at(l.id.grantee, t1), s.local_at(l.id.grantee, t2));
    lemma_share_monotone(l.grantor.grant_expiry - g2, l.grantor.grant_expiry - g1, p.grant_len());
    lemma_share_monotone(
        l.grantor.guard_since + p.guard_len() - g2,
        l.grantor.guard_since + p.guard_len() - g1,
        p.guard_len(),
    );
    lemma_share_monotone(l.grantee.hold_expiry - h2, l.grantee.hold_expiry - h1, p.hold_len());
    lemma_share_monotone(
        l.grantee.guard_deadline - h2,
        l.grantee.guard_deadline - h1,
        p.guard_len(),
    );
}

/// An active party's bar is empty exactly when its clock has reached its expiry,
/// and the party is found expired on its first poll past that.
pub proof fn law_bar_empties_at_expiry(s: Sim, l: LeaseState, t: int)
    requires
        s.ok(),
        s.params().grant_len() > 0,
        s.params().hold_len() > 0,
    ensures
        l.grantor.status == LeaseStatus::Active ==> (s.lease_bar(l, t).grantor_fill.is_empty()
            <==> s.local_at(l.id.grantor, t) >= l.grantor.grant_expiry),
        l.grantee.status == LeaseStatus::Active ==> (s.lease_bar(l, t).grantee_fill.is_empty()
            <==> s.local_at(l.id.grantee, t) >= l.grantee.hold_expiry),
{
}

/// A live countdown is full exactly while its party's clock is no nearer to the
/// expiry than when that was armed: at the very moment of arming, and never again
/// as the clock runs on. So no bar is pegged at full.
pub proof fn law_bar_is_full_when_armed(s: Sim, l: LeaseState, t: int)
    requires
        s.ok(),
        s.params().grant_len() > 0,
        s.params().hold_len() > 0,
        s.params().guard_len() > 0,
    ensures
        l.grantor.status == LeaseStatus::Active ==> (s.lease_bar(l, t).grantor_fill.is_full()
            <==> s.local_at(l.id.grantor, t) + s.params().grant_len() <= l.grantor.grant_expiry),
        l.grantor.status == LeaseStatus::Guarding ==> (s.lease_bar(l, t).grantor_fill.is_full()
            <==> s.local_at(l.id.grantor, t) <= l.grantor.guard_since),
        l.grantee.status == LeaseStatus::Active ==> (s.lease_bar(l, t).grantee_fill.is_full()
            <==> s.local_at(l.id.grantee, t) + s.params().hold_len() <= l.grantee.hold_expiry),
        l.grantee.status == LeaseStatus::Guarding ==> (s.lease_bar(l, t).grantee_fill.is_full()
            <==> s.local_at(l.id.grantee, t) + s.params().guard_len() <= l.grantee.guard_deadline),
{
}

/// The fraction shows `left` of `whole`: none of it if nothing is left, all of it if no
/// less is left.
pub open spec fn shows_left(f: Fraction, left: int, whole: int) -> bool {
    &&& f.den == whole
    &&& left <= 0 ==> f.num == 0
    &&& 0 <= left <= whole ==> f.num == left
    &&& left >= whole ==> f.num == whole
}

/// The bars of a frame, lease by lease. An active grantor's shows how much is left, on its
/// clock, of its promise, out of `t_guard + t_lease + 2 t_delta`, and an active grantee's
/// how much of its hold, out of `t_lease - t_delta`; a guarding party's shows how much of
/// the guard window, `t_guard - t_delta`, is left to it. Any other bar is empty.
pub proof fn law_bars_show_what_is_left(s: Sim, t: int, i: int)
    requires
        s.ok(),
        0 <= i < s.leases.len(),
    ensures
        ({
            let bar = s.picture(t).leases[i];
            let (l, p) = (s.leases[i], s.cfg.params);
            let (g, h) = (l.grantor, l.grantee);
            let here = s.cfg.nodes[l.id.grantor as int].clock.reading(t);
            let there = s.cfg.nodes[l.id.grantee as int].clock.reading(t);
            let window = p.t_guard - p.t_delta;
            let promise = p.t_guard + p.t_lease + 2 * p.t_delta;
            let hold = p.t_lease - p.t_delta;
            &&& s.picture(t).at == t
            &&& s.picture(t).leases.len() == s.leases.len()
            &&& bar.grantor == l.id.grantor
            &&& bar.grantee == l.id.grantee
            &&& bar.grantor_status == g.status
            &&& bar.grantee_status == h.status
            &&& g.status == LeaseStatus::Active && promise > 0 ==> shows_left(
                bar.grantor_fill,
                g.grant_expiry - here,
                promise,
            )
            &&& g.status == LeaseStatus::Guarding && window > 0 ==> shows_left(
                bar.grantor_fill,
                g.guard_since + window - here,
                window,
            )
            &&& h.status == LeaseStatus::Active && hold > 0 ==> shows_left(
                bar.grantee_fill,
                h.hold_expiry - there,
                hold,
            )
            &&& h.status == LeaseStatus::Guarding && window > 0 ==> shows_left(
                bar.grantee_fill,
                h.guard_deadline - there,
                window,
            )
            &&& g.status != LeaseStatus::Active && g.status != LeaseStatus::Guarding
                ==> bar.grantor_fill.num == 0
            &&& h.status != LeaseStatus::Active && h.status != LeaseStatus::Guarding
                ==> bar.grantee_fill.num == 0
        }),
{
}

} // verus!
