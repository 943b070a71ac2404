//! The protocol milestones that a walkthrough run stops on.

use crate::event::{Event, EventKind, LeaseStatus, MsgKind, NodeId};
use vstd::prelude::*;

verus! {

/// A recognizable moment of a run: an event that a stop condition counts.
#[derive(Debug, Clone, Copy, PartialEq, Eq, Structural)]
pub enum Milestone {
    /// "The grantor (node 0) received a `RenewReply`" — one steady-state renewal
    /// round-tripping back to the grantor.
    GrantorGotRenewReply,
    /// "The grantee's lease expired". Where the grantee never activates, its only
    /// `Expired` transition is its guard window `A'` lapsing — the *later* of the two
    /// guard timers to expire (the grantor's own guard give-up fires a bit earlier and
    /// emits no `Expired`, since its window is anchored at the earlier `Guard` send),
    /// i.e. the moment both guard timers have expired.
    GranteeLeaseExpired,
    /// "The grantor (node 0) received a `RevokeReply`" — the grantee's
    /// acknowledgement that it dropped the revoked lease, round-tripped back to the
    /// grantor.
    GrantorGotRevokeReply,
    /// "Either party's lease expired" — a grantor *or* grantee `Expired` transition.
    /// Counting to 2 of these lands on the moment *both* sides have expired (they
    /// expire independently at different times).
    EitherLeaseExpired,
    /// "Node 3 sent the grantor a `RenewReply`" — a renewal from the handover's
    /// newly-guarded grantee round-tripping back, i.e. the new lease is established and
    /// steadily holding.
    Node3RenewReply,
    /// "A follower's `Renew` reached the leader (node 0)". Where each of 4 followers
    /// grants to node 0, counting these tallies renew rounds across all grantors — the
    /// `4·k`-th is the last follower's k-th, i.e. every follower has renewed the leader
    /// at least `k` times.
    RenewReachedLeader,
    /// "A `Renew` reached either quorum holder (node 0 or 2)". Where each holder is
    /// granted by the other 4 nodes, counting these across both holders tallies renew
    /// rounds cluster-wide — the 24th (2 holders × 4 grantors × 3 rounds) is when the
    /// *slower* holder crosses its 3rd round, i.e. both holders have exchanged three
    /// renews with everyone.
    RenewReachedHolder,
    /// "A write committed". After the commit thaws the cluster, the torn-down leases
    /// re-establish and resume renewing; a lead-out past this event covers that
    /// recovery window.
    WriteCommitted,
    /// "Any `Renew` was delivered to its grantee". Where every ordered pair holds a
    /// lease, counting these tallies renew rounds mesh-wide — the `L·k`-th (L leases ×
    /// k) is when the last lease crosses its k-th round, i.e. all leases have renewed at
    /// least `k` times.
    AnyRenewDelivered,
}

/// A message of `kind` was delivered to `to`.
pub open spec fn delivered_to(ev: Event, to: NodeId, kind: MsgKind) -> bool {
    ev.kind is MessageDelivered && ev.kind->MessageDelivered_to == to
        && ev.kind->MessageDelivered_kind == kind
}

/// A lease expired from its grantor's viewpoint.
pub open spec fn grantor_expired(ev: Event) -> bool {
    ev.kind is GrantorLease && ev.kind->GrantorLease_status == LeaseStatus::Expired
}

/// A lease expired from its grantee's viewpoint.
pub open spec fn grantee_expired(ev: Event) -> bool {
    ev.kind is GranteeLease && ev.kind->GranteeLease_status == LeaseStatus::Expired
}

impl Milestone {
    /// The event is this milestone.
    pub open spec fn met(self, ev: Event) -> bool {
        match self {
            Milestone::GrantorGotRenewReply => delivered_to(ev, 0, MsgKind::RenewReply),
            Milestone::GranteeLeaseExpired => grantee_expired(ev),
            Milestone::GrantorGotRevokeReply => delivered_to(ev, 0, MsgKind::RevokeReply),
            Milestone::EitherLeaseExpired => grantor_expired(ev) || grantee_expired(ev),
            Milestone::Node3RenewReply => ev.kind == (EventKind::MessageDelivered {
                from: 3,
                to: 0,
                kind: MsgKind::RenewReply,
            }),
            Milestone::RenewReachedLeader => delivered_to(ev, 0, MsgKind::Renew),
            Milestone::RenewReachedHolder => delivered_to(ev, 0, MsgKind::Renew) || delivered_to(
                ev,
                2,
                MsgKind::Renew,
            ),
            Milestone::WriteCommitted => ev.kind is WriteCommitted,
            Milestone::AnyRenewDelivered => exists|to: NodeId| delivered_to(ev, to, MsgKind::Renew),
        }
    }

    /// How many of the events are this milestone.
    pub open spec fn hits(self, events: Seq<Event>) -> nat {
        events.filter(|ev: Event| self.met(ev)).len()
    }

    /// Whether the event is this milestone.
    pub fn is_met_by(self, ev: &Event) -> (r: bool)
        ensures
            r == self.met(*ev),
    {
        match self {
            Milestone::GrantorGotRenewReply => grantor_got_renew_reply(ev),
            Milestone::GranteeLeaseExpired => grantee_lease_expired(ev),
            Milestone::GrantorGotRevokeReply => grantor_got_revoke_reply(ev),
            Milestone::EitherLeaseExpired => either_lease_expired(ev),
            Milestone::Node3RenewReply => node3_renew_reply(ev),
            Milestone::RenewReachedLeader => renew_reached_leader(ev),
            Milestone::RenewReachedHolder => renew_reached_holder(ev),
            Milestone::WriteCommitted => write_committed(ev),
            Milestone::AnyRenewDelivered => any_renew_delivered(ev),
        }
    }

    /// Counts the events that are this milestone.
    pub fn count(self, events: &[Event]) -> (r: usize)
        ensures
            r == self.hits(events@),
    {
        let ghost keep = |ev: Event| self.met(ev);
        let mut count: usize = 0;
        let mut i: usize = 0;
        assert(events@.take(0).filter(keep).len() == 0) by {
            reveal(Seq::filter);
        }
        while i < events.len()
            invariant
                i <= events@.len(),
                count <= i,
                keep == (|ev: Event| self.met(ev)),
                count == events@.take(i as int).filter(keep).len(),
            decreases events@.len() - i,
        {
            proof {
                reveal(Seq::filter);
                assert(events@.take(i + 1).drop_last() =~= events@.take(i as int));
            }
            if self.is_met_by(&events[i]) {
                count = count + 1;
            }
            i = i + 1;
        }
        assert(events@.take(i as int) =~= events@);
        count
    }
}

/// Whether the event is [`Milestone::GrantorGotRenewReply`].
pub fn grantor_got_renew_reply(ev: &Event) -> (r: bool)
    ensures
        r == Milestone::GrantorGotRenewReply.met(*ev),
{
    match ev.kind {
        EventKind::MessageDelivered { to: 0, kind: MsgKind::RenewReply, .. } => true,
        _ => false,
    }
}

/// Whether the event is [`Milestone::GranteeLeaseExpired`].
pub fn grantee_lease_expired(ev: &Event) -> (r: bool)
    ensures
        r == Milestone::GranteeLeaseExpired.met(*ev),
{
    match ev.kind {
        EventKind::GranteeLease { status: LeaseStatus::Expired, .. } => true,
        _ => false,
    }
}

/// Whether the event is [`Milestone::GrantorGotRevokeReply`].
pub fn grantor_got_revoke_reply(ev: &Event) -> (r: bool)
    ensures
        r == Milestone::GrantorGotRevokeReply.met(*ev),
{
    match ev.kind {
        EventKind::MessageDelivered { to: 0, kind: MsgKind::RevokeReply, .. } => true,
        _ => false,
    }
}

/// Whether the event is [`Milestone::EitherLeaseExpired`].
pub fn either_lease_expired(ev: &Event) -> (r: bool)
    ensures
        r == Milestone::EitherLeaseExpired.met(*ev),
{
    match ev.kind {
        EventKind::GrantorLease { status: LeaseStatus::Expired, .. }
        | EventKind::GranteeLease { status: LeaseStatus::Expired, .. } => true,
        _ => false,
    }
}

/// Whether the event is [`Milestone::Node3RenewReply`].
pub fn node3_renew_reply(ev: &Event) -> (r: bool)
    ensures
        r == Milestone::Node3RenewReply.met(*ev),
{
    match ev.kind {
        EventKind::MessageDelivered { from: 3, to: 0, kind: MsgKind::RenewReply } => true,
        _ => false,
    }
}

/// Whether the event is [`Milestone::RenewReachedLeader`].
pub fn renew_reached_leader(ev: &Event) -> (r: bool)
    ensures
        r == Milestone::RenewReachedLeader.met(*ev),
{
    match ev.kind {
        EventKind::MessageDelivered { to: 0, kind: MsgKind::Renew, .. } => true,
        _ => false,
    }
}

/// Whether the event is [`Milestone::RenewReachedHolder`].
pub fn renew_reached_holder(ev: &Event) -> (r: bool)
    ensures
        r == Milestone::RenewReachedHolder.met(*ev),
{
    match ev.kind {
        EventKind::MessageDelivered { to: 0 | 2, kind: MsgKind::Renew, .. } => true,
        _ => false,
    }
}

/// Whether the event is [`Milestone::WriteCommitted`].
pub fn write_committed(ev: &Event) -> (r: bool)
    ensures
        r == Milestone::WriteCommitted.met(*ev),
{
    match ev.kind {
        EventKind::WriteCommitted { .. } => true,
        _ => false,
    }
}

/// Whether the event is [`Milestone::AnyRenewDelivered`].
pub fn any_renew_delivered(ev: &Event) -> (r: bool)
    ensures
        r == Milestone::AnyRenewDelivered.met(*ev),
{
    proof {
        if ev.kind is MessageDelivered && ev.kind->MessageDelivered_kind == MsgKind::Renew {
            assert(delivered_to(*ev, ev.kind->MessageDelivered_to, MsgKind::Renew));
        }
    }
    match ev.kind {
        EventKind::MessageDelivered { kind: MsgKind::Renew, .. } => true,
        _ => false,
    }
}

/// Which events count, by what they report.
pub proof fn law_milestones_are_what_they_say(ev: Event)
    ensures
        ev.kind matches EventKind::MessageDelivered { from, to, kind } ==> {
            &&& Milestone::GrantorGotRenewReply.met(ev) <==> to == 0 && kind == MsgKind::RenewReply
            &&& Milestone::Node3RenewReply.met(ev) <==> from == 3 && to == 0 && kind
                == MsgKind::RenewReply
            &&& Milestone::GrantorGotRevokeReply.met(ev) <==> to == 0 && kind
                == MsgKind::RevokeReply
            &&& Milestone::RenewReachedLeader.met(ev) <==> to == 0 && kind == MsgKind::Renew
            &&& Milestone::RenewReachedHolder.met(ev) <==> (to == 0 || to == 2) && kind
                == MsgKind::Renew
            &&& Milestone::AnyRenewDelivered.met(ev) <==> kind == MsgKind::Renew
        },
        ev.kind matches EventKind::GranteeLease { status, .. } ==> {
            &&& Milestone::GranteeLeaseExpired.met(ev) <==> status == LeaseStatus::Expired
            &&& Milestone::EitherLeaseExpired.met(ev) <==> status == LeaseStatus::Expired
        },
        ev.kind matches EventKind::GrantorLease { status, .. } ==> {
            &&& !Milestone::GranteeLeaseExpired.met(ev)
            &&& Milestone::EitherLeaseExpired.met(ev) <==> status == LeaseStatus::Expired
        },
        Milestone::WriteCommitted.met(ev) <==> ev.kind is WriteCommitted,
        !(ev.kind is MessageDelivered) ==> forall|m: Milestone| #[trigger]
            m.met(ev) ==> m == Milestone::GranteeLeaseExpired || m == Milestone::EitherLeaseExpired
                || m == Milestone::WriteCommitted,
{
    if let EventKind::MessageDelivered { from, to, kind } = ev.kind {
        if kind == MsgKind::Renew {
            assert(delivered_to(ev, to, MsgKind::Renew));
        }
    }
}

/// One more event counts or it does not.
pub proof fn law_counting_goes_event_by_event(m: Milestone, events: Seq<Event>, ev: Event)
    ensures
        m.hits(Seq::empty()) == 0,
        m.hits(events.push(ev)) == m.hits(events) + (if m.met(ev) {
            1int
        } else {
            0int
        }),
{
    reveal(Seq::filter);
    assert(events.push(ev).drop_last() =~= events);
}

} // verus!
