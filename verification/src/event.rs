//! Message kinds, lease status, and the timestamped event stream.

use crate::clock::Time;
use vstd::prelude::*;

verus! {

/// Stable index of a node within a simulation.
pub type NodeId = usize;

/// A directed grantor -> grantee lease relationship, identified for tracking.
#[derive(Debug, Clone, Copy, PartialEq, Eq, Hash, Structural)]
pub struct LeaseId {
    pub grantor: NodeId,
    pub grantee: NodeId,
}

/// Wire message kinds, mirroring the one-to-one leasing algorithm, plus the
/// write-path messages layered on top (leader write broadcast / reply / commit).
#[derive(Debug, Clone, Copy, PartialEq, Eq, Structural)]
pub enum MsgKind {
    /// Grantor -> grantee: open the guard phase.
    Guard,
    /// Grantee -> grantor: acknowledge the guard.
    GuardReply,
    /// Grantor -> grantee: start/extend the promise.
    Renew,
    /// Grantee -> grantor: acknowledge a renewal.
    RenewReply,
    /// Grantor -> grantee: proactively deactivate the lease.
    Revoke,
    /// Grantee -> grantor: acknowledge a revocation.
    RevokeReply,
    /// Leader -> every other node: a write request to be served (disruptive
    /// path: recipients suspend the read leases they hold before replying).
    Write,
    /// Node -> leader: acknowledge a `Write` (its held reads are now suspended).
    WriteReply,
    /// Leader -> every other node: the write committed; suspended read leases
    /// may resume.
    Commit,
}

impl MsgKind {
    /// Number of distinct message kinds — the length of a per-kind array.
    pub const COUNT: usize = 9;

    /// The position of the kind in declaration order.
    pub open spec fn ordinal(self) -> int {
        match self {
            MsgKind::Guard => 0,
            MsgKind::GuardReply => 1,
            MsgKind::Renew => 2,
            MsgKind::RenewReply => 3,
            MsgKind::Revoke => 4,
            MsgKind::RevokeReply => 5,
            MsgKind::Write => 6,
            MsgKind::WriteReply => 7,
            MsgKind::Commit => 8,
        }
    }

    /// Stable array index for this kind (`0..COUNT`), matching declaration order.
    pub fn index(self) -> (r: usize)
        ensures
            r == self.ordinal(),
            r < Self::COUNT,
    {
        match self {
            MsgKind::Guard => 0,
            MsgKind::GuardReply => 1,
            MsgKind::Renew => 2,
            MsgKind::RenewReply => 3,
            MsgKind::Revoke => 4,
            MsgKind::RevokeReply => 5,
            MsgKind::Write => 6,
            MsgKind::WriteReply => 7,
            MsgKind::Commit => 8,
        }
    }

    /// Whether the kind belongs to the write path rather than to one lease.
    pub open spec fn is_write_path(self) -> bool {
        self == MsgKind::Write || self == MsgKind::WriteReply || self == MsgKind::Commit
    }

    /// Whether the kind answers another message.
    pub open spec fn is_reply(self) -> bool {
        self == MsgKind::GuardReply || self == MsgKind::RenewReply || self == MsgKind::RevokeReply
            || self == MsgKind::WriteReply
    }

    /// Whether a message of this kind travels from a lease's grantor to its
    /// grantee.
    pub open spec fn is_from_grantor(self) -> bool {
        self == MsgKind::Guard || self == MsgKind::Renew || self == MsgKind::Revoke
    }
}

/// Two kinds with the same array index are the same kind.
pub proof fn law_index_tells_kinds_apart(a: MsgKind, b: MsgKind)
    ensures
        0 <= a.ordinal() < MsgKind::COUNT,
        a.ordinal() == b.ordinal() ==> a == b,
{
}

/// What ultimately happens to a message once it is sent.
#[derive(Debug, Clone, Copy, PartialEq, Eq, Structural)]
pub enum MsgFate {
    /// Will be delivered at its arrival time.
    Delivered,
    /// Dropped in flight (lost link, partition); never arrives.
    Dropped,
}

/// A driving command: an external, deterministic action applied to a running
/// simulation. Either scripted on a [`Scenario`](crate::scenario::Scenario)
/// (reproducible) or injected live via
/// [`Engine::command`](crate::engine::Engine::command).
#[derive(Debug, Clone, Copy, PartialEq, Eq, Structural)]
pub enum Command {
    /// Grantor proactively opens (guards) a declared lease that is idle.
    Initiate(LeaseId),
    /// Grantor proactively revokes a lease it currently grants.
    Revoke(LeaseId),
    /// Force a node down (crash).
    FailNode(NodeId),
    /// Bring a downed node back up.
    RecoverNode(NodeId),
    /// Have the leader serve one write request.
    Write,
}

/// Logical lease status from a single party's viewpoint.
#[derive(Debug, Clone, Copy, PartialEq, Eq, Structural)]
pub enum LeaseStatus {
    /// No active promise.
    Inactive,
    /// Guard phase in progress (promise not yet counted).
    Guarding,
    /// Promise active (granted by grantor / held by grantee).
    Active,
    /// Promise lapsed by timeout or revocation.
    Expired,
}

/// A timestamped event in global simulation time. This is the stream consumed
/// by both the live animation and the GIF generator.
#[derive(Debug, Clone, Copy, PartialEq, Eq, Structural)]
pub struct Event {
    /// Global time at which the event occurs.
    pub at: Time,
    pub kind: EventKind,
}

/// The payload of an [`Event`].
#[derive(Debug, Clone, Copy, PartialEq, Eq, Structural)]
pub enum EventKind {
    /// A message left `from` at `sent` and (if delivered) arrives at `arrival`.
    MessageSent {
        from: NodeId,
        to: NodeId,
        kind: MsgKind,
        sent: Time,
        arrival: Time,
        fate: MsgFate,
    },
    /// A message was delivered to its destination.
    MessageDelivered { from: NodeId, to: NodeId, kind: MsgKind },
    /// A message was dropped in flight.
    MessageDropped { from: NodeId, to: NodeId, kind: MsgKind },
    /// Lease status changed from the grantor's viewpoint.
    GrantorLease { lease: LeaseId, status: LeaseStatus },
    /// Lease status changed from the grantee's viewpoint.
    GranteeLease { lease: LeaseId, status: LeaseStatus },
    /// A node crashed.
    NodeFailed { node: NodeId },
    /// A node recovered from a crash.
    NodeRecovered { node: NodeId },
    /// The leader began serving a write (broadcast just went out).
    WriteStarted { leader: NodeId },
    /// The leader's write committed (enough replies gathered).
    WriteCommitted { leader: NodeId },
}

} // verus!
