//! The mathematical model of a running simulation: its state, and what each
//! scheduled item does to it.
//!
//! Global time is authoritative; each node reads it through its own clock. The
//! model covers only the *one-to-one* lease primitive over arbitrary directed
//! grantor -> grantee pairs. The higher-level algorithms (leader, quorum,
//! roster) are this same primitive run over different patterns plus a
//! majority-counting rule; that counting is a derived view over lease state.

use crate::clock::Time;
use crate::dist::NormalDraw;
use crate::event::{Command, Event, EventKind, LeaseId, LeaseStatus, MsgFate, MsgKind, NodeId};
use crate::prob::Prob;
use crate::rng::RngState;
use crate::scenario::{Config, LeaseParams};
use crate::timeline::{enqueue, Scheduled, Timed};
use std::collections::BTreeSet;
use vstd::prelude::*;

verus! {

/// How often each node wakes to make stochastic decisions and service leases.
/// Per-step probabilities in the scenario are interpreted per poll.
pub const POLL_INTERVAL: Time = 50;

/// Grantor-local ticks an `Active` lease may go without any `RenewReply` (nor
/// the activating `GuardReply`) before the grantor gives up renewing it. The
/// grantor keeps at most one renew in flight (`awaiting_reply`), so once a reply
/// is lost it stops sending further renews and simply waits; this timeout, from
/// the last confirmation (`last_reply`), is when it concludes the grantee is
/// unreachable, stops intending the lease (`intended = false`), and lets `D'`
/// lapse. Once expired the lease is idle again and the per-poll Bernoulli trials
/// re-initiate a fresh guard, just as at the start. Sized around one lease
/// lifetime — long enough to ride out a brief silence, short enough to abandon a
/// grantee that has gone quiet.
pub const RENEW_REPLY_TIMEOUT: Time = 1500;

/// Global ticks a disruptive write round may stay outstanding before the leader
/// gives up on it (a `Write` or `WriteReply` was lost, so the reply set never
/// reached the commit condition). On abort, everyone unfreezes so their
/// torn-down leases can re-establish (re-guard), and the cluster recovers rather
/// than hanging frozen forever.
pub const WRITE_ROUND_TIMEOUT: Time = 1500;

/// Grantor-side bookkeeping for one lease.
#[derive(Debug, Clone, Copy, PartialEq, Eq, Structural)]
pub struct GrantorState {
    pub status: LeaseStatus,
    /// Grantor-local time until which the promise is held (`D'`) — the single
    /// safe-expiry bound, and what the countdown bar shows. Maintained by the
    /// extend-on-send / shorten-on-reply rule: each `Renew` sent *extends* it to
    /// the pessimistic no-reply bound (a `max`), and each `RenewReply` received
    /// *shortens* it to the tighter confirmed-receipt bound (a `min`). So while
    /// replies flow it stays a bit over one lease span ahead (the bar reads
    /// full); once they stop it drains to the last pessimistic bound and the
    /// lease expires there.
    pub grant_expiry: Time,
    /// Grantor-local time the next renew is due to be sent.
    pub next_renew_due: Time,
    /// Whether the grantor currently intends this lease to be active.
    pub intended: bool,
    /// Set when a *disruptive write* tore this grant down, while the grantor is
    /// frozen. On the `Commit` (or abort) that thaws the grantor, it
    /// deterministically re-opens the guard — so re-establishment is
    /// commit-driven, not left to a stochastic re-initiation. Cleared once the
    /// re-guard fires (or on any fresh guard). A write-torn-down lease is thus
    /// distinguished from a deliberate `Revoke` (which does not re-guard).
    pub reguard_on_thaw: bool,
    /// Whether a `Renew` is outstanding with no `RenewReply` yet. The grantor
    /// keeps at most one renew in flight: it won't send the next until the
    /// previous is acked (set on send, cleared on reply / activation), so a lost
    /// reply stops the renew stream rather than firing more un-acked renews.
    pub awaiting_reply: bool,
    /// Grantor-local time the current guard attempt was opened, while status is
    /// `Guarding` and no reply has arrived. Used to time out an unanswered guard
    /// (a dropped `Guard`/`GuardReply`) after a full guard window `t_guard -
    /// t_delta`, and to render the guard countdown bar.
    pub guard_since: Time,
    /// Grantor-local time of the most recent confirmation the grantee is still
    /// reachable — the activating `GuardReply`, then each `RenewReply`. If an
    /// `Active` lease goes [`RENEW_REPLY_TIMEOUT`] without one (every `Renew` or
    /// its reply lost), the grantor gives up renewing rather than renewing into
    /// the void, letting `D'` lapse so a fresh guard can start.
    pub last_reply: Time,
}

/// Grantee-side bookkeeping for one lease.
#[derive(Debug, Clone, Copy, PartialEq, Eq, Structural)]
pub struct GranteeState {
    pub status: LeaseStatus,
    /// Grantee-local time until which the lease is held (`C'`).
    pub hold_expiry: Time,
    /// Latest grantee-local time the first renew may be accepted (`A'`), set
    /// when a `Guard` is received. The guard phase bounds first-renew arrival.
    pub guard_deadline: Time,
}

/// Per-lease combined state.
#[derive(Debug, Clone, Copy, PartialEq, Eq, Structural)]
pub struct LeaseState {
    pub id: LeaseId,
    pub grantor: GrantorState,
    pub grantee: GranteeState,
}

impl LeaseState {
    /// The grantor neither promises the lease nor is about to.
    pub open spec fn idle(self) -> bool {
        self.grantor.status == LeaseStatus::Inactive || self.grantor.status == LeaseStatus::Expired
    }

    /// The grantor promises the lease or is about to.
    pub open spec fn granting(self) -> bool {
        self.grantor.status == LeaseStatus::Active || self.grantor.status == LeaseStatus::Guarding
    }

    /// The grantee holds the lease or is about to.
    pub open spec fn holding(self) -> bool {
        self.grantee.status == LeaseStatus::Active || self.grantee.status == LeaseStatus::Guarding
    }
}

/// A lease that nothing has happened to yet.
pub open spec fn fresh_lease(id: LeaseId) -> LeaseState {
    LeaseState {
        id,
        grantor: GrantorState {
            status: LeaseStatus::Inactive,
            grant_expiry: 0,
            next_renew_due: 0,
            intended: false,
            reguard_on_thaw: false,
            awaiting_reply: false,
            guard_since: 0,
            last_reply: 0,
        },
        grantee: GranteeState { status: LeaseStatus::Inactive, hold_expiry: 0, guard_deadline: 0 },
    }
}

/// Per-node runtime state.
#[derive(Debug, Clone, Copy, PartialEq, Eq, Structural)]
pub struct NodeState {
    pub up: bool,
    /// While `true`, the node has torn down the leases it takes part in for an
    /// in-progress *disruptive* write: it ignores renews (as grantee) and won't
    /// re-guard (as grantor) until a `Commit` (or a safety timeout) clears the
    /// flag. This is what makes the disruptive write's re-establishment
    /// genuinely commit-driven.
    pub write_frozen: bool,
}

/// The leader's in-progress write round (either path).
#[derive(Debug, Clone)]
pub struct WriteRound {
    /// Stable id for this write, carried on its messages so overlapping
    /// non-disruptive rounds stay distinct.
    pub id: usize,
    /// Global time the write broadcast went out (for a stuck-round timeout).
    pub started: Time,
    /// Peers that have replied so far (the leader counts itself implicitly).
    pub replied: BTreeSet<NodeId>,
}

/// What a [`WriteRound`] holds.
pub struct Round {
    pub id: usize,
    pub started: Time,
    pub replied: Set<NodeId>,
}

impl View for WriteRound {
    type V = Round;

    open spec fn view(&self) -> Round {
        Round { id: self.id, started: self.started, replied: self.replied@ }
    }
}

/// A message currently traveling a link, kept for frame interpolation.
#[derive(Debug, Clone, Copy, PartialEq, Eq, Structural)]
pub struct InFlight {
    pub from: NodeId,
    pub to: NodeId,
    pub kind: MsgKind,
    pub sent: Time,
    pub arrival: Time,
    pub fate: MsgFate,
}

/// The smaller of two integers.
pub open spec fn min_of(a: int, b: int) -> int {
    if a <= b {
        a
    } else {
        b
    }
}

/// The larger of two integers.
pub open spec fn max_of(a: int, b: int) -> int {
    if a >= b {
        a
    } else {
        b
    }
}

/// The index of the first lease `id` at or after `k`, or the number of leases.
pub open spec fn lease_position(leases: Seq<LeaseState>, id: LeaseId, k: int) -> int
    decreases leases.len() - k,
{
    if k >= leases.len() {
        leases.len() as int
    } else if leases[k].id == id {
        k
    } else {
        lease_position(leases, id, k + 1)
    }
}

/// The index of the first round `id` at or after `k`, or the number of rounds.
pub open spec fn round_position(rounds: Seq<Round>, id: usize, k: int) -> int
    decreases rounds.len() - k,
{
    if k >= rounds.len() {
        rounds.len() as int
    } else if rounds[k].id == id {
        k
    } else {
        round_position(rounds, id, k + 1)
    }
}

/// The smallest grantee of the first `k` leases.
pub open spec fn smallest_grantee(leases: Seq<LeaseState>, k: int) -> Option<NodeId>
    decreases k,
{
    if k <= 0 {
        None
    } else {
        let g = leases[k - 1].id.grantee;
        match smallest_grantee(leases, k - 1) {
            None => Some(g),
            Some(m) => Some(
                if g < m {
                    g
                } else {
                    m
                },
            ),
        }
    }
}

/// `iv` perturbed by a draw of at most a fifth of it either way, at least one
/// tick.
pub open spec fn jitter_span(iv: int) -> int {
    max_of(iv / 5, 1)
}

/// A simulation in progress.
#[verifier::ext_equal]
pub struct Sim {
    /// What is simulated.
    pub cfg: Config,
    /// The tick that each Gaussian draw stands for.
    pub normal: spec_fn(NormalDraw) -> Time,
    pub rng: RngState,
    /// Current global time.
    pub now: Time,
    /// What is still to happen, in order.
    pub queue: Seq<Timed>,
    pub nodes: Seq<NodeState>,
    pub leases: Seq<LeaseState>,
    /// Messages in flight, for frame interpolation.
    pub in_flight: Seq<InFlight>,
    /// Events produced but not yet handed out.
    pub pending: Seq<Event>,
    /// The leader's write rounds still awaiting commit. Disruptive writes run one
    /// at a time; non-disruptive writes may overlap.
    pub rounds: Seq<Round>,
    /// The id of the next write.
    pub next_write_id: usize,
}

impl Sim {
    pub open spec fn params(self) -> LeaseParams {
        self.cfg.params
    }

    /// The reading of a node's clock at the current time.
    pub open spec fn local(self, node: NodeId) -> int {
        self.cfg.nodes[node as int].clock.reading(self.now as int)
    }

    /// Add an item to the timeline, not before the current time.
    pub open spec fn schedule(self, at: int, item: Scheduled) -> Sim {
        Sim {
            queue: enqueue(self.queue, Timed { at: max_of(at, self.now as int) as Time, item }),
            ..self
        }
    }

    /// Produce an event at the current time.
    pub open spec fn emit(self, kind: EventKind) -> Sim {
        Sim { pending: self.pending.push(Event { at: self.now, kind }), ..self }
    }

    /// Consume one value of the generator.
    pub open spec fn draw(self) -> Sim {
        Sim { rng: self.rng.next(), ..self }
    }

    pub open spec fn with_grantor(self, i: int, grantor: GrantorState) -> Sim {
        Sim {
            leases: self.leases.update(i, LeaseState { grantor, ..self.leases[i] }),
            ..self
        }
    }

    pub open spec fn with_grantee(self, i: int, grantee: GranteeState) -> Sim {
        Sim {
            leases: self.leases.update(i, LeaseState { grantee, ..self.leases[i] }),
            ..self
        }
    }

    pub open spec fn with_node(self, node: NodeId, state: NodeState) -> Sim {
        Sim { nodes: self.nodes.update(node as int, state), ..self }
    }

    // ---- Messages ---------------------------------------------------------

    /// The probability that a message of `kind` sent now `from -> to` is lost:
    /// to the link's own drop chance or to the kind's.
    pub open spec fn loss(self, from: NodeId, to: NodeId, kind: MsgKind) -> Prob {
        Prob {
            num: self.cfg.link(from, to).drop_chance.either_spec(
                self.cfg.kind_loss(kind, self.now as int),
            ) as u64,
        }
    }

    /// Whether a message sent now `from -> to` is lost.
    pub open spec fn loses(self, from: NodeId, to: NodeId, kind: MsgKind) -> bool {
        self.cfg.link(from, to).partitioned || self.rng.hit(self.loss(from, to, kind))
    }

    /// The generator state after the fate of a message was decided: a
    /// partitioned link needs no draw.
    pub open spec fn rng_after_loss(self, from: NodeId, to: NodeId) -> RngState {
        if self.cfg.link(from, to).partitioned {
            self.rng
        } else {
            self.rng.next()
        }
    }

    /// When a message sent now `from -> to` arrives: at least one tick later.
    pub open spec fn arrival_of(self, from: NodeId, to: NodeId) -> int {
        self.now + max_of(
            self.cfg.link(from, to).delay.drawn(
                self.rng_after_loss(from, to),
                self.normal,
            ) as int,
            1,
        )
    }

    pub open spec fn fate_of(self, from: NodeId, to: NodeId, kind: MsgKind) -> MsgFate {
        if self.loses(from, to, kind) {
            MsgFate::Dropped
        } else {
            MsgFate::Delivered
        }
    }

    /// Send a message `from -> to` now, sampling delay and drop from the link.
    /// The `MessageSent` event fires immediately; the (delivered-or-dropped)
    /// arrival is scheduled so its event lands in time order.
    #[verifier::opaque]
    pub open spec fn send(self, from: NodeId, to: NodeId, kind: MsgKind, tag: usize) -> Sim {
        let arrival = self.arrival_of(from, to) as Time;
        let fate = self.fate_of(from, to, kind);
        let sent = self.now;
        let s = Sim {
            rng: self.cfg.link(from, to).delay.rng_after(self.rng_after_loss(from, to)),
            in_flight: self.in_flight.push(InFlight { from, to, kind, sent, arrival, fate }),
            ..self
        };
        s.emit(EventKind::MessageSent { from, to, kind, sent, arrival, fate }).schedule(
            arrival as int,
            Scheduled::Arrival { from, to, kind, tag, fate },
        )
    }

    /// A previously deferred send fires. Skipped if the sender is down, modeling
    /// a node that crashed after receiving but before replying.
    pub open spec fn try_send(self, from: NodeId, to: NodeId, kind: MsgKind, tag: usize) -> Sim {
        if self.nodes[from as int].up {
            self.send(from, to, kind, tag)
        } else {
            self
        }
    }

    /// Schedule `from` to send `kind` after `from`'s own processing delay. Used
    /// for replies, whose latency is the responder's think time.
    #[verifier::opaque]
    pub open spec fn reply_after_delay(
        self,
        from: NodeId,
        to: NodeId,
        kind: MsgKind,
        tag: usize,
    ) -> Sim {
        let think = self.cfg.nodes[from as int].response_delay;
        let s = Sim { rng: think.rng_after(self.rng), ..self };
        s.schedule(
            self.now + think.drawn(self.rng, self.normal),
            Scheduled::Send { from, to, kind, tag },
        )
    }

    /// Send one message to every node below `k` but `from`.
    pub open spec fn broadcast(self, from: NodeId, kind: MsgKind, tag: usize, k: int) -> Sim
        decreases k,
    {
        if k <= 0 {
            self
        } else {
            let s = self.broadcast(from, kind, tag, k - 1);
            if k - 1 != from {
                s.send(from, (k - 1) as usize, kind, tag)
            } else {
                s
            }
        }
    }

    // ---- Driving commands -------------------------------------------------

    pub open spec fn lease_index(self, id: LeaseId) -> int {
        lease_position(self.leases, id, 0)
    }

    pub open spec fn declared(self, id: LeaseId) -> bool {
        self.lease_index(id) < self.leases.len()
    }

    #[verifier::opaque]
    pub open spec fn apply(self, cmd: Command) -> Sim {
        match cmd {
            Command::Initiate(id) => {
                if self.declared(id) && self.nodes[id.grantor as int].up
                    && self.leases[self.lease_index(id)].idle() {
                    self.begin_guard(self.lease_index(id) as usize)
                } else {
                    self
                }
            },
            Command::Revoke(id) => {
                if self.declared(id) && self.nodes[id.grantor as int].up
                    && self.leases[self.lease_index(id)].granting() {
                    self.begin_revoke(self.lease_index(id) as usize)
                } else {
                    self
                }
            },
            Command::FailNode(node) => {
                if self.nodes[node as int].up {
                    self.fail_node(node)
                } else {
                    self
                }
            },
            Command::RecoverNode(node) => {
                if !self.nodes[node as int].up {
                    self.recover_node(node)
                } else {
                    self
                }
            },
            Command::Write => self.serve_write(),
        }
    }

    // ---- Failure & recovery -----------------------------------------------

    /// A node goes down. A failed grantor stops renewing; its leases will lapse
    /// safely.
    #[verifier::opaque]
    pub open spec fn fail_node(self, node: NodeId) -> Sim {
        let s = self.with_node(node, NodeState { up: false, ..self.nodes[node as int] });
        Sim {
            leases: self.leases.map_values(|l: LeaseState| unintended(l, node)),
            ..s.emit(EventKind::NodeFailed { node })
        }
    }

    #[verifier::opaque]
    pub open spec fn recover_node(self, node: NodeId) -> Sim {
        self.with_node(node, NodeState { up: true, ..self.nodes[node as int] }).emit(
            EventKind::NodeRecovered { node },
        )
    }

    // ---- Periodic per-node poll -------------------------------------------

    /// A node's trial for a crash (while up) or a recovery (while down).
    #[verifier::opaque]
    pub open spec fn fault_trial(self, node: NodeId) -> Sim {
        let config = self.cfg.nodes[node as int];
        if self.nodes[node as int].up {
            if self.rng.hit(config.fail_chance) {
                self.draw().fail_node(node)
            } else {
                self.draw()
            }
        } else if self.rng.hit(config.recover_chance) {
            self.draw().recover_node(node)
        } else {
            self.draw()
        }
    }

    /// What a node that is up does on its poll.
    #[verifier::opaque]
    pub open spec fn tend(self, node: NodeId) -> Sim {
        let s1 = self.abort_stale_writes(node);
        let s2 = s1.expire_stale_guards(node);
        let s3 = s2.expire_stale_renews(node);
        let s4 = s3.maybe_initiate(node, s3.leases.len() as int);
        s4.service_grants(node, s4.leases.len() as int)
    }

    #[verifier::opaque]
    pub open spec fn poll(self, node: NodeId) -> Sim {
        let s1 = self.fault_trial(node);
        let s2 = if s1.nodes[node as int].up {
            s1.tend(node)
        } else {
            s1
        };
        let s3 = s2.recompute_statuses(node, s2.leases.len() as int);
        // Reschedule the next poll while the simulation is still running.
        if s3.now + POLL_INTERVAL <= s3.cfg.duration {
            s3.schedule(s3.now + POLL_INTERVAL, Scheduled::Poll { node })
        } else {
            s3
        }
    }

    /// Abandon any guard attempt this node opened that has gone unanswered for a
    /// whole guard phase — the sign that its `Guard` or the `GuardReply` was
    /// dropped. The give-up span is the guard window `t_guard - t_delta`, the same
    /// length as the grantee's acceptance window `A'`: the grantor holds the guard
    /// for as long as the grantee would still accept the activating first renew,
    /// and only once that has lapsed does it fall back to `Inactive` (its pre-guard
    /// idle state). Re-initiation ("retry") is then the ordinary per-poll
    /// `initiate_chance` path, which starts fresh *from* that idle state — so a
    /// retry is a full guard phase away, not a fraction of one.
    ///
    /// Only stuck guard phases are timed out; once a lease is `Active` a lost
    /// renew is already handled by the ordinary renew loop, so those are left be.
    #[verifier::opaque]
    pub open spec fn expire_stale_guards(self, node: NodeId) -> Sim {
        let (local, window) = (self.local(node), self.params().guard_len());
        Sim {
            leases: self.leases.map_values(
                |l: LeaseState| guard_given_up(l, node, local, window),
            ),
            ..self
        }
    }

    /// Give up renewing an `Active` lease whose grantee has gone silent for
    /// [`RENEW_REPLY_TIMEOUT`] grantor-local ticks — no `RenewReply` since the
    /// last confirmation, the sign the `Renew` (or its reply) was dropped. With
    /// one renew in flight the grantor has already stopped sending renews (it's
    /// `awaiting_reply`); this is when it concludes the grantee is unreachable and
    /// stops *intending* the lease, so `D'` can lapse and the grantor fall idle to
    /// re-guard (without it, an `awaiting_reply` lease would keep its last `D'` and
    /// intent forever, never re-guarding).
    ///
    /// This only stops the renewing (`intended = false`, like a passive revoke);
    /// the grantor keeps its outstanding `D'` and lets it lapse naturally, so the
    /// safety invariant holds even if a renew *was* received and only its reply
    /// lost. Once `D'` lapses the lease expires and is idle again, so a fresh
    /// guard can open — the exact restart the guard-phase timeout gives, one step
    /// later in the lifecycle.
    #[verifier::opaque]
    pub open spec fn expire_stale_renews(self, node: NodeId) -> Sim {
        let local = self.local(node);
        Sim {
            leases: self.leases.map_values(|l: LeaseState| renew_given_up(l, node, local)),
            ..self
        }
    }

    /// A node may spontaneously start a lease it grants but has not activated
    /// (the stochastic `initiate_chance` path, e.g. a staggered establishment),
    /// here over the first `k` leases. A node frozen for an in-progress
    /// disruptive write does not initiate — its torn-down grants are re-guarded
    /// deterministically on the `Commit` that thaws it, not by this chance path.
    pub open spec fn maybe_initiate(self, node: NodeId, k: int) -> Sim
        decreases k,
    {
        if k <= 0 || self.nodes[node as int].write_frozen {
            self
        } else {
            self.maybe_initiate(node, k - 1).initiate_trial(node, (k - 1) as usize)
        }
    }

    /// One lease's trial of [`Sim::maybe_initiate`].
    pub open spec fn initiate_trial(self, node: NodeId, i: usize) -> Sim {
        let l = self.leases[i as int];
        if l.id.grantor == node && l.idle() {
            if self.rng.hit(self.cfg.nodes[node as int].initiate_chance) {
                self.draw().begin_guard(i)
            } else {
                self.draw()
            }
        } else {
            self
        }
    }

    /// Send the `Guard` that opens a lease's guard phase. It is a fresh phase: no
    /// renew is outstanding yet, and any pending re-guard-on-thaw request is now
    /// satisfied.
    #[verifier::opaque]
    pub open spec fn begin_guard(self, i: usize) -> Sim {
        let l = self.leases[i as int];
        let s = self.with_grantor(
            i as int,
            GrantorState {
                status: LeaseStatus::Guarding,
                intended: true,
                awaiting_reply: false,
                reguard_on_thaw: false,
                guard_since: self.local(l.id.grantor) as Time,
                ..l.grantor
            },
        );
        s.send(l.id.grantor, l.id.grantee, MsgKind::Guard, i)
    }

    /// Proactively revoke a lease: stop renewing and notify the grantee. If the
    /// grantee's `RevokeReply` comes back the grantor exits granting at once;
    /// otherwise it keeps its outstanding `D'` and lets it lapse naturally — so
    /// the safety invariant holds regardless of whether the grantee is reached.
    #[verifier::opaque]
    pub open spec fn begin_revoke(self, i: usize) -> Sim {
        let l = self.leases[i as int];
        let s = self.with_grantor(i as int, GrantorState { intended: false, ..l.grantor });
        s.send(l.id.grantor, l.id.grantee, MsgKind::Revoke, i)
    }

    /// Send due renews for the leases, among the first `k`, that this node grants
    /// and currently intends. The grantor keeps at most one renew in flight: a
    /// lease still `awaiting_reply` to its last renew is skipped, so the next
    /// renew waits for that ack (or for the grantor to give up) rather than
    /// firing un-acked renews.
    pub open spec fn service_grants(self, node: NodeId, k: int) -> Sim
        decreases k,
    {
        if k <= 0 {
            self
        } else {
            let s = self.service_grants(node, k - 1);
            if s.renew_due(node, k - 1) {
                s.send_renew((k - 1) as usize)
            } else {
                s
            }
        }
    }

    /// Whether `node` should renew lease `i` now.
    pub open spec fn renew_due(self, node: NodeId, i: int) -> bool {
        let l = self.leases[i];
        &&& l.id.grantor == node
        &&& l.grantor.intended
        &&& l.grantor.status == LeaseStatus::Active
        &&& !l.grantor.awaiting_reply
        &&& self.local(node) >= l.grantor.next_renew_due
    }

    /// Send a `Renew` and (re)arm the grantor's no-reply safe expiry.
    ///
    /// The provisional expiry uses the guard construction `B' = b + t_guard +
    /// t_delta`, then `D' = B' + t_lease + t_delta`. This covers the case where
    /// the renew is received but its reply is lost: the grantee can extend to at
    /// most `(receipt) + t_lease - t_delta`, and the guard window bounds receipt
    /// relative to the grantor's send `b`, so this `D'` still dominates.
    #[verifier::opaque]
    pub open spec fn send_renew(self, i: usize) -> Sim {
        let l = self.leases[i as int];
        let b = self.local(l.id.grantor);
        let s = self.with_grantor(
            i as int,
            GrantorState {
                grant_expiry: max_of(
                    l.grantor.grant_expiry as int,
                    b + self.params().grant_len(),
                ) as Time,
                next_renew_due: (b + self.params().renew_interval) as Time,
                awaiting_reply: true,
                ..l.grantor
            },
        );
        s.send(l.id.grantor, l.id.grantee, MsgKind::Renew, i)
    }

    // ---- Message arrival --------------------------------------------------

    /// A message reaches the end of its link. A down node silently ignores
    /// everything it receives.
    #[verifier::opaque]
    pub open spec fn arrive(
        self,
        from: NodeId,
        to: NodeId,
        kind: MsgKind,
        tag: usize,
        fate: MsgFate,
    ) -> Sim {
        if fate == MsgFate::Dropped {
            self.emit(EventKind::MessageDropped { from, to, kind })
        } else {
            let s = self.emit(EventKind::MessageDelivered { from, to, kind });
            if self.nodes[to as int].up {
                s.receive(from, to, kind, tag)
            } else {
                s
            }
        }
    }

    /// A node that is up acts on a delivered message.
    pub open spec fn receive(self, from: NodeId, to: NodeId, kind: MsgKind, tag: usize) -> Sim {
        match kind {
            MsgKind::Guard => self.on_guard(tag),
            MsgKind::GuardReply => self.on_guard_reply(tag),
            MsgKind::Renew => self.on_renew(tag),
            MsgKind::RenewReply => self.on_renew_reply(tag),
            MsgKind::Revoke => self.on_revoke(tag),
            MsgKind::RevokeReply => self.on_revoke_reply(tag),
            MsgKind::Write => self.on_write(from, to, tag),
            MsgKind::WriteReply => self.on_write_reply(from, tag),
            MsgKind::Commit => self.on_commit(to),
        }
    }

    /// Grantee receives `Guard`: record the acceptance window `A'` and reply.
    #[verifier::opaque]
    pub open spec fn on_guard(self, i: usize) -> Sim {
        let l = self.leases[i as int];
        let s = self.with_grantee(
            i as int,
            GranteeState {
                guard_deadline: (self.local(l.id.grantee) + self.params().guard_len()) as Time,
                status: LeaseStatus::Guarding,
                ..l.grantee
            },
        );
        s.emit(EventKind::GranteeLease { lease: l.id, status: LeaseStatus::Guarding })
            .reply_after_delay(l.id.grantee, l.id.grantor, MsgKind::GuardReply, i)
    }

    /// Grantor receives `GuardReply`: become active and send the first renew.
    /// Activation is the first proof the grantee is reachable, so it arms the
    /// renew-reply liveness clock; `D'` is then set by the first renew.
    #[verifier::opaque]
    pub open spec fn on_guard_reply(self, i: usize) -> Sim {
        let l = self.leases[i as int];
        if l.grantor.status != LeaseStatus::Guarding {
            self
        } else {
            let d = self.local(l.id.grantor) as Time;
            let s = self.with_grantor(
                i as int,
                GrantorState {
                    status: LeaseStatus::Active,
                    last_reply: d,
                    next_renew_due: d,
                    ..l.grantor
                },
            );
            s.emit(EventKind::GrantorLease { lease: l.id, status: LeaseStatus::Active }).send_renew(i)
        }
    }

    /// Whether the grantee takes a renew that reaches it now: not while it is
    /// frozen for a disruptive write, the very first one only inside the guarded
    /// window, and a later one only while it holds the lease. A side that has
    /// lapsed, was revoked or was torn down takes none: only a fresh `Guard` leads
    /// to a hold again.
    pub open spec fn accepts_renew(self, i: int) -> bool {
        let l = self.leases[i];
        &&& !self.nodes[l.id.grantee as int].write_frozen
        &&& {
            ||| l.grantee.status == LeaseStatus::Active
            ||| l.grantee.status == LeaseStatus::Guarding && self.local(l.id.grantee)
                < l.grantee.guard_deadline
        }
    }

    /// Grantee receives `Renew`: accept iff within the guard window (first time)
    /// or holding the lease (later on), and extend the hold expiry
    /// `C' = C + t_lease - t_delta`, then reply. A lapsed side ignores it.
    #[verifier::opaque]
    pub open spec fn on_renew(self, i: usize) -> Sim {
        let l = self.leases[i as int];
        if !self.accepts_renew(i as int) {
            self
        } else {
            let held = self.with_grantee(
                i as int,
                GranteeState {
                    hold_expiry: (self.local(l.id.grantee) + self.params().hold_len()) as Time,
                    status: LeaseStatus::Active,
                    ..l.grantee
                },
            );
            let s = if l.grantee.status != LeaseStatus::Active {
                held.emit(EventKind::GranteeLease { lease: l.id, status: LeaseStatus::Active })
            } else {
                held
            };
            s.reply_after_delay(l.id.grantee, l.id.grantor, MsgKind::RenewReply, i)
        }
    }

    /// Grantor receives `RenewReply`: tighten `D' = d + t_lease + t_delta`.
    ///
    /// Safe because the reply proves the grantee's receipt `C` happened before
    /// this grantor-local `d` (it takes a real round-trip: grantee received the
    /// renew, then replied). So `D' = d + t_lease + t_delta` exceeds the
    /// grantee's `C' = C + t_lease - t_delta` — the later anchor `d > C` plus the
    /// `+t_delta`/`-t_delta` slack both push the same way, keeping `D' > C'`.
    #[verifier::opaque]
    pub open spec fn on_renew_reply(self, i: usize) -> Sim {
        let l = self.leases[i as int];
        if l.grantor.status != LeaseStatus::Active {
            self
        } else {
            let d = self.local(l.id.grantor);
            self.with_grantor(
                i as int,
                GrantorState {
                    grant_expiry: min_of(
                        l.grantor.grant_expiry as int,
                        d + self.params().confirmed_len(),
                    ) as Time,
                    last_reply: d as Time,
                    awaiting_reply: false,
                    ..l.grantor
                },
            )
        }
    }

    /// Grantee receives `Revoke`: drop the lease immediately and acknowledge.
    ///
    /// The grantor already stopped renewing when it revoked; the ack lets it
    /// leave the granting state *promptly* instead of waiting out `D'`. Never
    /// required for safety — if the ack is lost the grantor just lets `D'`
    /// lapse — so it is safe whether or not the grantee is reached.
    #[verifier::opaque]
    pub open spec fn on_revoke(self, i: usize) -> Sim {
        let l = self.leases[i as int];
        let s = if l.holding() {
            self.with_grantee(
                i as int,
                GranteeState {
                    status: LeaseStatus::Expired,
                    hold_expiry: self.local(l.id.grantee) as Time,
                    ..l.grantee
                },
            ).emit(EventKind::GranteeLease { lease: l.id, status: LeaseStatus::Expired })
        } else {
            self
        };
        s.reply_after_delay(l.id.grantee, l.id.grantor, MsgKind::RevokeReply, i)
    }

    /// Grantor receives `RevokeReply`: the grantee confirmed it dropped the lease,
    /// so the grantor can leave the granting state at once rather than waiting for
    /// its padded `D'` to lapse. Safe because the ack is a round-trip *after* the
    /// grantee expired its hold, so the grantee's expiry already precedes now — the
    /// invariant `grantor expiry >= grantee expiry` still holds. (Without the ack,
    /// the grantor would simply let `D'` lapse; this just ends it promptly once the
    /// revoke is confirmed.)
    #[verifier::opaque]
    pub open spec fn on_revoke_reply(self, i: usize) -> Sim {
        let l = self.leases[i as int];
        if !l.granting() {
            self
        } else {
            self.with_grantor(
                i as int,
                GrantorState { status: LeaseStatus::Expired, intended: false, ..l.grantor },
            ).emit(EventKind::GrantorLease { lease: l.id, status: LeaseStatus::Expired })
        }
    }

    // ---- Expiry detection -------------------------------------------------

    /// Recompute lease statuses for both roles `node` plays in the first `k`
    /// leases, emitting expiry transitions when a local clock has passed the
    /// relevant deadline.
    pub open spec fn recompute_statuses(self, node: NodeId, k: int) -> Sim
        decreases k,
    {
        if k <= 0 {
            self
        } else {
            let s = self.recompute_statuses(node, k - 1);
            s.recompute_grantor(node, k - 1).recompute_grantee(node, k - 1)
        }
    }

    /// The grantor's promise lapses once its clock is past `D'`.
    pub open spec fn recompute_grantor(self, node: NodeId, i: int) -> Sim {
        let l = self.leases[i];
        if l.id.grantor == node && l.grantor.status == LeaseStatus::Active && self.local(node)
            > l.grantor.grant_expiry {
            self.with_grantor(i, GrantorState { status: LeaseStatus::Expired, ..l.grantor }).emit(
                EventKind::GrantorLease { lease: l.id, status: LeaseStatus::Expired },
            )
        } else {
            self
        }
    }

    /// The grantee's hold lapses once its clock is past `C'`. A grantee whose
    /// guard window (`A'`) lapses without an activating first `Renew` — because
    /// that `Renew` was dropped or delayed — gives up the guard instead of
    /// hanging in `Guarding` forever.
    pub open spec fn recompute_grantee(self, node: NodeId, i: int) -> Sim {
        let l = self.leases[i];
        if l.id.grantee == node && ((l.grantee.status == LeaseStatus::Active && self.local(node)
            > l.grantee.hold_expiry) || (l.grantee.status == LeaseStatus::Guarding && self.local(
            node,
        ) > l.grantee.guard_deadline)) {
            self.with_grantee(i, GranteeState { status: LeaseStatus::Expired, ..l.grantee }).emit(
                EventKind::GranteeLease { lease: l.id, status: LeaseStatus::Expired },
            )
        } else {
            self
        }
    }

    // ---- Write path -------------------------------------------------------
    //
    // Two flavors, both broadcast by the leader (smallest-id grantee):
    //  * disruptive — a recipient tears down every lease it takes part in (the
    //    reads it holds *and* the grants it makes) and freezes until the `Commit`;
    //    once unfrozen the lease re-establishes from scratch, re-guarding. The
    //    `Write` itself is the revocation notice — no separate `Revoke` traffic.
    //  * non-disruptive — recipients keep their leases running entirely
    //    untouched; the write's `Write`/`WriteReply`/`Commit` messages sweep the
    //    cluster and commit, but touch no lease or node state at all.
    // Write ids ride the messages' `tag` (writes aren't lease-scoped), so
    // overlapping non-disruptive rounds stay distinct.

    /// `iv` perturbed by ±20% jitter, floored at 1 tick. Used to space out leader
    /// write ticks so they don't land on a perfectly regular grid.
    pub open spec fn jittered(self, iv: int) -> int {
        max_of(iv + self.rng.ranged(-jitter_span(iv), jitter_span(iv)), 1)
    }

    pub open spec fn after_jitter(self, iv: int) -> Sim {
        Sim { rng: self.rng.after_ranged(-jitter_span(iv), jitter_span(iv)), ..self }
    }

    /// The current leader: the smallest-id node that is a grantee of some lease.
    /// `None` if no lease is declared.
    pub open spec fn leader(self) -> Option<NodeId> {
        smallest_grantee(self.leases, self.leases.len() as int)
    }

    /// The leader wakes to serve a write, after the next tick was rescheduled (so
    /// the cadence continues regardless).
    #[verifier::opaque]
    pub open spec fn write_tick(self) -> Sim {
        let s = match self.cfg.write_interval {
            Some(iv) => {
                let next = self.now + self.jittered(iv as int);
                if next <= self.cfg.duration {
                    self.after_jitter(iv as int).schedule(next, Scheduled::WriteTick)
                } else {
                    self.after_jitter(iv as int)
                }
            },
            None => self,
        };
        s.serve_write()
    }

    /// Have the leader open one write round now (shared by the periodic tick and
    /// the scripted `Command::Write`): only if there is a leader that is up,
    /// and — for disruptive writes — only one round at a time.
    pub open spec fn serve_write(self) -> Sim {
        match self.leader() {
            None => self,
            Some(leader) => {
                if self.nodes[leader as int].up && (self.cfg.write_disruptive ==> self.rounds.len()
                    == 0) {
                    self.begin_write(leader)
                } else {
                    self
                }
            },
        }
    }

    /// Leader opens a write round: allocate an id, record it, emit `WriteStarted`,
    /// and broadcast `Write`. In the disruptive path the leader also suspends the
    /// leases it takes part in and freezes itself; in the non-disruptive path its
    /// leases are left entirely untouched.
    #[verifier::opaque]
    pub open spec fn begin_write(self, leader: NodeId) -> Sim {
        let id = self.next_write_id;
        let opened = Sim {
            next_write_id: id.wrapping_add(1),
            rounds: self.rounds.push(Round { id, started: self.now, replied: Set::empty() }),
            ..self
        };
        let s = if self.cfg.write_disruptive {
            opened.suspend_reads(leader)
        } else {
            opened
        };
        s.emit(EventKind::WriteStarted { leader }).broadcast(
            leader,
            MsgKind::Write,
            id,
            self.nodes.len() as int,
        )
    }

    /// A peer receives the leader's `Write`. Disruptive: tear down the leases it
    /// takes part in and freeze until the commit. Non-disruptive: its leases are
    /// untouched — it just replies. Either way the leader is the reply's `to`.
    #[verifier::opaque]
    pub open spec fn on_write(self, from: NodeId, to: NodeId, write_id: usize) -> Sim {
        let s = if self.cfg.write_disruptive {
            self.suspend_reads(to)
        } else {
            self
        };
        s.reply_after_delay(to, from, MsgKind::WriteReply, write_id)
    }

    /// Leader receives a `WriteReply`: record the replier for that round and try
    /// to commit it.
    #[verifier::opaque]
    pub open spec fn on_write_reply(self, from: NodeId, write_id: usize) -> Sim {
        let p = round_position(self.rounds, write_id, 0);
        if p >= self.rounds.len() {
            self
        } else {
            let r = self.rounds[p];
            Sim {
                rounds: self.rounds.update(p, Round { replied: r.replied.insert(from), ..r }),
                ..self
            }.try_commit(write_id)
        }
    }

    /// Whether a reply set (leader implicitly included) both reaches a majority
    /// of the nodes and covers every grantee node.
    pub open spec fn may_commit(self, replied: Set<NodeId>, leader: NodeId) -> bool {
        &&& replied.len() + 1 >= self.nodes.len() as int / 2 + 1
        &&& forall|i: int|
            0 <= i < self.leases.len() ==> (#[trigger] self.leases[i]).id.grantee == leader
                || replied.contains(self.leases[i].id.grantee)
    }

    /// Commit round `write_id` once its reply set both reaches a majority and
    /// covers every grantee node. On commit the leader emits `WriteCommitted`,
    /// broadcasts `Commit`, and — disruptive only — thaws itself and re-guards its
    /// own torn-down grants (the same recovery peers do on `Commit`).
    #[verifier::opaque]
    pub open spec fn try_commit(self, write_id: usize) -> Sim {
        let p = round_position(self.rounds, write_id, 0);
        match self.leader() {
            None => self,
            Some(leader) => {
                if p < self.rounds.len() && self.may_commit(self.rounds[p].replied, leader) {
                    let sent = self.emit(EventKind::WriteCommitted { leader }).broadcast(
                        leader,
                        MsgKind::Commit,
                        write_id,
                        self.nodes.len() as int,
                    );
                    let s = if self.cfg.write_disruptive {
                        sent.thaw_and_reguard(leader)
                    } else {
                        sent
                    };
                    Sim { rounds: s.rounds.filter(|r: Round| r.id != write_id), ..s }
                } else {
                    self
                }
            },
        }
    }

    /// A node receives a `Commit`. Disruptive: thaw the node and immediately
    /// re-establish the grants the write tore down. Non-disruptive: a no-op —
    /// leases were never touched.
    pub open spec fn on_commit(self, node: NodeId) -> Sim {
        if self.cfg.write_disruptive {
            self.thaw_and_reguard(node)
        } else {
            self
        }
    }

    /// Thaw `node` after a disruptive write and deterministically re-open a fresh
    /// guard for every grant the write tore down (`reguard_on_thaw`). This is what
    /// makes recovery *commit-driven*: the moment a grantor learns the write
    /// committed, it re-grants — no waiting on a stochastic per-poll re-initiation.
    #[verifier::opaque]
    pub open spec fn thaw_and_reguard(self, node: NodeId) -> Sim {
        self.with_node(node, NodeState { write_frozen: false, ..self.nodes[node as int] }).reguard(
            node,
            self.leases.len() as int,
        )
    }

    /// Re-open the guard of the grants of `node`, among the first `k` leases,
    /// that a write tore down.
    pub open spec fn reguard(self, node: NodeId, k: int) -> Sim
        decreases k,
    {
        if k <= 0 {
            self
        } else {
            let s = self.reguard(node, k - 1);
            let l = s.leases[k - 1];
            if l.id.grantor == node && l.grantor.reguard_on_thaw {
                s.begin_guard((k - 1) as usize)
            } else {
                s
            }
        }
    }

    /// Whether a round has been outstanding for [`WRITE_ROUND_TIMEOUT`].
    pub open spec fn stale(self, r: Round) -> bool {
        self.now - r.started >= WRITE_ROUND_TIMEOUT
    }

    pub open spec fn has_stale_round(self) -> bool {
        exists|k: int| 0 <= k < self.rounds.len() && self.stale(#[trigger] self.rounds[k])
    }

    /// On the leader's poll: abandon any write round outstanding longer than
    /// [`WRITE_ROUND_TIMEOUT`] (a `Write`/`WriteReply` was dropped so it can never
    /// reach the commit condition), so the cluster recovers rather than hanging
    /// on a stuck round forever.
    ///
    /// Disruptive writes freeze nodes; every one is thawed and its torn-down
    /// grants re-guarded, exactly as a commit would — so an aborted round still
    /// recovers deterministically. Non-disruptive writes touch no node state, so
    /// dropping the stale round is all the cleanup needed.
    #[verifier::opaque]
    pub open spec fn abort_stale_writes(self, node: NodeId) -> Sim {
        if self.leader() == Some(node) && self.has_stale_round() {
            let s = Sim { rounds: self.rounds.filter(|r: Round| !self.stale(r)), ..self };
            if self.cfg.write_disruptive {
                s.thaw_all(self.nodes.len() as int)
            } else {
                s
            }
        } else {
            self
        }
    }

    /// Thaw the first `k` nodes.
    pub open spec fn thaw_all(self, k: int) -> Sim
        decreases k,
    {
        if k <= 0 {
            self
        } else {
            self.thaw_all(k - 1).thaw_and_reguard((k - 1) as usize)
        }
    }

    /// Suspend, for a disruptive write, every lease `node` takes part in — the
    /// write *is* the revocation, so a torn-down lease must be re-established from
    /// scratch, paying the guard round-trips again. Done on each node as it learns
    /// of the write (the leader as it opens the round, every peer as it receives
    /// the `Write`), so both endpoints of each lease get torn down as their nodes
    /// are notified.
    #[verifier::opaque]
    pub open spec fn suspend_reads(self, node: NodeId) -> Sim {
        self.with_node(node, NodeState { write_frozen: true, ..self.nodes[node as int] }).suspend(
            node,
            self.leases.len() as int,
        )
    }

    /// Tear down what `node` takes part in among the first `k` leases.
    pub open spec fn suspend(self, node: NodeId, k: int) -> Sim
        decreases k,
    {
        if k <= 0 {
            self
        } else {
            self.suspend(node, k - 1).suspend_hold(node, k - 1).suspend_grant(node, k - 1)
        }
    }

    /// As grantee (a read it holds): drop an active/guarding hold to `Expired`;
    /// being frozen then makes the node ignore renews until the `Commit` (or a
    /// timeout) thaws it.
    pub open spec fn suspend_hold(self, node: NodeId, i: int) -> Sim {
        let l = self.leases[i];
        if l.id.grantee == node && l.holding() {
            self.with_grantee(
                i,
                GranteeState {
                    status: LeaseStatus::Expired,
                    hold_expiry: self.local(node) as Time,
                    ..l.grantee
                },
            ).emit(EventKind::GranteeLease { lease: l.id, status: LeaseStatus::Expired })
        } else {
            self
        }
    }

    /// As grantor (a grant it makes): reset an active/guarding grant to
    /// `Inactive`, stop renewing, and mark it `reguard_on_thaw` so the `Commit`
    /// re-opens a fresh **guard** deterministically — rather than a bare renew
    /// silently re-activating a still-`Active` grant with no guard phase. It
    /// keeps its outstanding `D'` and simply stops extending it (safe to drop
    /// idle).
    pub open spec fn suspend_grant(self, node: NodeId, i: int) -> Sim {
        let l = self.leases[i];
        if l.id.grantor == node && l.granting() {
            self.with_grantor(
                i,
                GrantorState {
                    status: LeaseStatus::Inactive,
                    intended: false,
                    reguard_on_thaw: true,
                    ..l.grantor
                },
            ).emit(EventKind::GrantorLease { lease: l.id, status: LeaseStatus::Inactive })
        } else {
            self
        }
    }

    // ---- Running ----------------------------------------------------------

    /// What a scheduled item does when its time has come.
    pub open spec fn handle(self, item: Scheduled) -> Sim {
        match item {
            Scheduled::Poll { node } => self.poll(node),
            Scheduled::Send { from, to, kind, tag } => self.try_send(from, to, kind, tag),
            Scheduled::Arrival { from, to, kind, tag, fate } => self.arrive(
                from,
                to,
                kind,
                tag,
                fate,
            ),
            Scheduled::Command(cmd) => self.apply(cmd),
            Scheduled::WriteTick => self.write_tick(),
        }
    }

    /// Time moves to the first entry of the timeline, and the entry is taken off.
    pub open spec fn popped(self) -> Sim {
        Sim { now: self.queue[0].at, queue: self.queue.drop_first(), ..self }
    }

    /// The first item of the timeline takes effect.
    pub open spec fn step(self) -> Sim {
        self.popped().handle(self.queue[0].item)
    }

    /// Whether nothing is due up to time `t`.
    pub open spec fn settled(self, t: int) -> bool {
        self.queue.len() == 0 || self.queue[0].at > t
    }

    /// The first `n` items that are due up to time `t` take effect.
    pub open spec fn steps(self, t: int, n: nat) -> Sim
        decreases n,
    {
        if n == 0 || self.settled(t) {
            self
        } else {
            self.step().steps(t, (n - 1) as nat)
        }
    }

    /// Everything that is due up to time `t` takes effect.
    pub open spec fn run(self, t: int) -> Sim {
        self.steps(t, choose|n: nat| #[trigger] self.steps(t, n).settled(t))
    }

    /// The time that advancing to `t` runs up to: not past the end of the run.
    pub open spec fn target(self, t: int) -> int {
        min_of(t, self.cfg.duration as int)
    }

    /// The simulation moves forward to time `t`: everything due takes effect, the
    /// clock moves on, and messages that have arrived by then are forgotten. The
    /// events produced are still pending.
    pub open spec fn advanced(self, t: int) -> Sim {
        let s = self.run(self.target(t));
        let now = max_of(s.now as int, self.target(t)) as Time;
        Sim { now, in_flight: s.in_flight.filter(|m: InFlight| m.arrival > now), ..s }
    }

    /// The pending events are handed out.
    pub open spec fn taken(self) -> Sim {
        Sim { pending: Seq::empty(), ..self }
    }

    // ---- Starting ---------------------------------------------------------

    /// Nothing scheduled yet.
    pub open spec fn blank(cfg: Config, normal: spec_fn(NormalDraw) -> Time) -> Sim {
        Sim {
            cfg,
            normal,
            rng: RngState::seeded(cfg.seed),
            now: 0,
            queue: Seq::empty(),
            nodes: Seq::new(cfg.nodes.len(), |i: int| NodeState { up: true, write_frozen: false }),
            leases: cfg.leases.map_values(|id: LeaseId| fresh_lease(id)),
            in_flight: Seq::empty(),
            pending: Seq::empty(),
            rounds: Seq::empty(),
            next_write_id: 0,
        }
    }

    /// The first poll of each of the first `k` nodes is scheduled.
    pub open spec fn with_polls(self, k: int) -> Sim
        decreases k,
    {
        if k <= 0 {
            self
        } else {
            self.with_polls(k - 1).schedule(0, Scheduled::Poll { node: (k - 1) as usize })
        }
    }

    /// The first `k` scripted commands are scheduled.
    pub open spec fn with_commands(self, k: int) -> Sim
        decreases k,
    {
        if k <= 0 {
            self
        } else {
            self.with_commands(k - 1).schedule(
                self.cfg.commands[k - 1].0 as int,
                Scheduled::Command(self.cfg.commands[k - 1].1),
            )
        }
    }

    /// If writes are enabled, the first leader write tick is armed.
    pub open spec fn with_first_write(self) -> Sim {
        match self.cfg.write_interval {
            Some(iv) => self.after_jitter(iv as int).schedule(
                self.jittered(iv as int),
                Scheduled::WriteTick,
            ),
            None => self,
        }
    }

    /// A scenario at its start: each node's first poll and the scripted commands
    /// are scheduled.
    pub open spec fn initial(cfg: Config, normal: spec_fn(NormalDraw) -> Time) -> Sim {
        Sim::blank(cfg, normal).with_polls(cfg.nodes.len() as int).with_commands(
            cfg.commands.len() as int,
        ).with_first_write()
    }
}

/// A lease whose grantor, if it is `node`, has stopped intending it.
pub open spec fn unintended(l: LeaseState, node: NodeId) -> LeaseState {
    if l.id.grantor == node {
        LeaseState { grantor: GrantorState { intended: false, ..l.grantor }, ..l }
    } else {
        l
    }
}

/// A lease after its grantor, if it is `node`, gave up a guard that went
/// unanswered for a whole guard window.
pub open spec fn guard_given_up(l: LeaseState, node: NodeId, local: int, window: int) -> LeaseState {
    if l.id.grantor == node && l.grantor.status == LeaseStatus::Guarding && local
        - l.grantor.guard_since >= window {
        LeaseState {
            grantor: GrantorState { status: LeaseStatus::Inactive, intended: false, ..l.grantor },
            ..l
        }
    } else {
        l
    }
}

/// A lease after its grantor, if it is `node`, gave up renewing towards a
/// grantee that has gone silent.
pub open spec fn renew_given_up(l: LeaseState, node: NodeId, local: int) -> LeaseState {
    if l.id.grantor == node && l.grantor.status == LeaseStatus::Active && l.grantor.intended
        && local - l.grantor.last_reply >= RENEW_REPLY_TIMEOUT {
        LeaseState { grantor: GrantorState { intended: false, ..l.grantor }, ..l }
    } else {
        l
    }
}

} // verus!
