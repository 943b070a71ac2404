//! Discrete-event simulation engine and the one-to-one lease state machine.
//!
//! The engine advances by draining an internal timeline of scheduled items
//! (message sends, arrivals, per-node polls, and driving commands) up to a
//! requested global time, emitting a time-ordered stream of [`Event`]s as side
//! effects. What each item does is stated by the model in [`crate::sim`]; every
//! function here is proved to do exactly that.

use crate::clock::Time;
use crate::dist::{sampled, samples_within, Dist, NormalDraw};
use crate::event::{Command, Event, EventKind, LeaseId, LeaseStatus, MsgFate, MsgKind, NodeId};
use crate::frame::{
    msg_shape, node_shape, share_of, under_way, Fraction, Frame, LeaseBar, MsgShape, NodeShape,
    NodeViz,
};
use crate::prob::Prob;
use crate::progress::{
    law_events_are_time_ordered, lemma_advanced, lemma_blank, lemma_run_is, lemma_steps_next,
    lemma_steps_ok, sized,
};
use crate::rng::Rng;
use crate::scenario::{
    command_valid, delay_valid, lemma_readings_within_limit, within_limit, LeaseParams, LinkConfig,
    Scenario, LIMIT,
};
use crate::sim::{
    fresh_lease, guard_given_up, jitter_span, lease_position, max_of, min_of, renew_given_up,
    round_position, smallest_grantee, unintended, GranteeState, GrantorState, InFlight, LeaseState,
    NodeState, Round, Sim, WriteRound, POLL_INTERVAL, RENEW_REPLY_TIMEOUT, WRITE_ROUND_TIMEOUT,
};
use crate::timeline::{schedule_entry, Scheduled, Timed};
use crate::upkeep::{
    due, item_ok, lemma_abort_stale_writes, lemma_arrival, lemma_broadcast, lemma_delay, lemma_draw,
    lemma_emit, lemma_expire_stale_guards, lemma_expire_stale_renews, lemma_fail_node,
    lemma_fault_trial, lemma_jittered, lemma_leader, lemma_link_delay, lemma_local,
    lemma_maybe_initiate, lemma_parties, lemma_popped, lemma_recompute_grantor,
    lemma_recompute_statuses, lemma_reguard, lemma_rounds_filter, lemma_schedule, lemma_send,
    lemma_service_grants, lemma_step, lemma_suspend, lemma_suspend_hold, lemma_suspend_reads,
    lemma_tend, lemma_thaw_all, lemma_thaw_and_reguard, lemma_with_grantee, lemma_with_grantor,
    lemma_with_node, message_ok, normal_ok, within,
};
use std::collections::BTreeSet;
use vstd::prelude::*;

verus! {

/// The simulation engine. Construct via [`Engine::new`], then drive it forward
/// with [`Engine::advance_to`], optionally injecting [`Command`]s.
pub struct Engine<F> {
    scenario: Scenario,
    /// Turns the draws behind a Gaussian delay into ticks.
    normal: F,
    rng: Rng,
    now: Time,
    queue: Vec<Timed>,
    nodes: Vec<NodeState>,
    leases: Vec<LeaseState>,
    /// Messages currently in flight, for frame interpolation. Pruned lazily.
    in_flight: Vec<InFlight>,
    /// Events produced but not yet returned to the caller.
    pending: Vec<Event>,
    /// The leader's write rounds still awaiting commit. Disruptive writes run one
    /// at a time (at most one entry); non-disruptive writes may overlap, so this
    /// holds several. Keyed implicitly by each round's `id`.
    write_rounds: Vec<WriteRound>,
    /// Source of write ids.
    next_write_id: usize,
}

impl<F: Fn(NormalDraw) -> Time> View for Engine<F> {
    type V = Sim;

    closed spec fn view(&self) -> Sim {
        Sim {
            cfg: self.scenario@,
            normal: sampled(self.normal),
            rng: self.rng@,
            now: self.now,
            queue: self.queue@,
            nodes: self.nodes@,
            leases: self.leases@,
            in_flight: self.in_flight@,
            pending: self.pending@,
            rounds: self.write_rounds@.map_values(|r: WriteRound| r@),
            next_write_id: self.next_write_id,
        }
    }
}

impl<F: Fn(NormalDraw) -> Time> Engine<F> {
    /// The Gaussian sampler answers every draw, and always the same.
    pub closed spec fn sampler_ok(&self) -> bool {
        samples_within(self.normal, LIMIT as int)
    }

    /// The engine is in the middle of a tick.
    spec fn inv(&self) -> bool {
        &&& self@.ok()
        &&& self.sampler_ok()
        &&& self.nodes@.len() <= usize::MAX
        &&& self.leases@.len() <= usize::MAX
    }

    /// The engine is between two calls: its state is one that a run can be in,
    /// and every event has been handed out.
    pub open spec fn wf(&self) -> bool {
        &&& self@.ok()
        &&& self.sampler_ok()
        &&& self@.pending.len() == 0
        &&& self@.nodes.len() <= usize::MAX
        &&& self@.leases.len() <= usize::MAX
    }

    fn schedule(&mut self, at: Time, item: Scheduled)
        requires
            old(self).inv(),
            item_ok(old(self)@.cfg, item),
        ensures
            final(self).inv(),
            final(self)@ == old(self)@.schedule(at as int, item),
    {
        proof {
            lemma_schedule(self@, at as int, item);
        }
        let at: Time = if at < self.now {
            self.now
        } else {
            at
        };
        schedule_entry(&mut self.queue, Timed { at, item });
    }

    fn emit(&mut self, kind: EventKind)
        requires
            old(self).inv(),
        ensures
            final(self).inv(),
            final(self)@ == old(self)@.emit(kind),
    {
        proof {
            lemma_emit(self@, kind);
        }
        self.pending.push(Event { at: self.now, kind });
    }

    fn params(&self) -> (r: LeaseParams)
        ensures
            r == self@.params(),
    {
        self.scenario.params
    }

    /// Local clock reading for a node at the current global time.
    fn local(&self, node: NodeId) -> (r: Time)
        requires
            self.inv(),
            node < self@.nodes.len(),
        ensures
            r == self@.local(node),
            within_limit(r as int),
    {
        proof {
            lemma_local(self@, node);
        }
        self.scenario.nodes[node].clock.local(self.now)
    }

    /// Bernoulli trial.
    fn chance(&mut self, p: Prob) -> (r: bool)
        requires
            old(self).inv(),
        ensures
            final(self).inv(),
            r == old(self)@.rng.hit(p),
            final(self)@ == old(self)@.draw(),
    {
        proof {
            lemma_draw(self@, self@.rng.next());
        }
        self.rng.chance(p)
    }

    fn sample(&mut self, dist: Dist) -> (r: Time)
        requires
            old(self).inv(),
            delay_valid(dist),
        ensures
            final(self).inv(),
            r == dist.drawn(old(self)@.rng, old(self)@.normal),
            0 <= r <= LIMIT,
            final(self)@ == (Sim { rng: dist.rng_after(old(self)@.rng), ..old(self)@ }),
    {
        proof {
            lemma_delay(dist, self@.rng, self@.normal);
            lemma_draw(self@, dist.rng_after(self@.rng));
        }
        dist.sample(&mut self.rng, &self.normal)
    }

    fn set_grantor(&mut self, i: usize, grantor: GrantorState)
        requires
            i < old(self)@.leases.len(),
            old(self)@.with_grantor(i as int, grantor).ok(),
            old(self).inv(),
        ensures
            final(self).inv(),
            final(self)@ == old(self)@.with_grantor(i as int, grantor),
    {
        let mut l = self.leases[i];
        l.grantor = grantor;
        self.leases[i] = l;
    }

    fn set_grantee(&mut self, i: usize, grantee: GranteeState)
        requires
            i < old(self)@.leases.len(),
            old(self)@.with_grantee(i as int, grantee).ok(),
            old(self).inv(),
        ensures
            final(self).inv(),
            final(self)@ == old(self)@.with_grantee(i as int, grantee),
    {
        let mut l = self.leases[i];
        l.grantee = grantee;
        self.leases[i] = l;
    }

    fn set_node(&mut self, node: NodeId, state: NodeState)
        requires
            node < old(self)@.nodes.len(),
            old(self).inv(),
        ensures
            final(self).inv(),
            final(self)@ == old(self)@.with_node(node, state),
    {
        proof {
            lemma_with_node(self@, node, state);
        }
        self.nodes[node] = state;
    }

    /// Send a message `from -> to` now, sampling delay and drop from the link.
    /// The `MessageSent` event fires immediately; the (delivered-or-dropped)
    /// arrival is scheduled so its event lands in time order.
    fn send(&mut self, from: NodeId, to: NodeId, kind: MsgKind, tag: usize)
        requires
            old(self).inv(),
            message_ok(old(self)@.cfg, from, to, kind, tag),
        ensures
            final(self).inv(),
            final(self)@ == old(self)@.send(from, to, kind, tag),
    {
        proof {
            reveal(Sim::send);
            lemma_send(self@, from, to, kind, tag);
            lemma_arrival(self@, from, to);
            lemma_link_delay(self@.cfg, from, to);
        }
        let ghost s0 = self@;
        let link: LinkConfig = self.scenario.link_config(from, to);
        let sent: Time = self.now;
        // A message is lost to a partition, or to either the link's own drop
        // chance or this kind's — combined into one independent probability
        // `1 - (1-a)(1-b)` so a single RNG draw keeps determinism footprint low.
        // A kind's drop only applies from its `kind_drop_from` tick onward, so a
        // scenario can establish cleanly and then begin losing a kind.
        let k: usize = kind.index();
        let kind_drop: Prob = if sent >= self.scenario.kind_drop_from[k] {
            self.scenario.kind_drop[k]
        } else {
            Prob::never()
        };
        let drop_chance: Prob = link.drop_chance.either(kind_drop);
        assert(drop_chance == s0.loss(from, to, kind));
        let dropped: bool = link.partitioned || self.chance(drop_chance);
        assert(dropped == s0.loses(from, to, kind));
        let delay: Time = self.sample(link.delay);
        let delay: Time = if delay < 1 {
            1
        } else {
            delay
        };
        let arrival: Time = sent + delay;
        assert(arrival == s0.arrival_of(from, to));
        let fate: MsgFate = if dropped {
            MsgFate::Dropped
        } else {
            MsgFate::Delivered
        };
        self.in_flight.push(InFlight { from, to, kind, sent, arrival, fate });
        let ghost s1 = self@;
        assert(s1 == (Sim {
            rng: s0.cfg.link(from, to).delay.rng_after(s0.rng_after_loss(from, to)),
            in_flight: s0.in_flight.push(InFlight { from, to, kind, sent, arrival, fate }),
            ..s0
        }));
        self.emit(EventKind::MessageSent { from, to, kind, sent, arrival, fate });
        self.schedule(arrival, Scheduled::Arrival { from, to, kind, tag, fate });
    }

    /// A previously deferred send fires. Skipped if the sender is down, modeling
    /// a node that crashed after receiving but before replying.
    fn try_send(&mut self, from: NodeId, to: NodeId, kind: MsgKind, tag: usize)
        requires
            old(self).inv(),
            message_ok(old(self)@.cfg, from, to, kind, tag),
        ensures
            final(self).inv(),
            final(self)@ == old(self)@.try_send(from, to, kind, tag),
    {
        if self.nodes[from].up {
            self.send(from, to, kind, tag);
        }
    }

    /// Schedule `from` to send `kind` after `from`'s own processing delay. Used
    /// for replies, whose latency is the responder's think time.
    fn reply_after_delay(&mut self, from: NodeId, to: NodeId, kind: MsgKind, tag: usize)
        requires
            old(self).inv(),
            kind.is_reply(),
            message_ok(old(self)@.cfg, from, to, kind, tag),
        ensures
            final(self).inv(),
            final(self)@ == old(self)@.reply_after_delay(from, to, kind, tag),
    {
        proof {
            reveal(Sim::reply_after_delay);
        }
        let delay: Time = self.response_delay(from);
        let at: Time = self.now + delay;
        self.schedule(at, Scheduled::Send { from, to, kind, tag });
    }

    /// Response delay for a node, sampled from its config.
    fn response_delay(&mut self, node: NodeId) -> (r: Time)
        requires
            old(self).inv(),
            node < old(self)@.nodes.len(),
        ensures
            final(self).inv(),
            ({
                let dist = old(self)@.cfg.nodes[node as int].response_delay;
                &&& r == dist.drawn(old(self)@.rng, old(self)@.normal)
                &&& final(self)@ == (Sim { rng: dist.rng_after(old(self)@.rng), ..old(self)@ })
            }),
            0 <= r <= LIMIT,
    {
        let dist: Dist = self.scenario.nodes[node].response_delay;
        self.sample(dist)
    }

    fn broadcast(&mut self, from: NodeId, kind: MsgKind, tag: usize)
        requires
            old(self).inv(),
            kind.is_write_path(),
            from < old(self)@.nodes.len(),
        ensures
            final(self).inv(),
            final(self)@ == old(self)@.broadcast(
                from,
                kind,
                tag,
                old(self)@.nodes.len() as int,
            ),
    {
        let ghost s0 = self@;
        let n: usize = self.nodes.len();
        let mut to: usize = 0;
        while to < n
            invariant
                to <= n,
                n == s0.nodes.len(),
                s0.ok(),
                self.inv(),
                kind.is_write_path(),
                from < n,
                self@ == s0.broadcast(from, kind, tag, to as int),
            decreases n - to,
        {
            proof {
                lemma_broadcast(s0, from, kind, tag, to as int);
            }
            if to != from {
                self.send(from, to, kind, tag);
            }
            to = to + 1;
        }
    }

    // ---- Driving commands -------------------------------------------------

    fn apply(&mut self, cmd: Command)
        requires
            old(self).inv(),
            command_valid(cmd, old(self)@.nodes.len()),
        ensures
            final(self).inv(),
            final(self)@ == old(self)@.apply(cmd),
    {
        proof {
            reveal(Sim::apply);
        }
        match cmd {
            Command::Initiate(id) => {
                if let Some(i) = self.lease_index(id) {
                    proof {
                        lemma_parties(self@, i as int);
                    }
                    if self.nodes[id.grantor].up && self.grantor_idle(i) {
                        self.begin_guard(i);
                    }
                }
            },
            Command::Revoke(id) => {
                if let Some(i) = self.lease_index(id) {
                    proof {
                        lemma_parties(self@, i as int);
                    }
                    if self.nodes[id.grantor].up && self.grantor_active_or_guarding(i) {
                        self.begin_revoke(i);
                    }
                }
            },
            Command::FailNode(node) => {
                if self.nodes[node].up {
                    self.fail_node(node);
                }
            },
            Command::RecoverNode(node) => {
                if !self.nodes[node].up {
                    self.recover_node(node);
                }
            },
            Command::Write => self.serve_write(),
        }
    }

    fn lease_index(&self, id: LeaseId) -> (r: Option<usize>)
        requires
            self.inv(),
        ensures
            match r {
                Some(i) => i < self@.leases.len() && i == self@.lease_index(id)
                    && self@.leases[i as int].id == id && self@.declared(id),
                None => !self@.declared(id),
            },
    {
        let mut k: usize = 0;
        while k < self.leases.len()
            invariant
                k <= self.leases@.len(),
                self@.lease_index(id) == lease_position(self@.leases, id, k as int),
            decreases self.leases@.len() - k,
        {
            if self.leases[k].id == id {
                return Some(k);
            }
            k = k + 1;
        }
        None
    }

    fn grantor_idle(&self, i: usize) -> (r: bool)
        requires
            i < self@.leases.len(),
        ensures
            r == self@.leases[i as int].idle(),
    {
        matches!(self.leases[i].grantor.status, LeaseStatus::Inactive | LeaseStatus::Expired)
    }

    fn grantor_active_or_guarding(&self, i: usize) -> (r: bool)
        requires
            i < self@.leases.len(),
        ensures
            r == self@.leases[i as int].granting(),
    {
        matches!(self.leases[i].grantor.status, LeaseStatus::Active | LeaseStatus::Guarding)
    }

    fn grantee_active_or_guarding(&self, i: usize) -> (r: bool)
        requires
            i < self@.leases.len(),
        ensures
            r == self@.leases[i as int].holding(),
    {
        matches!(self.leases[i].grantee.status, LeaseStatus::Active | LeaseStatus::Guarding)
    }

    // ---- Failure & recovery ----------------------------------------------

    fn fail_node(&mut self, node: NodeId)
        requires
            old(self).inv(),
            node < old(self)@.nodes.len(),
        ensures
            final(self).inv(),
            final(self)@ == old(self)@.fail_node(node),
    {
        let ghost s0 = self@;
        proof {
            reveal(Sim::fail_node);
            lemma_fail_node(self@, node);
        }
        let mut state: NodeState = self.nodes[node];
        state.up = false;
        self.set_node(node, state);
        self.emit(EventKind::NodeFailed { node });
        // A failed grantor stops renewing; its leases will lapse safely.
        let ghost s1 = self@;
        let mut i: usize = 0;
        while i < self.leases.len()
            invariant
                0 <= i <= self.leases@.len(),
                self@ == (Sim { leases: self@.leases, ..s1 }),
                self.leases@.len() == s0.leases.len(),
                self.sampler_ok(),
                self.nodes@.len() <= usize::MAX,
                forall|j: int| 0 <= j < i ==> self.leases@[j] == unintended(s0.leases[j], node),
                forall|j: int| i <= j < s0.leases.len() ==> self.leases@[j] == s0.leases[j],
            decreases self.leases@.len() - i,
        {
            if self.leases[i].id.grantor == node {
                let mut l = self.leases[i];
                l.grantor.intended = false;
                self.leases[i] = l;
            }
            i = i + 1;
        }
        assert(self@.leases =~= s0.leases.map_values(|l: LeaseState| unintended(l, node)));
    }

    fn recover_node(&mut self, node: NodeId)
        requires
            old(self).inv(),
            node < old(self)@.nodes.len(),
        ensures
            final(self).inv(),
            final(self)@ == old(self)@.recover_node(node),
    {
        proof {
            reveal(Sim::recover_node);
        }
        let mut state: NodeState = self.nodes[node];
        state.up = true;
        self.set_node(node, state);
        self.emit(EventKind::NodeRecovered { node });
    }

    // ---- Periodic per-node poll ------------------------------------------

    fn fault_trial(&mut self, node: NodeId)
        requires
            old(self).inv(),
            node < old(self)@.nodes.len(),
        ensures
            final(self).inv(),
            final(self)@ == old(self)@.fault_trial(node),
    {
        proof {
            reveal(Sim::fault_trial);
        }
        if self.nodes[node].up {
            let p: Prob = self.scenario.nodes[node].fail_chance;
            if self.chance(p) {
                self.fail_node(node);
            }
        } else {
            let p: Prob = self.scenario.nodes[node].recover_chance;
            if self.chance(p) {
                self.recover_node(node);
            }
        }
    }

    fn tend(&mut self, node: NodeId)
        requires
            old(self).inv(),
            node < old(self)@.nodes.len(),
        ensures
            final(self).inv(),
            final(self)@ == old(self)@.tend(node),
    {
        proof {
            reveal(Sim::tend);
            lemma_abort_stale_writes(self@, node);
        }
        self.abort_stale_writes(node);
        proof {
            lemma_expire_stale_guards(self@, node);
        }
        self.expire_stale_guards(node);
        proof {
            lemma_expire_stale_renews(self@, node);
        }
        self.expire_stale_renews(node);
        proof {
            lemma_maybe_initiate(self@, node, self@.leases.len() as int);
        }
        self.maybe_initiate(node);
        self.service_grants(node);
    }

    fn poll(&mut self, node: NodeId)
        requires
            old(self).inv(),
            node < old(self)@.nodes.len(),
        ensures
            final(self).inv(),
            final(self)@ == old(self)@.poll(node),
    {
        proof {
            reveal(Sim::poll);
            lemma_fault_trial(self@, node);
        }
        self.fault_trial(node);
        proof {
            lemma_tend(self@, node);
        }
        if self.nodes[node].up {
            self.tend(node);
        }
        proof {
            lemma_recompute_statuses(self@, node, self@.leases.len() as int);
        }
        self.recompute_statuses(node);

        // Reschedule the next poll while the simulation is still running.
        let next: Time = self.now + POLL_INTERVAL;
        if next <= self.scenario.duration {
            self.schedule(next, Scheduled::Poll { node });
        }
    }

    /// Abandon any guard attempt this node opened that has gone unanswered for a
    /// whole guard phase.
    fn expire_stale_guards(&mut self, node: NodeId)
        requires
            old(self).inv(),
            node < old(self)@.nodes.len(),
        ensures
            final(self).inv(),
            final(self)@ == old(self)@.expire_stale_guards(node),
    {
        let ghost s0 = self@;
        proof {
            reveal(Sim::expire_stale_guards);
            lemma_expire_stale_guards(self@, node);
        }
        let local: Time = self.local(node);
        let guard_window: Time = self.params().guard_window();
        let mut i: usize = 0;
        while i < self.leases.len()
            invariant
                0 <= i <= self.leases@.len(),
                s0.ok(),
                self@ == (Sim { leases: self@.leases, ..s0 }),
                self.leases@.len() == s0.leases.len(),
                self.sampler_ok(),
                self.nodes@.len() <= usize::MAX,
                within_limit(local as int),
                forall|j: int|
                    0 <= j < i ==> self.leases@[j] == guard_given_up(
                        s0.leases[j],
                        node,
                        local as int,
                        guard_window as int,
                    ),
                forall|j: int| i <= j < s0.leases.len() ==> self.leases@[j] == s0.leases[j],
            decreases self.leases@.len() - i,
        {
            let mut l = self.leases[i];
            assert(l == s0.leases[i as int]);
            if l.id.grantor == node && l.grantor.status == LeaseStatus::Guarding && local
                - l.grantor.guard_since >= guard_window {
                l.grantor.status = LeaseStatus::Inactive;
                l.grantor.intended = false;
                self.leases[i] = l;
            }
            i = i + 1;
        }
        assert(self@.leases =~= s0.leases.map_values(
            |l: LeaseState| guard_given_up(l, node, local as int, guard_window as int),
        ));
    }

    /// Give up renewing an `Active` lease whose grantee has gone silent for
    /// [`RENEW_REPLY_TIMEOUT`] grantor-local ticks.
    fn expire_stale_renews(&mut self, node: NodeId)
        requires
            old(self).inv(),
            node < old(self)@.nodes.len(),
        ensures
            final(self).inv(),
            final(self)@ == old(self)@.expire_stale_renews(node),
    {
        let ghost s0 = self@;
        proof {
            reveal(Sim::expire_stale_renews);
            lemma_expire_stale_renews(self@, node);
        }
        let local: Time = self.local(node);
        let mut i: usize = 0;
        while i < self.leases.len()
            invariant
                0 <= i <= self.leases@.len(),
                s0.ok(),
                self@ == (Sim { leases: self@.leases, ..s0 }),
                self.leases@.len() == s0.leases.len(),
                self.sampler_ok(),
                self.nodes@.len() <= usize::MAX,
                within_limit(local as int),
                forall|j: int|
                    0 <= j < i ==> self.leases@[j] == renew_given_up(
                        s0.leases[j],
                        node,
                        local as int,
                    ),
                forall|j: int| i <= j < s0.leases.len() ==> self.leases@[j] == s0.leases[j],
            decreases self.leases@.len() - i,
        {
            let mut l = self.leases[i];
            assert(l == s0.leases[i as int]);
            if l.id.grantor == node && l.grantor.status == LeaseStatus::Active
                && l.grantor.intended && local - l.grantor.last_reply >= RENEW_REPLY_TIMEOUT {
                l.grantor.intended = false;
                self.leases[i] = l;
            }
            i = i + 1;
        }
        assert(self@.leases =~= s0.leases.map_values(
            |l: LeaseState| renew_given_up(l, node, local as int),
        ));
    }

    /// A node may spontaneously start a lease it grants but has not activated. A
    /// node frozen for an in-progress disruptive write does not initiate.
    fn maybe_initiate(&mut self, node: NodeId)
        requires
            old(self).inv(),
            node < old(self)@.nodes.len(),
        ensures
            final(self).inv(),
            final(self)@ == old(self)@.maybe_initiate(node, old(self)@.leases.len() as int),
    {
        if self.nodes[node].write_frozen {
            return;
        }
        let ghost s0 = self@;
        let p: Prob = self.scenario.nodes[node].initiate_chance;
        let mut i: usize = 0;
        while i < self.leases.len()
            invariant
                0 <= i <= self.leases@.len(),
                self.leases@.len() == s0.leases.len(),
                s0.ok(),
                !s0.nodes[node as int].write_frozen,
                node < s0.nodes.len(),
                p == s0.cfg.nodes[node as int].initiate_chance,
                self.inv(),
                self@ == s0.maybe_initiate(node, i as int),
            decreases self.leases@.len() - i,
        {
            proof {
                lemma_maybe_initiate(s0, node, i as int);
                lemma_maybe_initiate(s0, node, i + 1);
            }
            if self.leases[i].id.grantor == node && self.grantor_idle(i) && self.chance(p) {
                self.begin_guard(i);
            }
            i = i + 1;
        }
    }

    /// Send the `Guard` that opens a lease's guard phase.
    fn begin_guard(&mut self, i: usize)
        requires
            old(self).inv(),
            i < old(self)@.leases.len(),
        ensures
            final(self).inv(),
            final(self)@ == old(self)@.begin_guard(i),
    {
        proof {
            reveal(Sim::begin_guard);
            lemma_parties(self@, i as int);
        }
        let id: LeaseId = self.leases[i].id;
        let mut g: GrantorState = self.leases[i].grantor;
        g.status = LeaseStatus::Guarding;
        g.intended = true;
        // Fresh guard phase: no renew is outstanding yet, and any pending
        // re-guard-on-thaw request is now satisfied.
        g.awaiting_reply = false;
        g.reguard_on_thaw = false;
        g.guard_since = self.local(id.grantor);
        proof {
            lemma_with_grantor(self@, i as int, g);
        }
        self.set_grantor(i, g);
        self.send(id.grantor, id.grantee, MsgKind::Guard, i);
    }

    /// Proactively revoke a lease: stop renewing and notify the grantee.
    fn begin_revoke(&mut self, i: usize)
        requires
            old(self).inv(),
            i < old(self)@.leases.len(),
        ensures
            final(self).inv(),
            final(self)@ == old(self)@.begin_revoke(i),
    {
        proof {
            reveal(Sim::begin_revoke);
            lemma_parties(self@, i as int);
        }
        let id: LeaseId = self.leases[i].id;
        let mut g: GrantorState = self.leases[i].grantor;
        g.intended = false;
        proof {
            lemma_with_grantor(self@, i as int, g);
        }
        self.set_grantor(i, g);
        self.send(id.grantor, id.grantee, MsgKind::Revoke, i);
    }

    /// Send due renews for leases this node grants and currently intends.
    fn service_grants(&mut self, node: NodeId)
        requires
            old(self).inv(),
            node < old(self)@.nodes.len(),
        ensures
            final(self).inv(),
            final(self)@ == old(self)@.service_grants(node, old(self)@.leases.len() as int),
    {
        let ghost s0 = self@;
        let mut i: usize = 0;
        while i < self.leases.len()
            invariant
                0 <= i <= self.leases@.len(),
                self.leases@.len() == s0.leases.len(),
                s0.ok(),
                node < s0.nodes.len(),
                self.inv(),
                self@ == s0.service_grants(node, i as int),
            decreases self.leases@.len() - i,
        {
            proof {
                lemma_service_grants(s0, node, i as int);
                lemma_service_grants(s0, node, i + 1);
            }
            let l: LeaseState = self.leases[i];
            if l.id.grantor == node && l.grantor.intended && l.grantor.status
                == LeaseStatus::Active && !l.grantor.awaiting_reply {
                let local: Time = self.local(node);
                if local >= l.grantor.next_renew_due {
                    self.send_renew(i);
                }
            }
            i = i + 1;
        }
    }

    /// Send a `Renew` and (re)arm the grantor's no-reply safe expiry.
    fn send_renew(&mut self, i: usize)
        requires
            old(self).inv(),
            i < old(self)@.leases.len(),
        ensures
            final(self).inv(),
            final(self)@ == old(self)@.send_renew(i),
    {
        proof {
            reveal(Sim::send_renew);
            lemma_parties(self@, i as int);
        }
        let id: LeaseId = self.leases[i].id;
        let p: LeaseParams = self.params();
        let b: Time = self.local(id.grantor);
        let provisional: Time = b + p.grant_span();
        let mut g: GrantorState = self.leases[i].grantor;
        if g.grant_expiry < provisional {
            g.grant_expiry = provisional;
        }
        g.next_renew_due = b + p.renew_interval;
        // One renew in flight: block further renews until this one is acked.
        g.awaiting_reply = true;
        proof {
            lemma_with_grantor(self@, i as int, g);
        }
        self.set_grantor(i, g);
        self.send(id.grantor, id.grantee, MsgKind::Renew, i);
    }

    // ---- Message arrival --------------------------------------------------

    fn arrive(&mut self, from: NodeId, to: NodeId, kind: MsgKind, tag: usize, fate: MsgFate)
        requires
            old(self).inv(),
            message_ok(old(self)@.cfg, from, to, kind, tag),
        ensures
            final(self).inv(),
            final(self)@ == old(self)@.arrive(from, to, kind, tag, fate),
    {
        proof {
            reveal(Sim::arrive);
        }
        if fate == MsgFate::Dropped {
            self.emit(EventKind::MessageDropped { from, to, kind });
            return;
        }
        self.emit(EventKind::MessageDelivered { from, to, kind });
        // A down node silently ignores everything it receives.
        if !self.nodes[to].up {
            return;
        }
        match kind {
            MsgKind::Guard => self.on_guard(tag),
            MsgKind::GuardReply => self.on_guard_reply(tag),
            MsgKind::Renew => self.on_renew(tag),
            MsgKind::RenewReply => self.on_renew_reply(tag),
            MsgKind::Revoke => self.on_revoke(tag),
            MsgKind::RevokeReply => self.on_revoke_reply(tag),
            // Write-path messages are cluster-wide, not lease-scoped: the tag
            // carries the write id instead.
            MsgKind::Write => self.on_write(from, to, tag),
            MsgKind::WriteReply => self.on_write_reply(from, tag),
            MsgKind::Commit => self.on_commit(to),
        }
    }

    /// Grantee receives `Guard`: record the acceptance window `A'` and reply.
    fn on_guard(&mut self, i: usize)
        requires
            old(self).inv(),
            i < old(self)@.leases.len(),
        ensures
            final(self).inv(),
            final(self)@ == old(self)@.on_guard(i),
    {
        proof {
            reveal(Sim::on_guard);
            lemma_parties(self@, i as int);
        }
        let id: LeaseId = self.leases[i].id;
        let a: Time = self.local(id.grantee);
        let mut g: GranteeState = self.leases[i].grantee;
        g.guard_deadline = a + self.params().guard_window();
        g.status = LeaseStatus::Guarding;
        proof {
            lemma_with_grantee(self@, i as int, g);
        }
        self.set_grantee(i, g);
        self.emit(EventKind::GranteeLease { lease: id, status: LeaseStatus::Guarding });
        self.reply_after_delay(id.grantee, id.grantor, MsgKind::GuardReply, i);
    }

    /// Grantor receives `GuardReply`: become active and send the first renew.
    fn on_guard_reply(&mut self, i: usize)
        requires
            old(self).inv(),
            i < old(self)@.leases.len(),
        ensures
            final(self).inv(),
            final(self)@ == old(self)@.on_guard_reply(i),
    {
        proof {
            reveal(Sim::on_guard_reply);
            lemma_parties(self@, i as int);
        }
        let id: LeaseId = self.leases[i].id;
        let mut g: GrantorState = self.leases[i].grantor;
        if g.status != LeaseStatus::Guarding {
            return;
        }
        g.status = LeaseStatus::Active;
        // Activation is the first proof the grantee is reachable; arm the
        // renew-reply liveness clock from here. `grant_expiry` (`D'`) is then set
        // by the first `send_renew` below.
        let d: Time = self.local(id.grantor);
        g.last_reply = d;
        g.next_renew_due = d;
        proof {
            lemma_with_grantor(self@, i as int, g);
        }
        self.set_grantor(i, g);
        self.emit(EventKind::GrantorLease { lease: id, status: LeaseStatus::Active });
        self.send_renew(i);
    }

    /// Grantee receives `Renew`: accept iff within the guard window (first time)
    /// or holding the lease (later on), and extend the hold expiry
    /// `C' = C + t_lease - t_delta`, then reply. A lapsed side ignores it.
    fn on_renew(&mut self, i: usize)
        requires
            old(self).inv(),
            i < old(self)@.leases.len(),
        ensures
            final(self).inv(),
            final(self)@ == old(self)@.on_renew(i),
    {
        proof {
            reveal(Sim::on_renew);
            lemma_parties(self@, i as int);
        }
        let id: LeaseId = self.leases[i].id;
        let p: LeaseParams = self.params();
        let c: Time = self.local(id.grantee);
        let mut g: GranteeState = self.leases[i].grantee;

        // A grantee that suspended its reads for an in-progress disruptive write
        // ignores renews until the `Commit` unfreezes it — this is what holds the
        // read lease down for the duration of the write.
        if self.nodes[id.grantee].write_frozen {
            return;
        }
        // The very first renew is only welcome inside the guarded window, a later
        // one only while the lease is held: what has lapsed, was revoked or was torn
        // down starts again with a fresh guard.

        let welcome: bool = match g.status {
            LeaseStatus::Active => true,
            LeaseStatus::Guarding => c < g.guard_deadline,
            _ => false,
        };
        if !welcome {
            return;
        }
        let was: LeaseStatus = g.status;
        g.hold_expiry = c + p.t_lease - p.t_delta;
        g.status = LeaseStatus::Active;
        proof {
            lemma_with_grantee(self@, i as int, g);
        }
        self.set_grantee(i, g);
        if was != LeaseStatus::Active {
            self.emit(EventKind::GranteeLease { lease: id, status: LeaseStatus::Active });
        }
        self.reply_after_delay(id.grantee, id.grantor, MsgKind::RenewReply, i);
    }

    /// Grantor receives `RenewReply`: tighten `D' = d + t_lease + t_delta`.
    fn on_renew_reply(&mut self, i: usize)
        requires
            old(self).inv(),
            i < old(self)@.leases.len(),
        ensures
            final(self).inv(),
            final(self)@ == old(self)@.on_renew_reply(i),
    {
        proof {
            reveal(Sim::on_renew_reply);
            lemma_parties(self@, i as int);
        }
        let id: LeaseId = self.leases[i].id;
        let mut g: GrantorState = self.leases[i].grantor;
        if g.status != LeaseStatus::Active {
            return;
        }
        let p: LeaseParams = self.params();
        let d: Time = self.local(id.grantor);
        let tightened: Time = d + p.t_lease + p.t_delta;
        // Shorten `D'` toward the tighter, confirmed-receipt bound (never below the
        // grantee's possible expiry, which `tightened` already dominates).
        if g.grant_expiry > tightened {
            g.grant_expiry = tightened;
        }
        // A reply proves the grantee is still reachable; refresh the liveness clock
        // so `expire_stale_renews` only fires on a genuinely silent link.
        g.last_reply = d;
        // This renew is now acked, so the next one may be sent when due.
        g.awaiting_reply = false;
        proof {
            lemma_with_grantor(self@, i as int, g);
        }
        self.set_grantor(i, g);
    }

    /// Grantee receives `Revoke`: drop the lease immediately and acknowledge.
    fn on_revoke(&mut self, i: usize)
        requires
            old(self).inv(),
            i < old(self)@.leases.len(),
        ensures
            final(self).inv(),
            final(self)@ == old(self)@.on_revoke(i),
    {
        proof {
            reveal(Sim::on_revoke);
            lemma_parties(self@, i as int);
        }
        let id: LeaseId = self.leases[i].id;
        if self.grantee_active_or_guarding(i) {
            let mut g: GranteeState = self.leases[i].grantee;
            g.status = LeaseStatus::Expired;
            g.hold_expiry = self.local(id.grantee);
            proof {
                lemma_with_grantee(self@, i as int, g);
            }
            self.set_grantee(i, g);
            self.emit(EventKind::GranteeLease { lease: id, status: LeaseStatus::Expired });
        }
        self.reply_after_delay(id.grantee, id.grantor, MsgKind::RevokeReply, i);
    }

    /// Grantor receives `RevokeReply`: the grantee confirmed it dropped the lease,
    /// so the grantor can leave the granting state at once.
    fn on_revoke_reply(&mut self, i: usize)
        requires
            old(self).inv(),
            i < old(self)@.leases.len(),
        ensures
            final(self).inv(),
            final(self)@ == old(self)@.on_revoke_reply(i),
    {
        proof {
            reveal(Sim::on_revoke_reply);
        }
        if !self.grantor_active_or_guarding(i) {
            return;
        }
        let id: LeaseId = self.leases[i].id;
        let mut g: GrantorState = self.leases[i].grantor;
        g.status = LeaseStatus::Expired;
        g.intended = false;
        proof {
            lemma_with_grantor(self@, i as int, g);
        }
        self.set_grantor(i, g);
        self.emit(EventKind::GrantorLease { lease: id, status: LeaseStatus::Expired });
    }

    // ---- Expiry detection -------------------------------------------------

    /// Recompute lease statuses for both roles `node` plays, emitting expiry
    /// transitions when a local clock has passed the relevant deadline.
    fn recompute_statuses(&mut self, node: NodeId)
        requires
            old(self).inv(),
            node < old(self)@.nodes.len(),
        ensures
            final(self).inv(),
            final(self)@ == old(self)@.recompute_statuses(node, old(self)@.leases.len() as int),
    {
        let ghost s0 = self@;
        let local: Time = self.local(node);
        let mut i: usize = 0;
        while i < self.leases.len()
            invariant
                0 <= i <= self.leases@.len(),
                self.leases@.len() == s0.leases.len(),
                s0.ok(),
                node < s0.nodes.len(),
                local == s0.local(node),
                self.inv(),
                self@ == s0.recompute_statuses(node, i as int),
            decreases self.leases@.len() - i,
        {
            proof {
                lemma_recompute_statuses(s0, node, i as int);
                lemma_recompute_statuses(s0, node, i + 1);
                lemma_recompute_grantor(self@, node, i as int);
            }
            let id: LeaseId = self.leases[i].id;
            let mut g: GrantorState = self.leases[i].grantor;
            if id.grantor == node && g.status == LeaseStatus::Active && local > g.grant_expiry {
                g.status = LeaseStatus::Expired;
                proof {
                    lemma_with_grantor(self@, i as int, g);
                }
                self.set_grantor(i, g);
                self.emit(EventKind::GrantorLease { lease: id, status: LeaseStatus::Expired });
            }
            let mut h: GranteeState = self.leases[i].grantee;
            // A grantee whose guard window (`A'`) lapses without an activating
            // first `Renew` — because that `Renew` was dropped or delayed — gives
            // up the guard instead of hanging in `Guarding` forever. This mirrors
            // the grantor-side `expire_stale_guards` timeout on the other end.
            if id.grantee == node && ((h.status == LeaseStatus::Active && local > h.hold_expiry)
                || (h.status == LeaseStatus::Guarding && local > h.guard_deadline)) {
                h.status = LeaseStatus::Expired;
                proof {
                    lemma_with_grantee(self@, i as int, h);
                }
                self.set_grantee(i, h);
                self.emit(EventKind::GranteeLease { lease: id, status: LeaseStatus::Expired });
            }
            i = i + 1;
        }
    }

    // ---- Write path ------------------------------------------------------

    /// `interval` perturbed by ±20% jitter (deterministic via the PRNG), floored
    /// at 1 tick. Used to space out leader write ticks so they don't land on a
    /// perfectly regular grid.
    fn jittered_interval(&mut self, interval: Time) -> (r: Time)
        requires
            old(self).inv(),
            within_limit(interval as int),
        ensures
            final(self).inv(),
            r == old(self)@.jittered(interval as int),
            1 <= r <= 2 * LIMIT,
            final(self)@ == old(self)@.after_jitter(interval as int),
    {
        proof {
            lemma_jittered(self@, interval as int);
            lemma_draw(self@, self@.after_jitter(interval as int).rng);
        }
        let fifth: Time = interval / 5;
        let span: Time = if fifth < 1 {
            1
        } else {
            fifth
        };
        assert(span == jitter_span(interval as int));
        let r: Time = interval + self.rng.next_range(-span, span);
        if r < 1 {
            1
        } else {
            r
        }
    }

    /// The current leader: the smallest-id node that is a grantee of some lease.
    /// `None` if no lease is declared.
    fn leader(&self) -> (r: Option<NodeId>)
        ensures
            r == self@.leader(),
    {
        let mut r: Option<NodeId> = None;
        let mut i: usize = 0;
        while i < self.leases.len()
            invariant
                0 <= i <= self.leases@.len(),
                r == smallest_grantee(self@.leases, i as int),
            decreases self.leases@.len() - i,
        {
            let g: NodeId = self.leases[i].id.grantee;
            r = match r {
                None => Some(g),
                Some(m) => Some(
                    if g < m {
                        g
                    } else {
                        m
                    },
                ),
            };
            i = i + 1;
        }
        r
    }

    /// The leader wakes to serve a write, then reschedules the next tick. In the
    /// disruptive path a fresh round is skipped while one is already outstanding
    /// (one write at a time); non-disruptive writes may overlap freely.
    fn write_tick(&mut self)
        requires
            old(self).inv(),
        ensures
            final(self).inv(),
            final(self)@ == old(self)@.write_tick(),
    {
        proof {
            reveal(Sim::write_tick);
        }
        // Reschedule the next tick first, so the cadence continues regardless.
        if let Some(iv) = self.scenario.write_interval {
            let next: Time = self.now + self.jittered_interval(iv);
            if next <= self.scenario.duration {
                self.schedule(next, Scheduled::WriteTick);
            }
        }
        self.serve_write();
    }

    /// Have the leader open one write round now (shared by the periodic `WriteTick`
    /// and the scripted `Command::Write`): only if there is a leader that is up,
    /// and — for disruptive writes — only one round at a time.
    fn serve_write(&mut self)
        requires
            old(self).inv(),
        ensures
            final(self).inv(),
            final(self)@ == old(self)@.serve_write(),
    {
        proof {
            lemma_leader(self@);
        }
        let leader: NodeId = match self.leader() {
            Some(leader) => leader,
            None => {
                return;
            },
        };
        if !self.nodes[leader].up {
            return;
        }
        if self.scenario.write_disruptive {
            // One disruptive round at a time.
            if self.write_rounds.len() == 0 {
                self.begin_write(leader);
            }
        } else {
            self.begin_write(leader);
        }
    }

    /// Leader opens a write round: allocate an id, record it, emit `WriteStarted`,
    /// and broadcast `Write`. In the disruptive path the leader also suspends the
    /// read leases it holds as a grantee and freezes itself; in the non-disruptive
    /// path its leases are left entirely untouched.
    fn begin_write(&mut self, leader: NodeId)
        requires
            old(self).inv(),
            leader < old(self)@.nodes.len(),
        ensures
            final(self).inv(),
            final(self)@ == old(self)@.begin_write(leader),
    {
        broadcast use vstd::std_specs::btree::group_btree_axioms;

        let ghost s0 = self@;
        proof {
            reveal(Sim::begin_write);
        }
        let id: usize = self.next_write_id;
        self.next_write_id = id.wrapping_add(1);
        let round = WriteRound { id, started: self.now, replied: BTreeSet::new() };
        let ghost opened_round = round@;
        self.write_rounds.push(round);
        proof {
            let r = Round { id, started: s0.now, replied: Set::empty() };
            assert(opened_round == r);
            assert(self@.rounds =~= s0.rounds.push(r));
            let opened = Sim {
                next_write_id: id.wrapping_add(1),
                rounds: s0.rounds.push(r),
                ..s0
            };
            assert(self@ == opened);
            assert(opened.ok());
            lemma_suspend_reads(opened, leader);
        }
        if self.scenario.write_disruptive {
            self.suspend_reads(leader);
        }
        self.emit(EventKind::WriteStarted { leader });
        self.broadcast(leader, MsgKind::Write, id);
    }

    /// A peer receives the leader's `Write`. Disruptive: drop the read leases it
    /// holds as a grantee and freeze until the commit. Non-disruptive: its leases
    /// are untouched — it just replies. Either way the leader is the reply's `to`.
    fn on_write(&mut self, from: NodeId, to: NodeId, write_id: usize)
        requires
            old(self).inv(),
            from < old(self)@.nodes.len(),
            to < old(self)@.nodes.len(),
        ensures
            final(self).inv(),
            final(self)@ == old(self)@.on_write(from, to, write_id),
    {
        proof {
            reveal(Sim::on_write);
            lemma_suspend_reads(self@, to);
        }
        if self.scenario.write_disruptive {
            self.suspend_reads(to);
        }
        self.reply_after_delay(to, from, MsgKind::WriteReply, write_id);
    }

    /// The position of the first round `write_id`, or the number of rounds.
    fn find_round(&self, write_id: usize) -> (r: usize)
        ensures
            r == round_position(self@.rounds, write_id, 0),
            r <= self@.rounds.len(),
            self@.rounds.len() == self.write_rounds@.len(),
    {
        let mut k: usize = 0;
        while k < self.write_rounds.len()
            invariant
                k <= self.write_rounds@.len(),
                self@.rounds.len() == self.write_rounds@.len(),
                round_position(self@.rounds, write_id, 0) == round_position(
                    self@.rounds,
                    write_id,
                    k as int,
                ),
            decreases self.write_rounds@.len() - k,
        {
            assert(self@.rounds[k as int] == self.write_rounds@[k as int]@);
            if self.write_rounds[k].id == write_id {
                return k;
            }
            k = k + 1;
        }
        k
    }

    /// Leader receives a `WriteReply`: record the replier for that round and try
    /// to commit it.
    fn on_write_reply(&mut self, from: NodeId, write_id: usize)
        requires
            old(self).inv(),
        ensures
            final(self).inv(),
            final(self)@ == old(self)@.on_write_reply(from, write_id),
    {
        broadcast use vstd::std_specs::btree::group_btree_axioms;

        let ghost s0 = self@;
        proof {
            reveal(Sim::on_write_reply);
        }
        let p: usize = self.find_round(write_id);
        if p >= self.write_rounds.len() {
            return;
        }
        let ghost before = self.write_rounds@;
        self.write_rounds[p].replied.insert(from);
        proof {
            let r = s0.rounds[p as int];
            assert(r == before[p as int]@);
            let updated = s0.rounds.update(p as int, Round { replied: r.replied.insert(from), ..r });
            assert(self@.rounds =~= updated);
            assert(self@ == (Sim { rounds: updated, ..s0 }));
            assert(self@.ok());
        }
        self.try_commit(write_id);
    }

    /// Whether every grantee node is the leader or has replied.
    fn covers_grantees(&self, p: usize, leader: NodeId) -> (r: bool)
        requires
            p < self@.rounds.len(),
        ensures
            r == (forall|i: int|
                0 <= i < self@.leases.len() ==> (#[trigger] self@.leases[i]).id.grantee == leader
                    || self@.rounds[p as int].replied.contains(self@.leases[i].id.grantee)),
    {
        broadcast use vstd::std_specs::btree::group_btree_axioms;

        let mut i: usize = 0;
        assert(self@.rounds[p as int] == self.write_rounds@[p as int]@);
        while i < self.leases.len()
            invariant
                0 <= i <= self.leases@.len(),
                p < self@.rounds.len(),
                self@.rounds.len() == self.write_rounds@.len(),
                self@.rounds[p as int] == self.write_rounds@[p as int]@,
                forall|j: int|
                    0 <= j < i ==> (#[trigger] self@.leases[j]).id.grantee == leader
                        || self@.rounds[p as int].replied.contains(self@.leases[j].id.grantee),
            decreases self.leases@.len() - i,
        {
            let g: NodeId = self.leases[i].id.grantee;
            if g != leader && !self.write_rounds[p].replied.contains(&g) {
                assert(self@.leases[i as int].id.grantee == g);
                return false;
            }
            i = i + 1;
        }
        true
    }

    /// Commit round `write_id` once its reply set (leader implicitly included)
    /// both reaches a majority and covers every grantee node. On commit the
    /// leader emits `WriteCommitted`, broadcasts `Commit`, and — disruptive only —
    /// unfreezes itself so its torn-down leases can re-establish (re-guard).
    fn try_commit(&mut self, write_id: usize)
        requires
            old(self).inv(),
        ensures
            final(self).inv(),
            final(self)@ == old(self)@.try_commit(write_id),
    {
        broadcast use vstd::std_specs::btree::group_btree_axioms;

        let ghost s0 = self@;
        proof {
            reveal(Sim::try_commit);
            lemma_leader(self@);
        }
        let leader: NodeId = match self.leader() {
            Some(leader) => leader,
            None => {
                return;
            },
        };
        let p: usize = self.find_round(write_id);
        if p >= self.write_rounds.len() {
            return;
        }
        // The leader counts itself among both the majority and the grantee cover.

        let n: usize = self.nodes.len();
        assert(self@.rounds[p as int] == self.write_rounds@[p as int]@);
        if self.write_rounds[p].replied.len() < n / 2 || !self.covers_grantees(p, leader) {
            return;
        }
        assert(s0.may_commit(s0.rounds[p as int].replied, leader));
        self.emit(EventKind::WriteCommitted { leader });
        proof {
            lemma_broadcast(self@, leader, MsgKind::Commit, write_id, n as int);
        }
        self.broadcast(leader, MsgKind::Commit, write_id);
        if self.scenario.write_disruptive {
            // The leader commits locally, so it thaws and re-guards its own
            // torn-down grants here (the same recovery peers do on `Commit`).
            proof {
                lemma_thaw_and_reguard(self@, leader);
            }
            self.thaw_and_reguard(leader);
        }
        self.drop_rounds_with_id(write_id);
    }

    /// Forget the rounds with id `write_id`.
    fn drop_rounds_with_id(&mut self, write_id: usize)
        requires
            old(self).inv(),
        ensures
            final(self).inv(),
            final(self)@ == (Sim {
                rounds: old(self)@.rounds.filter(|r: Round| r.id != write_id),
                ..old(self)@
            }),
    {
        let ghost s0 = self@;
        let ghost keep = |r: Round| r.id != write_id;
        proof {
            lemma_rounds_filter(s0, keep);
        }
        let mut rest: Vec<WriteRound> = Vec::new();
        std::mem::swap(&mut rest, &mut self.write_rounds);
        let ghost all = rest@;
        let ghost done: int = 0;
        assert(s0.rounds =~= views(all));
        assert(views(self.write_rounds@) =~= views(all).take(0).filter(keep)) by {
            reveal(Seq::filter);
        }
        assert(rest@ =~= all.skip(0));
        while rest.len() > 0
            invariant
                0 <= done <= all.len(),
                rest@ == all.skip(done),
                keep == (|r: Round| r.id != write_id),
                views(self.write_rounds@) == views(all).take(done).filter(keep),
                self@ == (Sim { rounds: views(self.write_rounds@), ..s0 }),
                self.sampler_ok(),
            decreases rest@.len(),
        {
            let r: WriteRound = rest.remove(0);
            proof {
                assert(r == all[done]);
                lemma_filter_next(views(all), keep, done);
                assert(rest@ =~= all.skip(done + 1));
                done = done + 1;
            }
            let ghost kept = self.write_rounds@;
            if r.id != write_id {
                self.write_rounds.push(r);
                assert(views(kept.push(r)) =~= views(kept).push(r@));
            }
        }
        assert(views(all).take(done) =~= views(all));
    }

    /// Forget the rounds that have been outstanding for [`WRITE_ROUND_TIMEOUT`].
    fn drop_stale_rounds(&mut self)
        requires
            old(self).inv(),
        ensures
            final(self).inv(),
            final(self)@ == (Sim {
                rounds: old(self)@.rounds.filter(|r: Round| !old(self)@.stale(r)),
                ..old(self)@
            }),
    {
        let ghost s0 = self@;
        let ghost keep = |r: Round| !s0.stale(r);
        proof {
            lemma_rounds_filter(s0, keep);
        }
        let now: Time = self.now;
        let mut rest: Vec<WriteRound> = Vec::new();
        std::mem::swap(&mut rest, &mut self.write_rounds);
        let ghost all = rest@;
        let ghost done: int = 0;
        assert(s0.rounds =~= views(all));
        assert(views(self.write_rounds@) =~= views(all).take(0).filter(keep)) by {
            reveal(Seq::filter);
        }
        assert(rest@ =~= all.skip(0));
        while rest.len() > 0
            invariant
                0 <= done <= all.len(),
                rest@ == all.skip(done),
                s0.ok(),
                now == s0.now,
                s0.rounds == views(all),
                keep == (|r: Round| !s0.stale(r)),
                views(self.write_rounds@) == views(all).take(done).filter(keep),
                self@ == (Sim { rounds: views(self.write_rounds@), ..s0 }),
                self.sampler_ok(),
            decreases rest@.len(),
        {
            let r: WriteRound = rest.remove(0);
            proof {
                assert(r == all[done]);
                assert(s0.rounds[done] == r@);
                lemma_filter_next(views(all), keep, done);
                assert(rest@ =~= all.skip(done + 1));
                done = done + 1;
            }
            let ghost kept = self.write_rounds@;
            if now - r.started < WRITE_ROUND_TIMEOUT {
                self.write_rounds.push(r);
                assert(views(kept.push(r)) =~= views(kept).push(r@));
            }
        }
        assert(views(all).take(done) =~= views(all));
    }

    /// A node receives a `Commit`. Disruptive: thaw the node and immediately
    /// re-establish the grants the write tore down (see `thaw_and_reguard`).
    /// Non-disruptive: a no-op — leases were never touched.
    fn on_commit(&mut self, node: NodeId)
        requires
            old(self).inv(),
            node < old(self)@.nodes.len(),
        ensures
            final(self).inv(),
            final(self)@ == old(self)@.on_commit(node),
    {
        if self.scenario.write_disruptive {
            self.thaw_and_reguard(node);
        }
    }

    /// Thaw `node` after a disruptive write and deterministically re-open a fresh
    /// guard for every grant the write tore down (`reguard_on_thaw`).
    fn thaw_and_reguard(&mut self, node: NodeId)
        requires
            old(self).inv(),
            node < old(self)@.nodes.len(),
        ensures
            final(self).inv(),
            final(self)@ == old(self)@.thaw_and_reguard(node),
    {
        proof {
            reveal(Sim::thaw_and_reguard);
        }
        let mut state: NodeState = self.nodes[node];
        state.write_frozen = false;
        self.set_node(node, state);
        let ghost s0 = self@;
        let mut i: usize = 0;
        while i < self.leases.len()
            invariant
                0 <= i <= self.leases@.len(),
                self.leases@.len() == s0.leases.len(),
                s0.ok(),
                self.inv(),
                self@ == s0.reguard(node, i as int),
            decreases self.leases@.len() - i,
        {
            proof {
                lemma_reguard(s0, node, i as int);
                lemma_reguard(s0, node, i + 1);
            }
            if self.leases[i].id.grantor == node && self.leases[i].grantor.reguard_on_thaw {
                self.begin_guard(i);
            }
            i = i + 1;
        }
    }

    fn has_stale_round(&self) -> (r: bool)
        requires
            self.inv(),
        ensures
            r == self@.has_stale_round(),
    {
        let mut k: usize = 0;
        while k < self.write_rounds.len()
            invariant
                0 <= k <= self.write_rounds@.len(),
                self.inv(),
                self@.rounds.len() == self.write_rounds@.len(),
                forall|j: int| 0 <= j < k ==> !self@.stale(#[trigger] self@.rounds[j]),
            decreases self.write_rounds@.len() - k,
        {
            assert(self@.rounds[k as int] == self.write_rounds@[k as int]@);
            if self.now - self.write_rounds[k].started >= WRITE_ROUND_TIMEOUT {
                assert(self@.stale(self@.rounds[k as int]));
                return true;
            }
            k = k + 1;
        }
        false
    }

    /// Called on the leader's poll: abandon any write round outstanding longer
    /// than [`WRITE_ROUND_TIMEOUT`] (a `Write`/`WriteReply` was dropped so it can
    /// never reach the commit condition), so the cluster recovers rather than
    /// hanging on a stuck round forever.
    fn abort_stale_writes(&mut self, node: NodeId)
        requires
            old(self).inv(),
        ensures
            final(self).inv(),
            final(self)@ == old(self)@.abort_stale_writes(node),
    {
        let ghost s0 = self@;
        proof {
            reveal(Sim::abort_stale_writes);
        }
        let leads: bool = match self.leader() {
            Some(leader) => leader == node,
            None => false,
        };
        if !leads || !self.has_stale_round() {
            return;
        }
        self.drop_stale_rounds();
        // Disruptive writes freeze nodes; thaw every one and re-guard its
        // torn-down grants, exactly as a commit would — so an aborted round still
        // recovers deterministically. Non-disruptive writes touch no node state,
        // so dropping the stale round is all the cleanup needed.
        if self.scenario.write_disruptive {
            let ghost s1 = self@;
            let n: usize = self.nodes.len();
            let mut id: usize = 0;
            while id < n
                invariant
                    id <= n,
                    n == s1.nodes.len(),
                    s1.ok(),
                    s1.leases.len() <= usize::MAX,
                    self.inv(),
                    self@ == s1.thaw_all(id as int),
                decreases n - id,
            {
                proof {
                    lemma_thaw_all(s1, id as int);
                }
                self.thaw_and_reguard(id);
                id = id + 1;
            }
        }
    }

    /// Suspend, for a disruptive write, every lease `node` takes part in.
    fn suspend_reads(&mut self, node: NodeId)
        requires
            old(self).inv(),
            node < old(self)@.nodes.len(),
        ensures
            final(self).inv(),
            final(self)@ == old(self)@.suspend_reads(node),
    {
        proof {
            reveal(Sim::suspend_reads);
        }
        let mut state: NodeState = self.nodes[node];
        state.write_frozen = true;
        self.set_node(node, state);
        let ghost s0 = self@;
        let local: Time = self.local(node);
        let mut i: usize = 0;
        while i < self.leases.len()
            invariant
                0 <= i <= self.leases@.len(),
                self.leases@.len() == s0.leases.len(),
                s0.ok(),
                node < s0.nodes.len(),
                local == s0.local(node),
                self.inv(),
                self@ == s0.suspend(node, i as int),
            decreases self.leases@.len() - i,
        {
            proof {
                lemma_suspend(s0, node, i as int);
                lemma_suspend(s0, node, i + 1);
                lemma_suspend_hold(self@, node, i as int);
                lemma_parties(self@, i as int);
            }
            let id: LeaseId = self.leases[i].id;
            if id.grantee == node && self.grantee_active_or_guarding(i) {
                let mut h: GranteeState = self.leases[i].grantee;
                h.status = LeaseStatus::Expired;
                h.hold_expiry = local;
                proof {
                    lemma_with_grantee(self@, i as int, h);
                }
                self.set_grantee(i, h);
                self.emit(EventKind::GranteeLease { lease: id, status: LeaseStatus::Expired });
            }
            if id.grantor == node && self.grantor_active_or_guarding(i) {
                let mut g: GrantorState = self.leases[i].grantor;
                g.status = LeaseStatus::Inactive;
                g.intended = false;
                // Remember to re-guard this grant once the commit thaws us — the
                // write tore it down, so recovery is deterministic and commit-
                // driven (not a stochastic re-initiation).
                g.reguard_on_thaw = true;
                proof {
                    lemma_with_grantor(self@, i as int, g);
                }
                self.set_grantor(i, g);
                self.emit(EventKind::GrantorLease { lease: id, status: LeaseStatus::Inactive });
            }
            i = i + 1;
        }
    }

    // ---- Driving the engine -----------------------------------------------

    /// Build an engine from a scenario, scheduling each node's first poll and
    /// any commands scripted on the scenario. `normal` turns the two uniform
    /// draws behind a Gaussian delay into its nearest tick.
    pub fn new(scenario: Scenario, normal: F) -> (r: Self)
        requires
            scenario@.valid(),
            samples_within(normal, LIMIT as int),
        ensures
            r.wf(),
            r@ == Sim::initial(scenario@, sampled(normal)),
    {
        let mut engine = Self::blank(scenario, normal);
        engine.schedule_polls();
        engine.schedule_script();
        // If writes are enabled, arm the first leader write tick.
        if let Some(iv) = engine.scenario.write_interval {
            let first: Time = engine.jittered_interval(iv);
            engine.schedule(first, Scheduled::WriteTick);
        }
        engine
    }

    /// An engine with nothing scheduled yet.
    fn blank(scenario: Scenario, normal: F) -> (r: Self)
        requires
            scenario@.valid(),
            samples_within(normal, LIMIT as int),
        ensures
            r.inv(),
            r@ == Sim::blank(scenario@, sampled(normal)),
    {
        let n: usize = scenario.nodes.len();
        let m: usize = scenario.leases.len();
        let mut nodes: Vec<NodeState> = Vec::new();
        let mut i: usize = 0;
        while i < n
            invariant
                i <= n,
                nodes@ =~= Seq::new(i as nat, |i: int| NodeState { up: true, write_frozen: false }),
            decreases n - i,
        {
            nodes.push(NodeState { up: true, write_frozen: false });
            i = i + 1;
        }
        let mut leases: Vec<LeaseState> = Vec::new();
        let mut i: usize = 0;
        while i < m
            invariant
                i <= m,
                m == scenario.leases@.len(),
                leases@ =~= Seq::new(i as nat, |i: int| fresh_lease(scenario.leases@[i])),
            decreases m - i,
        {
            leases.push(
                LeaseState {
                    id: scenario.leases[i],
                    grantor: GrantorState {
                        status: LeaseStatus::Inactive,
                        grant_expiry: 0,
                        next_renew_due: 0,
                        intended: false,
                        reguard_on_thaw: false,
                        awaiting_reply: false,
                        guard_since: 0,
                        last_reply: 0,
                    },
                    grantee: GranteeState {
                        status: LeaseStatus::Inactive,
                        hold_expiry: 0,
                        guard_deadline: 0,
                    },
                },
            );
            i = i + 1;
        }
        let rng = Rng::new(scenario.seed);
        let engine = Engine {
            scenario,
            normal,
            rng,
            now: 0,
            queue: Vec::new(),
            nodes,
            leases,
            in_flight: Vec::new(),
            pending: Vec::new(),
            write_rounds: Vec::new(),
            next_write_id: 0,
        };
        proof {
            let model = Sim::blank(scenario@, sampled(normal));
            assert(engine@.leases =~= model.leases);
            assert(engine@.rounds =~= model.rounds);
            assert(engine@ == model);
            assert(normal_ok(sampled(normal)));
            lemma_blank(scenario@, sampled(normal));
        }
        engine
    }

    /// Schedule the first poll of every node.
    fn schedule_polls(&mut self)
        requires
            old(self).inv(),
        ensures
            final(self).inv(),
            final(self)@ == old(self)@.with_polls(old(self)@.cfg.nodes.len() as int),
            final(self)@.cfg == old(self)@.cfg,
            final(self)@.pending == old(self)@.pending,
    {
        let ghost s0 = self@;
        let n: usize = self.nodes.len();
        let mut node: usize = 0;
        while node < n
            invariant
                node <= n,
                n == s0.cfg.nodes.len(),
                self@.cfg == s0.cfg,
                self@.pending == s0.pending,
                self.inv(),
                self@ == s0.with_polls(node as int),
            decreases n - node,
        {
            self.schedule(0, Scheduled::Poll { node });
            node = node + 1;
        }
    }

    /// Schedule the scripted commands.
    fn schedule_script(&mut self)
        requires
            old(self).inv(),
        ensures
            final(self).inv(),
            final(self)@ == old(self)@.with_commands(old(self)@.cfg.commands.len() as int),
            final(self)@.cfg == old(self)@.cfg,
            final(self)@.pending == old(self)@.pending,
    {
        let ghost s0 = self@;
        let c: usize = self.scenario.commands.len();
        let mut k: usize = 0;
        while k < c
            invariant
                k <= c,
                c == s0.cfg.commands.len(),
                self@.cfg == s0.cfg,
                self@.pending == s0.pending,
                self.inv(),
                self@ == s0.with_commands(k as int),
            decreases c - k,
        {
            let (at, cmd) = self.scenario.commands[k];
            assert(command_valid(self@.cfg.commands[k as int].1, self@.cfg.nodes.len()));
            self.schedule(at, Scheduled::Command(cmd));
            k = k + 1;
        }
    }

    /// Current global time.
    pub fn now(&self) -> (r: Time)
        ensures
            r == self@.now,
    {
        self.now
    }

    /// The configured run duration in global ticks.
    pub fn duration(&self) -> (r: Time)
        ensures
            r == self@.cfg.duration,
    {
        self.scenario.duration
    }

    /// The scenario being simulated.
    pub fn scenario(&self) -> (r: &Scenario)
        ensures
            r@ == self@.cfg,
    {
        &self.scenario
    }

    /// The state of each lease, in the order the leases were declared.
    pub fn leases(&self) -> (r: &[LeaseState])
        ensures
            r@ == self@.leases,
    {
        self.leases.as_slice()
    }

    /// Queue a command to take effect at the current time. It is applied on the
    /// next [`advance_to`], whose returned events include its effects.
    ///
    /// [`advance_to`]: Engine::advance_to
    pub fn command(&mut self, cmd: Command)
        requires
            old(self).wf(),
            command_valid(cmd, old(self)@.nodes.len()),
        ensures
            final(self).wf(),
            final(self)@ == old(self)@.schedule(old(self)@.now as int, Scheduled::Command(cmd)),
    {
        let now: Time = self.now;
        self.schedule_command(now, cmd);
    }

    /// Queue a command to take effect at global time `at` (clamped to not be in
    /// the past). Use for scripted, timed interaction.
    pub fn schedule_command(&mut self, at: Time, cmd: Command)
        requires
            old(self).wf(),
            command_valid(cmd, old(self)@.nodes.len()),
        ensures
            final(self).wf(),
            final(self)@ == old(self)@.schedule(at as int, Scheduled::Command(cmd)),
    {
        self.schedule(at, Scheduled::Command(cmd));
    }

    /// Advance simulation up to and including global time `t`, returning the
    /// events newly produced since the last call, in ascending time order. Time
    /// only moves forward, and not past the configured duration: advancing to a
    /// time already reached does nothing.
    pub fn advance_to(&mut self, t: Time) -> (r: Vec<Event>)
        requires
            old(self).wf(),
        ensures
            final(self).wf(),
            final(self)@ == old(self)@.advanced(t as int).taken(),
            r@ == old(self)@.advanced(t as int).pending,
            final(self)@.now == max_of(
                old(self)@.now as int,
                min_of(t as int, old(self)@.cfg.duration as int),
            ),
            forall|i: int, j: int| 0 <= i <= j < r@.len() ==> r@[i].at <= r@[j].at,
            forall|i: int|
                0 <= i < r@.len() ==> old(self)@.now <= (#[trigger] r@[i]).at <= final(self)@.now,
    {
        let ghost s0 = self@;
        let target: Time = if t < self.scenario.duration {
            t
        } else {
            self.scenario.duration
        };
        let ghost n: nat = 0;
        while self.queue.len() > 0 && self.queue[0].at <= target
            invariant
                s0.ok(),
                sized(s0),
                target <= s0.cfg.duration,
                self.inv(),
                self@ == s0.steps(target as int, n),
            decreases max_of(target - self@.now, 0), due(self@.queue, self@.now as int),
        {
            proof {
                lemma_steps_ok(s0, target as int, n);
                lemma_steps_next(s0, target as int, n);
                lemma_popped(self@);
                lemma_step(self@);
            }
            let top: Timed = self.queue.remove(0);
            self.now = top.at;
            self.handle(top.item);
            proof {
                n = n + 1;
            }
        }
        proof {
            lemma_run_is(s0, target as int, n);
            lemma_advanced(s0, t as int);
            law_events_are_time_ordered(s0, t as int);
        }
        if self.now < target {
            self.now = target;
        }
        // Drop messages that have already arrived (or been dropped) so frame
        // queries only consider currently-traveling messages.

        let now: Time = self.now;
        let ghost keep = |m: InFlight| m.arrival > now;
        let mut kept: Vec<InFlight> = Vec::new();
        let mut k: usize = 0;
        assert(self.in_flight@.take(0).filter(keep) =~= Seq::empty()) by {
            reveal(Seq::filter);
        }
        while k < self.in_flight.len()
            invariant
                k <= self.in_flight@.len(),
                keep == (|m: InFlight| m.arrival > now),
                kept@ == self.in_flight@.take(k as int).filter(keep),
            decreases self.in_flight@.len() - k,
        {
            proof {
                lemma_filter_next(self.in_flight@, keep, k as int);
            }
            if self.in_flight[k].arrival > now {
                kept.push(self.in_flight[k]);
            }
            k = k + 1;
        }
        assert(self.in_flight@.take(k as int) =~= self.in_flight@);
        self.in_flight = kept;
        let mut events: Vec<Event> = Vec::new();
        std::mem::swap(&mut events, &mut self.pending);
        events
    }

    /// Build a renderable [`Frame`] for the current time. Call after
    /// [`advance_to`] so in-flight messages and expiries reflect time `t`.
    ///
    /// [`advance_to`]: Engine::advance_to
    pub fn frame_at(&self, t: Time) -> (r: Frame)
        requires
            self.wf(),
            self@.readable(t as int),
        ensures
            r@ == self@.picture(t as int),
    {
        let mut nodes: Vec<NodeShape> = Vec::new();
        let mut id: usize = 0;
        while id < self.nodes.len()
            invariant
                id <= self.nodes@.len(),
                nodes@ =~= Seq::new(id as nat, |i: int| node_shape(i as usize, self.nodes@[i])),
            decreases self.nodes@.len() - id,
        {
            nodes.push(
                NodeShape {
                    id,
                    viz: if self.nodes[id].up {
                        NodeViz::Up
                    } else {
                        NodeViz::Down
                    },
                },
            );
            id = id + 1;
        }

        let ghost shown = |m: InFlight| under_way(m, t as int);
        let ghost shape = |m: InFlight| msg_shape(m, t as int);
        let mut messages: Vec<MsgShape> = Vec::new();
        let mut k: usize = 0;
        assert(self.in_flight@.take(0).filter(shown) =~= Seq::empty()) by {
            reveal(Seq::filter);
        }
        while k < self.in_flight.len()
            invariant
                k <= self.in_flight@.len(),
                self.wf(),
                shown == (|m: InFlight| under_way(m, t as int)),
                shape == (|m: InFlight| msg_shape(m, t as int)),
                messages@ =~= self.in_flight@.take(k as int).filter(shown).map_values(shape),
            decreases self.in_flight@.len() - k,
        {
            proof {
                lemma_filter_next(self.in_flight@, shown, k as int);
            }
            let m: InFlight = self.in_flight[k];
            assert(self@.in_flight[k as int] == m);
            if m.sent <= t && m.arrival > t {
                messages.push(
                    MsgShape {
                        from: m.from,
                        to: m.to,
                        kind: m.kind,
                        fate: m.fate,
                        progress: share_of(t - m.sent, m.arrival - m.sent),
                    },
                );
            }
            k = k + 1;
        }
        assert(self.in_flight@.take(k as int) =~= self.in_flight@);

        let p: LeaseParams = self.params();
        let guard_span: Time = p.guard_window();
        let grant_span: Time = p.grant_span();
        let hold_span: Time = p.t_lease - p.t_delta;
        let mut leases: Vec<LeaseBar> = Vec::new();
        let mut i: usize = 0;
        while i < self.leases.len()
            invariant
                i <= self.leases@.len(),
                self.wf(),
                self@.readable(t as int),
                p == self@.params(),
                guard_span == p.guard_len(),
                grant_span == p.grant_len(),
                hold_span == p.hold_len(),
                leases@ =~= Seq::new(i as nat, |i: int| self@.lease_bar(self@.leases[i], t as int)),
            decreases self.leases@.len() - i,
        {
            proof {
                lemma_parties(self@, i as int);
            }
            let l: LeaseState = self.leases[i];
            assert(self@.leases[i as int] == l);
            // Each party's countdown bar reads its real expiry — the grantee's
            // `hold_expiry` (`C'`) and the grantor's `grant_expiry` (`D'`), the
            // very bound that flips it to `Expired` — so a bar reaching empty
            // coincides with that side expiring. Each is normalized by the span
            // that bound is set a whole *away* from, so the fill hits 1 only
            // right when it's (re)armed and then drains continuously toward 0.
            let grantor_fill: Fraction = match l.grantor.status {
                LeaseStatus::Active => self.fill(
                    l.id.grantor,
                    l.grantor.grant_expiry,
                    grant_span,
                    t,
                ),
                LeaseStatus::Guarding => self.fill(
                    l.id.grantor,
                    l.grantor.guard_since + guard_span,
                    guard_span,
                    t,
                ),
                _ => Fraction { num: 0, den: 1 },
            };
            let grantee_fill: Fraction = match l.grantee.status {
                LeaseStatus::Active => self.fill(
                    l.id.grantee,
                    l.grantee.hold_expiry,
                    hold_span,
                    t,
                ),
                LeaseStatus::Guarding => self.fill(
                    l.id.grantee,
                    l.grantee.guard_deadline,
                    guard_span,
                    t,
                ),
                _ => Fraction { num: 0, den: 1 },
            };
            leases.push(
                LeaseBar {
                    grantor: l.id.grantor,
                    grantee: l.id.grantee,
                    grantor_status: l.grantor.status,
                    grantee_status: l.grantee.status,
                    grantor_fill,
                    grantee_fill,
                },
            );
            i = i + 1;
        }

        Frame { at: t, nodes, messages, leases }
    }

    /// Fraction of a countdown remaining for one party at global time `t`.
    fn fill(&self, node: NodeId, expiry_local: Time, span: Time, t: Time) -> (r: Fraction)
        requires
            self.wf(),
            self@.readable(t as int),
            node < self@.nodes.len(),
            within(expiry_local as int, 5),
        ensures
            r == self@.fill(node, expiry_local as int, span as int, t as int),
    {
        if span <= 0 {
            return Fraction { num: 0, den: 1 };
        }
        proof {
            if 0 <= t <= self@.cfg.duration {
                lemma_readings_within_limit(
                    self@.cfg.nodes[node as int].clock,
                    self@.cfg.duration as int,
                    t as int,
                );
            }
            assert(within(self@.local_at(node, t as int), 16));
        }
        let local: Time = self.scenario.nodes[node].clock.local(t);
        share_of(expiry_local - local, span)
    }

    fn handle(&mut self, item: Scheduled)
        requires
            old(self).inv(),
            item_ok(old(self)@.cfg, item),
        ensures
            final(self).inv(),
            final(self)@ == old(self)@.handle(item),
    {
        match item {
            Scheduled::Poll { node } => self.poll(node),
            Scheduled::Send { from, to, kind, tag } => self.try_send(from, to, kind, tag),
            Scheduled::Arrival { from, to, kind, tag, fate } => self.arrive(
                from,
                to,
                kind,
                tag,
                fate,
            ),
            Scheduled::Command(cmd) => self.apply(cmd),
            Scheduled::WriteTick => self.write_tick(),
        }
    }
}

/// What each write round holds.
spec fn views(rounds: Seq<WriteRound>) -> Seq<Round> {
    rounds.map_values(|r: WriteRound| r@)
}

/// Filtering one more element.
proof fn lemma_filter_next<A>(s: Seq<A>, keep: spec_fn(A) -> bool, n: int)
    requires
        0 <= n < s.len(),
    ensures
        s.take(n + 1).filter(keep) == if keep(s[n]) {
            s.take(n).filter(keep).push(s[n])
        } else {
            s.take(n).filter(keep)
        },
{
    reveal(Seq::filter);
    assert(s.take(n + 1).drop_last() =~= s.take(n));
}

} // verus!
