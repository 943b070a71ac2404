//! The friendly, configurable scenario description that seeds a simulation.
//!
//! A [`Scenario`] is pure configuration data. Build one with [`Scenario::new`]
//! and the chainable helpers, then hand it to the engine to run.

use crate::clock::{lemma_elapsed_monotone, magnitude, Clock, Drift, Time};
use crate::dist::Dist;
use crate::event::{Command, LeaseId, MsgKind, NodeId};
use crate::prob::Prob;
use crate::rounding::UNIT;
use vstd::prelude::*;

verus! {

/// Largest tick quantity a scenario may configure: sums of a handful of such
/// quantities still fit in [`Time`].
pub const LIMIT: Time = 0x400_0000_0000_0000;

/// `x` is a tick quantity of at most [`LIMIT`] either way.
pub open spec fn within_limit(x: int) -> bool {
    -LIMIT <= x <= LIMIT
}

fn is_within_limit(x: Time) -> (r: bool)
    ensures
        r == within_limit(x as int),
{
    -LIMIT <= x && x <= LIMIT
}

/// Lease timing parameters shared by the simulation, in ticks.
///
/// Mirrors the algorithm's `t_guard`, `t_lease`, and `t_delta`. Renewals are
/// re-sent every `renew_interval` while a lease is meant to stay active.
///
/// The defaults follow one fixed set of relationships, anchored on `t_delta`
/// and the link message delay (about twice `t_delta`): `t_lease` and `t_guard`
/// are about 2.5 renew intervals, and a renew interval is about three message
/// delays.
#[derive(Debug, Clone, Copy, PartialEq, Eq, Structural)]
pub struct LeaseParams {
    pub t_guard: Time,
    pub t_lease: Time,
    pub t_delta: Time,
    pub renew_interval: Time,
}

impl LeaseParams {
    /// `A' = t_guard - t_delta`.
    pub open spec fn guard_len(self) -> int {
        self.t_guard - self.t_delta
    }

    /// `t_guard + t_lease + 2 * t_delta`.
    pub open spec fn grant_len(self) -> int {
        self.t_guard + self.t_lease + 2 * self.t_delta
    }

    /// How far past a received renew a grantee holds the lease:
    /// `t_lease - t_delta`.
    pub open spec fn hold_len(self) -> int {
        self.t_lease - self.t_delta
    }

    /// How far past a received reply a grantor keeps its promise:
    /// `t_lease + t_delta`.
    pub open spec fn confirmed_len(self) -> int {
        self.t_lease + self.t_delta
    }

    /// Every parameter is within [`LIMIT`].
    pub open spec fn in_range(self) -> bool {
        &&& within_limit(self.t_guard as int)
        &&& within_limit(self.t_lease as int)
        &&& within_limit(self.t_delta as int)
        &&& within_limit(self.renew_interval as int)
    }

    /// The guard window `A' = t_guard − t_delta`: how long a grantee accepts the
    /// activating first renew, and equally how long a grantor holds an unanswered
    /// guard before giving up.
    pub fn guard_window(&self) -> (r: Time)
        requires
            i64::MIN <= self.guard_len() <= i64::MAX,
        ensures
            r == self.guard_len(),
    {
        self.t_guard - self.t_delta
    }

    /// The grantor's provisioned no-reply grant span `B' + (t_lease + t_delta)`
    /// where `B' = send + (t_guard + t_delta)` — i.e. `t_guard + t_lease + 2·t_delta`
    /// past a renew's send. The full length the grantor's `D'` is armed to on send.
    pub fn grant_span(&self) -> (r: Time)
        requires
            i64::MIN <= self.t_guard + self.t_lease <= i64::MAX,
            i64::MIN <= 2 * self.t_delta <= i64::MAX,
            i64::MIN <= self.grant_len() <= i64::MAX,
        ensures
            r == self.grant_len(),
    {
        self.t_guard + self.t_lease + 2 * self.t_delta
    }
}

impl Default for LeaseParams {
    fn default() -> (r: Self)
        ensures
            r == (LeaseParams { t_guard: 1500, t_lease: 1500, t_delta: 100, renew_interval: 600 }),
    {
        LeaseParams { t_guard: 1500, t_lease: 1500, t_delta: 100, renew_interval: 600 }
    }
}

/// Per-node behavioral knobs.
#[derive(Debug, Clone, Copy, PartialEq, Eq, Structural)]
pub struct NodeConfig {
    /// This node's local clock (skew + drift).
    pub clock: Clock,
    /// How long the node takes to turn a received message into a reply.
    pub response_delay: Dist,
    /// Per-step probability the node spontaneously initiates a first lease step
    /// toward an intended grantee it is not yet promising to.
    pub initiate_chance: Prob,
    /// Per-step probability the node crashes while up.
    pub fail_chance: Prob,
    /// Per-step probability the node recovers while down.
    pub recover_chance: Prob,
}

/// A node with a perfect clock that answers after 50 ticks and acts only when
/// told to.
pub open spec fn default_node() -> NodeConfig {
    NodeConfig {
        clock: Clock { offset: 0, drift: Drift { mantissa: 1, shift: 0 } },
        response_delay: Dist::Fixed(50),
        initiate_chance: Prob { num: 0 },
        fail_chance: Prob { num: 0 },
        recover_chance: Prob { num: 0 },
    }
}

impl Default for NodeConfig {
    fn default() -> (r: Self)
        ensures
            r == default_node(),
    {
        NodeConfig {
            clock: Clock::perfect(),
            response_delay: Dist::Fixed(50),
            initiate_chance: Prob::never(),
            fail_chance: Prob::never(),
            recover_chance: Prob::never(),
        }
    }
}

/// `node` is the configuration at index `i`.
pub open spec fn entry(nodes: Seq<NodeConfig>, i: int, node: NodeConfig) -> bool {
    0 <= i < nodes.len() && nodes[i] == node
}

/// Per-link behavioral knobs for the directed edge `from -> to`.
#[derive(Debug, Clone, Copy, PartialEq, Eq, Structural)]
pub struct LinkConfig {
    pub from: NodeId,
    pub to: NodeId,
    /// Distribution of one-way message delay.
    pub delay: Dist,
    /// Probability any given message on this link is dropped.
    pub drop_chance: Prob,
    /// If true, the link currently delivers nothing (partition).
    pub partitioned: bool,
}

/// A reliable, connected link with a one-way delay of 200 ticks, give or take
/// 40%.
pub open spec fn default_link(from: NodeId, to: NodeId) -> LinkConfig {
    LinkConfig {
        from,
        to,
        delay: Dist::Uniform { lo: 120, hi: 280 },
        drop_chance: Prob { num: 0 },
        partitioned: false,
    }
}

impl LinkConfig {
    /// A reasonable default link between two nodes: one-way delay of about twice
    /// the default `t_delta` (200 ticks), with random jitter within ±40% of that
    /// average, reliable and connected.
    pub fn new(from: NodeId, to: NodeId) -> (r: Self)
        ensures
            r == default_link(from, to),
    {
        LinkConfig {
            from,
            to,
            delay: Dist::Uniform { lo: 120, hi: 280 },
            drop_chance: Prob::never(),
            partitioned: false,
        }
    }

    /// Whether this is the link `from -> to`.
    pub open spec fn connects(self, from: NodeId, to: NodeId) -> bool {
        self.from == from && self.to == to
    }
}

/// The index of the first link `from -> to` at or after `k`, or the number of
/// links.
pub open spec fn link_position(links: Seq<LinkConfig>, from: NodeId, to: NodeId, k: int) -> int
    decreases links.len() - k,
{
    if k >= links.len() {
        links.len() as int
    } else if links[k].connects(from, to) {
        k
    } else {
        link_position(links, from, to, k + 1)
    }
}

/// The leases by which the first `n` nodes, other than `holder`, grant to
/// `holder`, by ascending grantor.
pub open spec fn grants_to(holder: NodeId, n: int) -> Seq<LeaseId>
    decreases n,
{
    if n <= 0 {
        Seq::empty()
    } else if n - 1 == holder {
        grants_to(holder, n - 1)
    } else {
        grants_to(holder, n - 1).push(
            LeaseId { grantor: (n - 1) as usize, grantee: holder },
        )
    }
}

/// The leases of [`grants_to`] among `n` nodes for each of the first `k`
/// holders, one holder after another.
pub open spec fn grants_to_each(holders: Seq<NodeId>, n: int, k: int) -> Seq<LeaseId>
    decreases k,
{
    if k <= 0 {
        Seq::empty()
    } else {
        grants_to_each(holders, n, k - 1) + grants_to(holders[k - 1], n)
    }
}

/// The leases by which `grantor` grants to the first `n` nodes other than
/// itself, by ascending grantee.
pub open spec fn grants_from(grantor: NodeId, n: int) -> Seq<LeaseId>
    decreases n,
{
    if n <= 0 {
        Seq::empty()
    } else if n - 1 == grantor {
        grants_from(grantor, n - 1)
    } else {
        grants_from(grantor, n - 1).push(
            LeaseId { grantor, grantee: (n - 1) as usize },
        )
    }
}

/// The leases of [`grants_from`] among `n` nodes for each of the first `k`
/// grantors.
pub open spec fn roster(n: int, k: int) -> Seq<LeaseId>
    decreases k,
{
    if k <= 0 {
        Seq::empty()
    } else {
        roster(n, k - 1) + grants_from((k - 1) as usize, n)
    }
}

/// What a [`Scenario`] describes.
pub struct Config {
    pub seed: u64,
    pub params: LeaseParams,
    pub nodes: Seq<NodeConfig>,
    pub links: Seq<LinkConfig>,
    pub leases: Seq<LeaseId>,
    pub kind_drop: Seq<Prob>,
    pub kind_drop_from: Seq<Time>,
    pub commands: Seq<(Time, Command)>,
    pub duration: Time,
    pub write_interval: Option<Time>,
    pub write_disruptive: bool,
}

impl Config {
    /// `n` default nodes, and nothing else.
    pub open spec fn fresh(n: nat) -> Config {
        Config {
            seed: 0,
            params: LeaseParams { t_guard: 1500, t_lease: 1500, t_delta: 100, renew_interval: 600 },
            nodes: Seq::new(n, |i: int| default_node()),
            links: Seq::empty(),
            leases: Seq::empty(),
            kind_drop: Seq::new(9, |i: int| Prob { num: 0 }),
            kind_drop_from: Seq::new(9, |i: int| 0),
            commands: Seq::empty(),
            duration: 20_000,
            write_interval: None,
            write_disruptive: false,
        }
    }

    /// The link `from -> to`: as declared, or the default.
    pub open spec fn link(self, from: NodeId, to: NodeId) -> LinkConfig {
        let p = link_position(self.links, from, to, 0);
        if p < self.links.len() {
            self.links[p]
        } else {
            default_link(from, to)
        }
    }

    /// The extra probability with which a message of `kind` sent at `at` is
    /// lost.
    pub open spec fn kind_loss(self, kind: MsgKind, at: int) -> Prob {
        if at >= self.kind_drop_from[kind.ordinal()] {
            self.kind_drop[kind.ordinal()]
        } else {
            Prob { num: 0 }
        }
    }

    /// The configuration can be run: every id names a node, and no tick
    /// quantity is beyond [`LIMIT`].
    pub open spec fn valid(self) -> bool {
        &&& 0 <= self.duration <= LIMIT
        &&& self.params.in_range()
        &&& self.write_interval matches Some(iv) ==> within_limit(iv as int)
        &&& self.kind_drop.len() == MsgKind::COUNT
        &&& self.kind_drop_from.len() == MsgKind::COUNT
        &&& forall|i: int| 0 <= i < self.nodes.len() ==> node_valid(#[trigger] self.nodes[i], self.duration)
        &&& forall|i: int| 0 <= i < self.links.len() ==> delay_valid((#[trigger] self.links[i]).delay)
        &&& forall|i: int|
            0 <= i < self.leases.len() ==> (#[trigger] self.leases[i]).grantor < self.nodes.len()
                && self.leases[i].grantee < self.nodes.len()
        &&& forall|i: int|
            0 <= i < self.commands.len() ==> command_valid(
                (#[trigger] self.commands[i]).1,
                self.nodes.len(),
            )
    }
}

/// Delays drawn from `d` are at most [`LIMIT`].
pub open spec fn delay_valid(d: Dist) -> bool {
    match d {
        Dist::Fixed(v) => v <= LIMIT,
        Dist::Uniform { lo, hi } => within_limit(lo as int) && within_limit(hi as int),
        Dist::Normal { .. } => true,
    }
}

/// The clock's readings over a run of `duration` ticks are within [`LIMIT`].
pub open spec fn clock_valid(clock: Clock, duration: int) -> bool {
    &&& clock.drift.wf()
    &&& magnitude(clock.offset as int) + clock.elapsed(duration) <= LIMIT
}

/// The node's clock and delays are within [`LIMIT`].
pub open spec fn node_valid(node: NodeConfig, duration: Time) -> bool {
    clock_valid(node.clock, duration as int) && delay_valid(node.response_delay)
}

/// The command names only nodes below `n`. (A command on a lease that is not
/// declared does nothing.)
pub open spec fn command_valid(cmd: Command, n: nat) -> bool {
    match cmd {
        Command::FailNode(node) => node < n,
        Command::RecoverNode(node) => node < n,
        _ => true,
    }
}

/// The readings of a valid clock, over the whole run.
pub proof fn lemma_readings_within_limit(clock: Clock, duration: int, g: int)
    requires
        clock_valid(clock, duration),
        magnitude(g) <= magnitude(duration),
    ensures
        within_limit(clock.reading(g)),
{
    lemma_elapsed_monotone(clock, g, duration);
}

fn delay_is_valid(d: &Dist) -> (r: bool)
    ensures
        r == delay_valid(*d),
{
    match *d {
        Dist::Fixed(v) => v <= LIMIT,
        Dist::Uniform { lo, hi } => is_within_limit(lo) && is_within_limit(hi),
        Dist::Normal { .. } => true,
    }
}

fn clock_is_valid(clock: &Clock, duration: Time) -> (r: bool)
    ensures
        r == clock_valid(*clock, duration as int),
{
    if !clock.drift.is_valid() || !is_within_limit(clock.offset) {
        return false;
    }
    let elapsed: u128 = clock.elapsed_exec(duration);
    let limit: u128 = LIMIT as u128;
    let skew: i64 = if clock.offset < 0 {
        -clock.offset
    } else {
        clock.offset
    };
    elapsed <= limit && skew as u128 + elapsed <= limit
}

fn command_is_valid(cmd: &Command, n: usize) -> (r: bool)
    ensures
        r == command_valid(*cmd, n as nat),
{
    match *cmd {
        Command::FailNode(node) => node < n,
        Command::RecoverNode(node) => node < n,
        _ => true,
    }
}

/// A complete, runnable scenario description.
#[derive(Debug, Clone)]
pub struct Scenario {
    /// RNG seed; identical seeds reproduce identical runs.
    pub seed: u64,
    /// Lease timing parameters.
    pub params: LeaseParams,
    /// One entry per node, indexed by [`NodeId`].
    pub nodes: Vec<NodeConfig>,
    /// Directed link overrides. Links not listed use a default when looked up.
    pub links: Vec<LinkConfig>,
    /// Intended grantor -> grantee lease relationships to drive.
    pub leases: Vec<LeaseId>,
    /// Extra drop probability applied per message *kind*, indexed by
    /// [`MsgKind::index`]. Layered on top of a link's own `drop_chance`, so a
    /// caller can e.g. fail all `Guard`s without touching link reliability.
    pub kind_drop: [Prob; 9],
    /// Global tick at which each kind's `kind_drop` starts applying. Before it,
    /// that kind is never dropped by `kind_drop` (0 = drop from the start).
    /// Lets a scenario establish cleanly and *then* begin losing a message kind —
    /// e.g. dropping `RenewReply`s only once the lease is already active.
    pub kind_drop_from: [Time; 9],
    /// Scripted commands, each paired with the global time it fires at. Run in
    /// addition to any stochastic behavior, and replay identically per seed.
    pub commands: Vec<(Time, Command)>,
    /// How long to run, in global ticks.
    pub duration: Time,
    /// Average interval (global ticks) between leader write requests, or `None`
    /// to never issue writes. Each round waits this long ± a small jitter.
    pub write_interval: Option<Time>,
    /// Whether writes are *disruptive*: if set, a write suspends the read leases
    /// each node holds until it commits, then re-establishes them via a fresh
    /// guard round; if unset, writes leave leases entirely untouched (see the
    /// engine's write path). Ignored when `write_interval` is `None`.
    pub write_disruptive: bool,
}

impl View for Scenario {
    type V = Config;

    open spec fn view(&self) -> Config {
        Config {
            seed: self.seed,
            params: self.params,
            nodes: self.nodes@,
            links: self.links@,
            leases: self.leases@,
            kind_drop: self.kind_drop@,
            kind_drop_from: self.kind_drop_from@,
            commands: self.commands@,
            duration: self.duration,
            write_interval: self.write_interval,
            write_disruptive: self.write_disruptive,
        }
    }
}

impl Scenario {
    /// Start a scenario with `n` default nodes and no links or leases.
    pub fn new(n: usize) -> (r: Self)
        ensures
            r@ == Config::fresh(n as nat),
    {
        let mut nodes: Vec<NodeConfig> = Vec::new();
        let mut i: usize = 0;
        while i < n
            invariant
                i <= n,
                nodes@ =~= Seq::new(i as nat, |i: int| default_node()),
            decreases n - i,
        {
            nodes.push(NodeConfig::default());
            i = i + 1;
        }
        let r = Scenario {
            seed: 0,
            params: LeaseParams::default(),
            nodes,
            links: Vec::new(),
            leases: Vec::new(),
            kind_drop: [Prob::never(); 9],
            kind_drop_from: [0i64; 9],
            commands: Vec::new(),
            duration: 20_000,
            write_interval: None,
            write_disruptive: false,
        };
        assert(r.kind_drop@ =~= Seq::new(9, |i: int| Prob { num: 0 }));
        assert(r.kind_drop_from@ =~= Seq::new(9, |i: int| 0i64));
        r
    }

    /// Set the RNG seed.
    pub fn seed(self, seed: u64) -> (r: Self)
        ensures
            r@ == (Config { seed, ..self@ }),
    {
        let mut s = self;
        s.seed = seed;
        s
    }

    /// Set the lease timing parameters.
    pub fn params(self, params: LeaseParams) -> (r: Self)
        ensures
            r@ == (Config { params, ..self@ }),
    {
        let mut s = self;
        s.params = params;
        s
    }

    /// Set the run duration in ticks.
    pub fn duration(self, duration: Time) -> (r: Self)
        ensures
            r@ == (Config { duration, ..self@ }),
    {
        let mut s = self;
        s.duration = duration;
        s
    }

    /// Mutate a single node's configuration in place.
    pub fn node<F: FnOnce(&mut NodeConfig)>(self, id: NodeId, f: F) -> (r: Self)
        requires
            id < self.nodes@.len(),
            forall|m: &mut NodeConfig|
                *m == self.nodes@[id as int] ==> #[trigger] call_requires(f, (m,)),
        ensures
            r@ == (Config { nodes: self@.nodes.update(id as int, r@.nodes[id as int]), ..self@ }),
            exists|m: &mut NodeConfig|
                *m == self@.nodes[id as int] && *final(m) == r@.nodes[id as int]
                    && #[trigger] call_ensures(f, (m,), ()),
    {
        let mut s = self;
        f(&mut s.nodes[id]);
        assert(s.nodes@ =~= self.nodes@.update(id as int, s.nodes@[id as int]));
        s
    }

    /// Mutate every node's configuration in place. Handy for symmetric patterns.
    pub fn all_nodes<F: Fn(&mut NodeConfig)>(self, f: F) -> (r: Self)
        requires
            forall|m: &mut NodeConfig| #[trigger] call_requires(f, (m,)),
        ensures
            r@ == (Config { nodes: r@.nodes, ..self@ }),
            r@.nodes.len() == self@.nodes.len(),
            forall|i: int, before: NodeConfig, after: NodeConfig| #[trigger]
                entry(self@.nodes, i, before) && #[trigger] entry(r@.nodes, i, after) ==> exists|
                    m: &mut NodeConfig,
                |
                    *m == before && *final(m) == after && #[trigger] call_ensures(f, (m,), ()),
    {
        let mut s = self;
        let mut i: usize = 0;
        while i < s.nodes.len()
            invariant
                0 <= i <= s.nodes@.len(),
                s@ == (Config { nodes: s@.nodes, ..self@ }),
                s@.nodes.len() == self@.nodes.len(),
                forall|m: &mut NodeConfig| #[trigger] call_requires(f, (m,)),
                forall|j: int| i <= j < s@.nodes.len() ==> s@.nodes[j] == self@.nodes[j],
                forall|j: int, before: NodeConfig, after: NodeConfig|
                    j < i && #[trigger] entry(self@.nodes, j, before) && #[trigger] entry(
                        s@.nodes,
                        j,
                        after,
                    ) ==> exists|m: &mut NodeConfig|
                        *m == before && *final(m) == after && #[trigger] call_ensures(f, (m,), ()),
            decreases s.nodes@.len() - i,
        {
            let ghost earlier = s@.nodes;
            f(&mut s.nodes[i]);
            assert forall|j: int, before: NodeConfig, after: NodeConfig|
                j < i + 1 && #[trigger] entry(self@.nodes, j, before) && #[trigger] entry(
                    s@.nodes,
                    j,
                    after,
                ) implies exists|m: &mut NodeConfig|
                *m == before && *final(m) == after && #[trigger] call_ensures(f, (m,), ()) by {
                if j < i {
                    assert(entry(earlier, j, after));
                }
            }
            i = i + 1;
        }
        s
    }

    /// The position of the first link `from -> to`, or the number of links.
    fn find_link(&self, from: NodeId, to: NodeId) -> (r: usize)
        ensures
            r == link_position(self@.links, from, to, 0),
            r <= self@.links.len(),
    {
        let mut k: usize = 0;
        while k < self.links.len()
            invariant
                k <= self.links@.len(),
                link_position(self@.links, from, to, 0) == link_position(
                    self@.links,
                    from,
                    to,
                    k as int,
                ),
            decreases self.links@.len() - k,
        {
            if self.links[k].from == from && self.links[k].to == to {
                return k;
            }
            k = k + 1;
        }
        k
    }

    /// Override (or add) a directed link's configuration.
    pub fn link(self, link: LinkConfig) -> (r: Self)
        ensures
            ({
                let p = link_position(self@.links, link.from, link.to, 0);
                r@ == (Config {
                    links: if p < self@.links.len() {
                        self@.links.update(p, link)
                    } else {
                        self@.links.push(link)
                    },
                    ..self@
                })
            }),
    {
        let mut s = self;
        let p: usize = s.find_link(link.from, link.to);
        if p < s.links.len() {
            s.links[p] = link;
        } else {
            s.links.push(link);
        }
        s
    }

    /// Declare an intended grantor -> grantee lease to drive.
    pub fn lease(self, grantor: NodeId, grantee: NodeId) -> (r: Self)
        ensures
            r@ == (Config { leases: self@.leases.push(LeaseId { grantor, grantee }), ..self@ }),
    {
        let mut s = self;
        s.leases.push(LeaseId { grantor, grantee });
        s
    }

    /// Set the extra drop probability for one message `kind`, on top of any
    /// per-link `drop_chance`. `p` is clamped to `[0, 1]`.
    pub fn kind_drop(self, kind: MsgKind, p: Prob) -> (r: Self)
        ensures
            r@ == (Config {
                kind_drop: self@.kind_drop.update(kind.ordinal(), p.clamped()),
                ..self@
            }),
    {
        let mut s = self;
        let k: usize = kind.index();
        s.kind_drop[k] = p.clamp();
        s
    }

    /// Like [`kind_drop`](Self::kind_drop), but the drop only takes effect from
    /// global tick `from` onward; before that the kind is delivered normally.
    /// Handy for "establish, then start losing this message kind" scenarios.
    pub fn kind_drop_from(self, kind: MsgKind, p: Prob, from: Time) -> (r: Self)
        ensures
            r@ == (Config {
                kind_drop: self@.kind_drop.update(kind.ordinal(), p.clamped()),
                kind_drop_from: self@.kind_drop_from.update(kind.ordinal(), from),
                ..self@
            }),
    {
        let mut s = self;
        let k: usize = kind.index();
        s.kind_drop[k] = p.clamp();
        s.kind_drop_from[k] = from;
        s
    }

    /// Configure the leader's write cadence: `interval` average global ticks
    /// between writes (`None` to disable), and whether writes are `disruptive`.
    pub fn writes(self, interval: Option<Time>, disruptive: bool) -> (r: Self)
        ensures
            r@ == (Config { write_interval: interval, write_disruptive: disruptive, ..self@ }),
    {
        let mut s = self;
        s.write_interval = interval;
        s.write_disruptive = disruptive;
        s
    }

    /// Append the leases by which every node other than `holder` grants to it.
    fn grant_to(self, holder: NodeId) -> (r: Self)
        ensures
            r@ == (Config {
                leases: self@.leases + grants_to(holder, self@.nodes.len() as int),
                ..self@
            }),
    {
        let mut s = self;
        let mut g: usize = 0;
        assert(s.leases@ =~= self@.leases + grants_to(holder, 0));
        while g < s.nodes.len()
            invariant
                g <= s.nodes@.len(),
                s@ == (Config { leases: self@.leases + grants_to(holder, g as int), ..self@ }),
            decreases s.nodes@.len() - g,
        {
            if g != holder {
                s.leases.push(LeaseId { grantor: g, grantee: holder });
            }
            g = g + 1;
            assert(s.leases@ =~= self@.leases + grants_to(holder, g as int));
        }
        s
    }

    /// Declare the all-to-one pattern of leader leases: every node grants to
    /// `leader`. The leader's own grant is implicit (counted as +1 by the
    /// consumer, per the majority rule), so the self-lease is skipped here.
    pub fn all_to_one(self, leader: NodeId) -> (r: Self)
        ensures
            r@ == (Config {
                leases: self@.leases + grants_to(leader, self@.nodes.len() as int),
                ..self@
            }),
    {
        self.grant_to(leader)
    }

    /// Declare the all-to-many pattern of quorum read leases: every node grants
    /// to each holder in `holders` (a holder's grant to itself is implicit and
    /// skipped). The holders are the configurable subset of local readers.
    pub fn all_to_many(self, holders: &[NodeId]) -> (r: Self)
        ensures
            r@ == (Config {
                leases: self@.leases + grants_to_each(
                    holders@,
                    self@.nodes.len() as int,
                    holders@.len() as int,
                ),
                ..self@
            }),
    {
        let mut s = self;
        let mut k: usize = 0;
        let ghost n = self@.nodes.len() as int;
        assert(s.leases@ =~= self@.leases + grants_to_each(holders@, n, 0));
        while k < holders.len()
            invariant
                k <= holders@.len(),
                n == self@.nodes.len(),
                s@ == (Config {
                    leases: self@.leases + grants_to_each(holders@, n, k as int),
                    ..self@
                }),
            decreases holders@.len() - k,
        {
            s = s.grant_to(holders[k]);
            k = k + 1;
            assert(s.leases@ =~= self@.leases + grants_to_each(holders@, n, k as int));
        }
        s
    }

    /// Declare the all-to-all pattern of roster leases: every ordered pair of
    /// distinct nodes gets a lease. Each node thus grants to, and holds from,
    /// every peer.
    pub fn all_to_all(self) -> (r: Self)
        ensures
            r@ == (Config {
                leases: self@.leases + roster(
                    self@.nodes.len() as int,
                    self@.nodes.len() as int,
                ),
                ..self@
            }),
    {
        let mut s = self;
        let mut g: usize = 0;
        let ghost n = self@.nodes.len() as int;
        assert(s.leases@ =~= self@.leases + roster(n, 0));
        while g < s.nodes.len()
            invariant
                g <= s.nodes@.len(),
                n == self@.nodes.len(),
                s@ == (Config { leases: self@.leases + roster(n, g as int), ..self@ }),
            decreases s.nodes@.len() - g,
        {
            let mut h: usize = 0;
            let ghost before = s.leases@;
            assert(s.leases@ =~= before + grants_from(g, 0));
            while h < s.nodes.len()
                invariant
                    h <= s.nodes@.len(),
                    g < s.nodes@.len(),
                    n == self@.nodes.len(),
                    s@ == (Config { leases: before + grants_from(g, h as int), ..self@ }),
                decreases s.nodes@.len() - h,
            {
                if g != h {
                    s.leases.push(LeaseId { grantor: g, grantee: h });
                }
                h = h + 1;
                assert(s.leases@ =~= before + grants_from(g, h as int));
            }
            g = g + 1;
            assert(s.leases@ =~= self@.leases + roster(n, g as int));
        }
        s
    }

    /// Script a command to fire at global time `at`. Deterministic per seed.
    pub fn command(self, at: Time, cmd: Command) -> (r: Self)
        ensures
            r@ == (Config { commands: self@.commands.push((at, cmd)), ..self@ }),
    {
        let mut s = self;
        s.commands.push((at, cmd));
        s
    }

    /// Number of nodes in the scenario.
    pub fn node_count(&self) -> (r: usize)
        ensures
            r == self@.nodes.len(),
    {
        self.nodes.len()
    }

    /// Look up the configured link for `from -> to`, or a default if unset.
    pub fn link_config(&self, from: NodeId, to: NodeId) -> (r: LinkConfig)
        ensures
            r == self@.link(from, to),
    {
        let p: usize = self.find_link(from, to);
        if p < self.links.len() {
            self.links[p]
        } else {
            LinkConfig::new(from, to)
        }
    }

    /// Whether the scenario can be run: every id it holds names one of its
    /// nodes, and no tick quantity is beyond [`LIMIT`].
    pub fn is_valid(&self) -> (r: bool)
        ensures
            r == self@.valid(),
    {
        if self.duration < 0 || self.duration > LIMIT {
            return false;
        }
        if !(is_within_limit(self.params.t_guard) && is_within_limit(self.params.t_lease)
            && is_within_limit(self.params.t_delta) && is_within_limit(
            self.params.renew_interval,
        )) {
            return false;
        }
        if let Some(iv) = self.write_interval {
            if !is_within_limit(iv) {
                return false;
            }
        }
        let mut i: usize = 0;
        while i < self.nodes.len()
            invariant
                0 <= i <= self.nodes@.len(),
                forall|j: int| 0 <= j < i ==> node_valid(#[trigger] self@.nodes[j], self@.duration),
            decreases self.nodes@.len() - i,
        {
            if !clock_is_valid(&self.nodes[i].clock, self.duration) || !delay_is_valid(
                &self.nodes[i].response_delay,
            ) {
                assert(!node_valid(self@.nodes[i as int], self@.duration));
                return false;
            }
            i = i + 1;
        }
        let mut i: usize = 0;
        while i < self.links.len()
            invariant
                0 <= i <= self.links@.len(),
                forall|j: int| 0 <= j < i ==> delay_valid((#[trigger] self@.links[j]).delay),
            decreases self.links@.len() - i,
        {
            if !delay_is_valid(&self.links[i].delay) {
                assert(!delay_valid(self@.links[i as int].delay));
                return false;
            }
            i = i + 1;
        }
        let n: usize = self.nodes.len();
        let mut i: usize = 0;
        while i < self.leases.len()
            invariant
                0 <= i <= self.leases@.len(),
                n == self.nodes@.len(),
                forall|j: int|
                    0 <= j < i ==> (#[trigger] self@.leases[j]).grantor < n
                        && self@.leases[j].grantee < n,
            decreases self.leases@.len() - i,
        {
            if self.leases[i].grantor >= n || self.leases[i].grantee >= n {
                assert(!(self@.leases[i as int].grantor < n && self@.leases[i as int].grantee < n));
                return false;
            }
            i = i + 1;
        }
        let mut i: usize = 0;
        while i < self.commands.len()
            invariant
                0 <= i <= self.commands@.len(),
                n == self.nodes@.len(),
                forall|j: int|
                    0 <= j < i ==> command_valid((#[trigger] self@.commands[j]).1, n as nat),
            decreases self.commands@.len() - i,
        {
            if !command_is_valid(&self.commands[i].1, n) {
                assert(!command_valid(self@.commands[i as int].1, n as nat));
                return false;
            }
            i = i + 1;
        }
        true
    }
}

/// A default node can take part in any run of up to `2^53` ticks.
pub proof fn lemma_default_node_valid(duration: Time)
    requires
        0 <= duration <= UNIT,
    ensures
        node_valid(default_node(), duration),
{
    crate::clock::law_perfect_clock_is_identity(default_node().clock, duration as int);
}

/// A declared link is what a later look-up finds, and declaring it changes no
/// other link.
pub proof fn law_link_override_is_found(
    config: Config,
    link: LinkConfig,
    from: NodeId,
    to: NodeId,
)
    ensures
        ({
            let p = link_position(config.links, link.from, link.to, 0);
            let after = Config {
                links: if p < config.links.len() {
                    config.links.update(p, link)
                } else {
                    config.links.push(link)
                },
                ..config
            };
            &&& link.connects(from, to) ==> after.link(from, to) == link
            &&& !link.connects(from, to) ==> after.link(from, to) == config.link(from, to)
        }),
{
    let p = link_position(config.links, link.from, link.to, 0);
    lemma_link_position(config.links, link.from, link.to, 0);
    lemma_link_position(config.links, from, to, 0);
    let after = if p < config.links.len() {
        config.links.update(p, link)
    } else {
        config.links.push(link)
    };
    lemma_link_position(after, from, to, 0);
    let a = link_position(after, from, to, 0);
    let b = link_position(config.links, from, to, 0);
    if link.connects(from, to) {
        assert(after[p].connects(from, to));
        if a < p {
            assert(after[a] == config.links[a]);
        }
    } else {
        if p < config.links.len() {
            assert(config.links[p].connects(link.from, link.to));
        }
        if a < b && a < after.len() {
            assert(after[a].connects(from, to));
            if a != p {
                assert(config.links[a] == after[a]);
            }
        }
        if b < a && b < config.links.len() {
            assert(after[b] == config.links[b]);
        }
    }
}

/// [`link_position`] is the least index with a link `from -> to`.
proof fn lemma_link_position(links: Seq<LinkConfig>, from: NodeId, to: NodeId, k: int)
    requires
        0 <= k <= links.len(),
    ensures
        ({
            let p = link_position(links, from, to, k);
            &&& k <= p <= links.len()
            &&& p < links.len() ==> links[p].connects(from, to)
            &&& forall|j: int| k <= j < p ==> !(#[trigger] links[j]).connects(from, to)
        }),
    decreases links.len() - k,
{
    if k < links.len() && !links[k].connects(from, to) {
        lemma_link_position(links, from, to, k + 1);
    }
}

/// Among `n` nodes, every node but the holder grants to the holder, once.
pub proof fn law_grants_to(holder: NodeId, n: int)
    requires
        0 <= n <= usize::MAX,
    ensures
        grants_to(holder, n).len() == n - (if holder < n {
            1int
        } else {
            0
        }),
        forall|id: LeaseId|
            #[trigger] grants_to(holder, n).contains(id) <==> id.grantee == holder && id.grantor
                != holder && id.grantor < n,
        grants_to(holder, n).no_duplicates(),
    decreases n,
{
    broadcast use vstd::seq_lib::group_seq_properties;
    if n > 0 {
        law_grants_to(holder, n - 1);
        let rest = grants_to(holder, n - 1);
        let s = grants_to(holder, n);
        if n - 1 != holder {
            let last = LeaseId { grantor: (n - 1) as usize, grantee: holder };
            assert(s == rest.push(last));
            assert(!rest.contains(last));
            assert forall|id: LeaseId| #[trigger] s.contains(id) <==> id.grantee == holder
                && id.grantor != holder && id.grantor < n by {
                assert(s.contains(id) <==> rest.contains(id) || id == last);
            }
        }
    }
}

/// Among `n` nodes, a node grants to every other node, once.
pub proof fn law_grants_from(grantor: NodeId, n: int)
    requires
        0 <= n <= usize::MAX,
    ensures
        grants_from(grantor, n).len() == n - (if grantor < n {
            1int
        } else {
            0
        }),
        forall|id: LeaseId|
            #[trigger] grants_from(grantor, n).contains(id) <==> id.grantor == grantor && id.grantee
                != grantor && id.grantee < n,
        grants_from(grantor, n).no_duplicates(),
    decreases n,
{
    broadcast use vstd::seq_lib::group_seq_properties;
    if n > 0 {
        law_grants_from(grantor, n - 1);
        let rest = grants_from(grantor, n - 1);
        let s = grants_from(grantor, n);
        if n - 1 != grantor {
            let last = LeaseId { grantor, grantee: (n - 1) as usize };
            assert(s == rest.push(last));
            assert(!rest.contains(last));
            assert forall|id: LeaseId| #[trigger] s.contains(id) <==> id.grantor == grantor
                && id.grantee != grantor && id.grantee < n by {
                assert(s.contains(id) <==> rest.contains(id) || id == last);
            }
        }
    }
}

/// The quorum pattern declares `n - 1` leases for each holder among `n` nodes.
pub proof fn law_grants_to_each_len(holders: Seq<NodeId>, n: int, k: int)
    requires
        0 <= n <= usize::MAX,
        0 <= k <= holders.len(),
        forall|i: int| 0 <= i < holders.len() ==> (#[trigger] holders[i]) < n,
    ensures
        grants_to_each(holders, n, k).len() == k * (n - 1),
    decreases k,
{
    if k > 0 {
        law_grants_to_each_len(holders, n, k - 1);
        law_grants_to(holders[k - 1], n);
        assert((k - 1) * (n - 1) + (n - 1) == k * (n - 1)) by (nonlinear_arith);
    } else {
        assert(k * (n - 1) == 0) by (nonlinear_arith)
            requires
                k == 0,
        ;
    }
}

/// The roster declares every ordered pair of distinct nodes, exactly once:
/// `n * (n - 1)` leases among `n` nodes.
pub proof fn law_roster(n: int, k: int)
    requires
        0 <= k <= n <= usize::MAX,
    ensures
        roster(n, k).len() == k * (n - 1),
        forall|id: LeaseId|
            #[trigger] roster(n, k).contains(id) <==> id.grantor < k && id.grantee < n && id.grantor
                != id.grantee,
        roster(n, k).no_duplicates(),
    decreases k,
{
    if k > 0 {
        law_roster(n, k - 1);
        let g = (k - 1) as usize;
        law_grants_from(g, n);
        let (a, b) = (roster(n, k - 1), grants_from(g, n));
        let s = a + b;
        assert((k - 1) * (n - 1) + (n - 1) == k * (n - 1)) by (nonlinear_arith);
        assert forall|id: LeaseId| #[trigger] s.contains(id) <==> id.grantor < k && id.grantee < n
            && id.grantor != id.grantee by {
            assert(s.contains(id) <==> a.contains(id) || b.contains(id)) by {
                broadcast use vstd::seq_lib::group_seq_properties;
            }
        }
        assert forall|i: int, j: int| 0 <= i < s.len() && 0 <= j < s.len() && i != j implies s[i]
            != s[j] by {
            if i < a.len() {
                assert(a.contains(s[i]));
            } else {
                assert(s[i] == b[i - a.len()]);
                assert(b.contains(s[i]));
            }
            if j < a.len() {
                assert(a.contains(s[j]));
            } else {
                assert(s[j] == b[j - a.len()]);
                assert(b.contains(s[j]));
            }
        }
    }
}

/// A span of ticks, either way, of at most `2^58`.
pub open spec fn is_moderate(x: int) -> bool {
    -0x400_0000_0000_0000 <= x <= 0x400_0000_0000_0000
}

/// A delay of moderate length.
pub open spec fn is_moderate_delay(d: Dist) -> bool {
    match d {
        Dist::Fixed(v) => v <= 0x400_0000_0000_0000,
        Dist::Uniform { lo, hi } => is_moderate(lo as int) && is_moderate(hi as int),
        Dist::Normal { .. } => true,
    }
}

/// Which scenarios can be run: those whose leases and commands name nodes that there are,
/// and all of whose times are moderate, those that clocks show by the end of the run
/// included.
pub proof fn law_which_scenarios_run(cfg: Config)
    ensures
        cfg.valid() <==> {
            &&& 0 <= cfg.duration <= 0x400_0000_0000_0000
            &&& is_moderate(cfg.params.t_guard as int)
            &&& is_moderate(cfg.params.t_lease as int)
            &&& is_moderate(cfg.params.t_delta as int)
            &&& is_moderate(cfg.params.renew_interval as int)
            &&& cfg.write_interval matches Some(iv) ==> is_moderate(iv as int)
            &&& cfg.kind_drop.len() == 9
            &&& cfg.kind_drop_from.len() == 9
            &&& forall|i: int|
                0 <= i < cfg.nodes.len() ==> {
                    let node = #[trigger] cfg.nodes[i];
                    &&& node.clock.drift.wf()
                    &&& magnitude(node.clock.offset as int) + node.clock.elapsed(
                        cfg.duration as int,
                    ) <= 0x400_0000_0000_0000
                    &&& is_moderate_delay(node.response_delay)
                }
            &&& forall|i: int|
                0 <= i < cfg.links.len() ==> is_moderate_delay((#[trigger] cfg.links[i]).delay)
            &&& forall|i: int|
                0 <= i < cfg.leases.len() ==> (#[trigger] cfg.leases[i]).grantor < cfg.nodes.len()
                    && cfg.leases[i].grantee < cfg.nodes.len()
            &&& forall|i: int|
                0 <= i < cfg.commands.len() ==> match (#[trigger] cfg.commands[i]).1 {
                    Command::FailNode(node) => node < cfg.nodes.len(),
                    Command::RecoverNode(node) => node < cfg.nodes.len(),
                    _ => true,
                }
        },
{
    assert forall|i: int| 0 <= i < cfg.nodes.len() implies node_valid(
        #[trigger] cfg.nodes[i],
        cfg.duration,
    ) == ({
        let node = cfg.nodes[i];
        &&& node.clock.drift.wf()
        &&& magnitude(node.clock.offset as int) + node.clock.elapsed(cfg.duration as int)
            <= 0x400_0000_0000_0000
        &&& is_moderate_delay(node.response_delay)
    }) by {}
    assert forall|i: int| 0 <= i < cfg.links.len() implies delay_valid(
        (#[trigger] cfg.links[i]).delay,
    ) == is_moderate_delay(cfg.links[i].delay) by {}
    assert forall|i: int| 0 <= i < cfg.commands.len() implies command_valid(
        (#[trigger] cfg.commands[i]).1,
        cfg.nodes.len(),
    ) == (match cfg.commands[i].1 {
        Command::FailNode(node) => node < cfg.nodes.len(),
        Command::RecoverNode(node) => node < cfg.nodes.len(),
        _ => true,
    }) by {}
}

} // verus!
