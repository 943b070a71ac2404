//! The simulator playground: the scenario-setup knobs over a live run.
//!
//! A `Play` press builds a [`Scenario`] from the current knobs and *generates* the
//! run live. The run keeps playing until the user pauses it or it reaches the
//! [`MAX_TICKS`] cap. Once paused (or capped) the whole recorded run stays put and
//! the slider freely scrubs it, and a paused run can be resumed from where it left
//! off. Any change to a scenario knob discards the run and returns the canvas to
//! static editing.

use crate::clock::Time;
use crate::dist::{sampled, samples_within, NormalDraw};
use crate::event::{LeaseId, MsgKind, NodeId};
use crate::prob::Prob;
use crate::rounding::{HALF_UNIT, UNIT};
use crate::run::{Run, SimRun, StopWhen};
use crate::scenario::{
    default_node, entry, lemma_default_node_valid, Config, NodeConfig, Scenario, LIMIT,
};
use crate::topology::{
    ascending, law_leases_are_listed, law_leases_tell_the_shape, shape_of, Shape, Topology,
};
use std::collections::BTreeSet;
use vstd::prelude::*;

verus! {

broadcast use vstd::std_specs::btree::group_btree_axioms;

/// Node-count bounds for the slider.
pub const MIN_NODES: usize = 2;

pub const MAX_NODES: usize = 9;

/// Cap on how long a run may play. A run keeps generating until the user pauses
/// it or it reaches this many ticks; hitting the cap ends the run (`Stopped`).
pub const MAX_TICKS: Time = 60_000;

/// A per-message-kind drop rate: one of five levels (Off / 1% / 10% / 30% /
/// 100%). The selectable values for each msg-drop switch (Guard, its reply,
/// Renew, its reply).
#[derive(Debug, Clone, Copy, PartialEq, Eq, Structural)]
pub enum FailRate {
    Off,
    Tiny,
    Low,
    Mid,
    All,
}

impl FailRate {
    /// The drop probability, in units of `2^-53`: each is the one nearest to its
    /// percentage whose complement is a double.
    pub open spec fn loss(self) -> Prob {
        match self {
            FailRate::Off => Prob { num: 0 },
            FailRate::Tiny => Prob { num: 90_071_992_547_410 },
            FailRate::Low => Prob { num: 900_719_925_474_099 },
            FailRate::Mid => Prob { num: 2_702_159_776_422_298 },
            FailRate::All => Prob { num: UNIT },
        }
    }

    /// The drop probability this rate applies to its message kind.
    pub fn prob(self) -> (r: Prob)
        ensures
            r == self.loss(),
    {
        match self {
            FailRate::Off => Prob::never(),
            FailRate::Tiny => Prob { num: 90_071_992_547_410 },
            FailRate::Low => Prob { num: 900_719_925_474_099 },
            FailRate::Mid => Prob { num: 2_702_159_776_422_298 },
            FailRate::All => Prob::always(),
        }
    }

    /// The words on the switch.
    pub fn label(self) -> (r: &'static str)
        ensures
            r@ == match self {
                FailRate::Off => "Off"@,
                FailRate::Tiny => "1%"@,
                FailRate::Low => "10%"@,
                FailRate::Mid => "30%"@,
                FailRate::All => "100%"@,
            },
    {
        match self {
            FailRate::Off => "Off",
            FailRate::Tiny => "1%",
            FailRate::Low => "10%",
            FailRate::Mid => "30%",
            FailRate::All => "100%",
        }
    }
}

/// How often the leader serves a write request: never, or on an average
/// interval (± jitter). The selectable values for the "Every" write switch.
#[derive(Debug, Clone, Copy, PartialEq, Eq, Structural)]
pub enum WriteEvery {
    Never,
    Slow,
    Mid,
    Fast,
}

impl WriteEvery {
    /// The average write interval in ticks, or `None` to never write.
    pub open spec fn period(self) -> Option<Time> {
        match self {
            WriteEvery::Never => None,
            WriteEvery::Slow => Some(3000),
            WriteEvery::Mid => Some(1000),
            WriteEvery::Fast => Some(300),
        }
    }

    /// The average write interval in ticks, or `None` to never write.
    pub fn interval(self) -> (r: Option<Time>)
        ensures
            r == self.period(),
    {
        match self {
            WriteEvery::Never => None,
            WriteEvery::Slow => Some(3000),
            WriteEvery::Mid => Some(1000),
            WriteEvery::Fast => Some(300),
        }
    }

    /// The words on the switch.
    pub fn label(self) -> (r: &'static str)
        ensures
            r@ == match self {
                WriteEvery::Never => "Never"@,
                WriteEvery::Slow => "3000 ticks"@,
                WriteEvery::Mid => "1000 ticks"@,
                WriteEvery::Fast => "300 ticks"@,
            },
    {
        match self {
            WriteEvery::Never => "Never",
            WriteEvery::Slow => "3000 ticks",
            WriteEvery::Mid => "1000 ticks",
            WriteEvery::Fast => "300 ticks",
        }
    }
}

/// A starting-point scenario shape: the four algorithm levels plus a small
/// lease-manager topology (one grantor fanning out to several grantees).
#[derive(Debug, Clone, Copy, PartialEq, Eq, Structural)]
pub enum Preset {
    OneToOne,
    LeaseManager,
    Leader,
    Quorum,
    Roster,
}

impl Preset {
    /// Node count, grantor ids and grantee ids.
    pub open spec fn shape(self) -> (usize, Seq<NodeId>, Seq<NodeId>) {
        match self {
            Preset::OneToOne => (2, seq![0], seq![1]),
            Preset::LeaseManager => (4, seq![0], seq![1, 2, 3]),
            Preset::Leader => (5, seq![0, 1, 2, 3, 4], seq![0]),
            Preset::Quorum => (5, seq![0, 1, 2, 3, 4], seq![1, 3]),
            Preset::Roster => (5, seq![0, 1, 2, 3, 4], seq![0, 1, 2, 3, 4]),
        }
    }

    /// Guard loss, renew loss, write cadence and disruptiveness.
    pub open spec fn loads(self) -> (FailRate, FailRate, WriteEvery, bool) {
        match self {
            Preset::OneToOne => (FailRate::Tiny, FailRate::Tiny, WriteEvery::Never, false),
            Preset::LeaseManager => (FailRate::Tiny, FailRate::Tiny, WriteEvery::Never, false),
            Preset::Leader => (FailRate::Tiny, FailRate::Tiny, WriteEvery::Slow, false),
            Preset::Quorum => (FailRate::Tiny, FailRate::Tiny, WriteEvery::Slow, true),
            Preset::Roster => (FailRate::Tiny, FailRate::Tiny, WriteEvery::Slow, false),
        }
    }

    /// (node count, grantor ids, grantee ids) this preset expands to.
    pub fn expand(self) -> (r: (usize, Vec<NodeId>, Vec<NodeId>))
        ensures
            (r.0, r.1@, r.2@) == self.shape(),
    {
        let r: (usize, Vec<NodeId>, Vec<NodeId>) = match self {
            Preset::OneToOne => (2, vec![0], vec![1]),
            Preset::LeaseManager => (4, vec![0], vec![1, 2, 3]),
            Preset::Leader => (5, vec![0, 1, 2, 3, 4], vec![0]),
            Preset::Quorum => (5, vec![0, 1, 2, 3, 4], vec![1, 3]),
            Preset::Roster => (5, vec![0, 1, 2, 3, 4], vec![0, 1, 2, 3, 4]),
        };
        assert(r.1@ =~= self.shape().1);
        assert(r.2@ =~= self.shape().2);
        r
    }

    /// The failure/write switch settings this preset presents:
    /// `(guard_fail, renew_fail, write_every, write_disruptive)`.
    pub fn switches(self) -> (r: (FailRate, FailRate, WriteEvery, bool))
        ensures
            r == self.loads(),
    {
        match self {
            Preset::OneToOne => (FailRate::Tiny, FailRate::Tiny, WriteEvery::Never, false),
            Preset::LeaseManager => (FailRate::Tiny, FailRate::Tiny, WriteEvery::Never, false),
            Preset::Leader => (FailRate::Tiny, FailRate::Tiny, WriteEvery::Slow, false),
            Preset::Quorum => (FailRate::Tiny, FailRate::Tiny, WriteEvery::Slow, true),
            Preset::Roster => (FailRate::Tiny, FailRate::Tiny, WriteEvery::Slow, false),
        }
    }

    /// The words on the pill.
    pub fn label(self) -> (r: &'static str)
        ensures
            r@ == match self {
                Preset::OneToOne => "One-to-One"@,
                Preset::LeaseManager => "Lease Manager"@,
                Preset::Leader => "Leader Leases"@,
                Preset::Quorum => "Quorum Leases"@,
                Preset::Roster => "Roster Leases"@,
            },
    {
        match self {
            Preset::OneToOne => "One-to-One",
            Preset::LeaseManager => "Lease Manager",
            Preset::Leader => "Leader Leases",
            Preset::Quorum => "Quorum Leases",
            Preset::Roster => "Roster Leases",
        }
    }
}

/// The seed made of two halves.
pub fn seed_of(hi: u32, lo: u32) -> (r: u64)
    ensures
        r == hi * 0x1_0000_0000 + lo,
{
    hi as u64 * 0x1_0000_0000 + lo as u64
}

/// A node that initiates the leases it grants with an even chance per poll.
pub open spec fn eager(node: NodeConfig) -> NodeConfig {
    NodeConfig { initiate_chance: Prob { num: HALF_UNIT }, ..node }
}

/// Let the node initiate the leases it grants with an even chance per poll.
fn make_eager(node: &mut NodeConfig)
    ensures
        *final(node) == eager(*old(node)),
{
    node.initiate_chance = Prob { num: HALF_UNIT };
}

/// The scenario that the knobs describe.
pub open spec fn built(
    shape: Shape,
    guard_fail: FailRate,
    guard_reply_fail: FailRate,
    renew_fail: FailRate,
    renew_reply_fail: FailRate,
    write_every: WriteEvery,
    write_disruptive: bool,
    seed: u64,
) -> Config {
    let fresh = Config::fresh(shape.n);
    Config {
        seed,
        duration: MAX_TICKS,
        nodes: Seq::new(
            shape.n,
            |i: int| eager(default_node()),
        ),
        kind_drop: fresh.kind_drop.update(MsgKind::Guard.ordinal(), guard_fail.loss()).update(
            MsgKind::GuardReply.ordinal(),
            guard_reply_fail.loss(),
        ).update(MsgKind::Renew.ordinal(), renew_fail.loss()).update(
            MsgKind::RenewReply.ordinal(),
            renew_reply_fail.loss(),
        ),
        write_interval: write_every.period(),
        write_disruptive,
        leases: shape.leases(),
        ..fresh
    }
}

/// Build a scenario from the chosen knobs: every node initiates the leases it
/// grants (per-poll chance, so guarding starts at a staggered random time),
/// links have no baseline loss, and no node fails. The four msg-drop switches
/// (Guard, GuardReply, Renew, RenewReply) inject a per-kind drop probability on
/// top, and the write switches set the leader's write cadence and disruptiveness.
pub fn build_scenario(
    topology: &Topology,
    guard_fail: FailRate,
    guard_reply_fail: FailRate,
    renew_fail: FailRate,
    renew_reply_fail: FailRate,
    write_every: WriteEvery,
    write_disruptive: bool,
    seed: u64,
) -> (r: Scenario)
    ensures
        r@ == built(
            topology@,
            guard_fail,
            guard_reply_fail,
            renew_fail,
            renew_reply_fail,
            write_every,
            write_disruptive,
            seed,
        ),
        topology@.lists(r@.leases),
        r@.valid(),
{
    let fresh = Scenario::new(topology.n).seed(seed).duration(MAX_TICKS);
    let ghost plain = fresh@;
    let willing = fresh.all_nodes(make_eager);
    assert forall|k: int| 0 <= k < topology.n implies #[trigger] willing@.nodes[k] == eager(
        default_node(),
    ) by {
        assert(entry(plain.nodes, k, default_node()));
        assert(entry(willing@.nodes, k, willing@.nodes[k]));
    }
    let mut s = willing.kind_drop(MsgKind::Guard, guard_fail.prob()).kind_drop(
        MsgKind::GuardReply,
        guard_reply_fail.prob(),
    ).kind_drop(MsgKind::Renew, renew_fail.prob()).kind_drop(
        MsgKind::RenewReply,
        renew_reply_fail.prob(),
    ).writes(write_every.interval(), write_disruptive);
    let pairs: Vec<LeaseId> = topology.pairs();
    let ghost bare = s@;
    let mut i: usize = 0;
    assert(bare.leases =~= pairs@.take(0));
    while i < pairs.len()
        invariant
            i <= pairs@.len(),
            s@ == (Config { leases: pairs@.take(i as int), ..bare }),
        decreases pairs@.len() - i,
    {
        s = s.lease(pairs[i].grantor, pairs[i].grantee);
        assert(s@.leases =~= pairs@.take(i + 1));
        i = i + 1;
    }
    assert(pairs@.take(i as int) =~= pairs@);
    proof {
        let goal = built(
            topology@,
            guard_fail,
            guard_reply_fail,
            renew_fail,
            renew_reply_fail,
            write_every,
            write_disruptive,
            seed,
        );
        assert(s@.nodes =~= goal.nodes);
        assert(s@.kind_drop =~= goal.kind_drop);
        lemma_default_node_valid(MAX_TICKS);
        assert forall|k: int| 0 <= k < s@.leases.len() implies (#[trigger] s@.leases[k]).grantor
            < topology.n && s@.leases[k].grantee < topology.n by {
            assert(pairs@.contains(pairs@[k]));
        }
    }
    s
}

/// The ids below `n`.
pub open spec fn below(n: nat) -> Set<NodeId> {
    Set::new(|id: NodeId| id < n)
}

/// The set with `id` taken out, or put in if it was not there.
pub open spec fn toggled(set: Set<NodeId>, id: NodeId) -> Set<NodeId> {
    if set.contains(id) {
        set.remove(id)
    } else {
        set.insert(id)
    }
}

/// All ids below `n`; none if `set` is that already.
pub open spec fn all_toggled(set: Set<NodeId>, n: nat) -> Set<NodeId> {
    if set == below(n) {
        Set::empty()
    } else {
        below(n)
    }
}

/// Take `id` out of the set, or put it in.
pub fn toggle_id(set: &mut BTreeSet<NodeId>, id: NodeId)
    ensures
        final(set)@ == toggled(old(set)@, id),
{
    if !set.remove(&id) {
        set.insert(id);
    }
}

/// The set of the ids below `n`.
fn first_ids(n: usize) -> (r: BTreeSet<NodeId>)
    ensures
        r@ == below(n as nat),
{
    let mut all: BTreeSet<NodeId> = BTreeSet::new();
    let mut id: usize = 0;
    assert(all@ =~= below(0));
    while id < n
        invariant
            id <= n,
            all@ == below(id as nat),
        decreases n - id,
    {
        all.insert(id);
        id = id + 1;
        assert(all@ =~= below(id as nat));
    }
    all
}

/// Whether the set is all of `0..n`.
pub fn all_selected(set: &BTreeSet<NodeId>, n: usize) -> (r: bool)
    ensures
        r == (set@ == below(n as nat)),
{
    let ids: Vec<NodeId> = ascending(set);
    let mut k: usize = 0;
    while k < ids.len()
        invariant
            k <= ids@.len(),
            k <= n,
            ids@.to_set() == set@,
            forall|i: int, j: int| 0 <= i < j < ids@.len() ==> ids@[i] < ids@[j],
            forall|i: int| 0 <= i < k ==> ids@[i] == i,
        decreases ids@.len() - k,
    {
        assert(ids@.to_set().contains(ids@[k as int]));
        if k >= n {
            // The list is longer than `n`, so its ids do not all lie below `n`.
            assert(ids@[k as int] >= n) by {
                assert(k > 0 ==> ids@[k - 1] < ids@[k as int]);
            }
            return false;
        }
        if ids[k] != k {
            // Ascending ids, the first `k` of which are `0..k`, skip `k` here.
            assert(!set@.contains(k)) by {
                if ids@.to_set().contains(k) {
                    let m = choose|m: int| 0 <= m < ids@.len() && ids@[m] == k;
                    assert(m > k ==> ids@[k as int] < ids@[m]);
                    assert(k > 0 ==> ids@[k - 1] < ids@[k as int]);
                }
            }
            assert(below(n as nat).contains(k));
            return false;
        }
        k = k + 1;
    }
    if k < n {
        assert(below(n as nat).contains(k));
        assert(!ids@.to_set().contains(k));
        return false;
    }
    assert forall|id: NodeId| set@.contains(id) <==> below(n as nat).contains(id) by {
        if set@.contains(id) {
            assert(ids@.to_set().contains(id));
        }
        if id < n {
            assert(ids@[id as int] == id);
        }
    }
    assert(set@ =~= below(n as nat));
    true
}

/// Select all `0..n` if not already all-selected; otherwise clear.
pub fn toggle_all(set: &mut BTreeSet<NodeId>, n: usize)
    ensures
        final(set)@ == all_toggled(old(set)@, n as nat),
{
    if all_selected(set, n) {
        *set = BTreeSet::new();
    } else {
        *set = first_ids(n);
    }
}

/// Drop the ids from `n` on.
fn retain_below(set: &mut BTreeSet<NodeId>, n: usize)
    ensures
        final(set)@ == old(set)@.filter(|id: NodeId| id < n),
{
    let ids: Vec<NodeId> = ascending(set);
    let ghost all = set@;
    let mut kept: BTreeSet<NodeId> = BTreeSet::new();
    let mut k: usize = 0;
    while k < ids.len()
        invariant
            k <= ids@.len(),
            ids@.to_set() == all,
            forall|id: NodeId|
                kept@.contains(id) <==> id < n && exists|i: int|
                    0 <= i < k && #[trigger] ids@[i] == id,
        decreases ids@.len() - k,
    {
        let ghost before = kept@;
        if ids[k] < n {
            kept.insert(ids[k]);
        }
        k = k + 1;
        assert forall|id: NodeId|
            kept@.contains(id) <==> id < n && exists|i: int|
                0 <= i < k && #[trigger] ids@[i] == id by {
            assert(ids@[k - 1] == ids@[k - 1]);
            if id < n && exists|i: int| 0 <= i < k && #[trigger] ids@[i] == id {
                let i = choose|i: int| 0 <= i < k && #[trigger] ids@[i] == id;
                assert(i < k - 1 ==> before.contains(id));
            }
        }
    }
    assert forall|id: NodeId| kept@.contains(id) <==> all.filter(|id: NodeId| id < n).contains(
        id,
    ) by {
        if all.contains(id) {
            assert(ids@.to_set().contains(id));
        }
        if exists|i: int| 0 <= i < k && #[trigger] ids@[i] == id {
            assert(ids@.to_set().contains(id));
        }
    }
    assert(kept@ =~= all.filter(|id: NodeId| id < n));
    *set = kept;
}

/// The scenario-setup knobs.
#[derive(Debug, Clone)]
pub struct Knobs {
    pub node_count: usize,
    pub grantors: BTreeSet<NodeId>,
    pub grantees: BTreeSet<NodeId>,
    /// The preset that the shape came from, until it is edited.
    pub preset: Option<Preset>,
    /// Per-kind message-failure switches; not part of the scenario *shape*, so
    /// they don't clear the chosen preset when changed. Each request kind (Guard,
    /// Renew) also has a reply-drop switch for its ack (GuardReply, RenewReply).
    pub guard_fail: FailRate,
    pub guard_reply_fail: FailRate,
    pub renew_fail: FailRate,
    pub renew_reply_fail: FailRate,
    /// Write-load switches: how often the leader serves a write, and whether that
    /// write is disruptive. Like the failure switches, not part of the shape.
    pub write_every: WriteEvery,
    pub write_disruptive: bool,
}

/// What the [`Knobs`] are set to.
#[verifier::ext_equal]
pub struct Settings {
    pub node_count: usize,
    pub grantors: Set<NodeId>,
    pub grantees: Set<NodeId>,
    pub preset: Option<Preset>,
    pub guard_fail: FailRate,
    pub guard_reply_fail: FailRate,
    pub renew_fail: FailRate,
    pub renew_reply_fail: FailRate,
    pub write_every: WriteEvery,
    pub write_disruptive: bool,
}

impl Settings {
    /// The cluster has an allowed size, and every selected id names a node of it.
    pub open spec fn ok(self) -> bool {
        &&& MIN_NODES <= self.node_count <= MAX_NODES
        &&& self.shape().in_range()
    }

    /// The chosen shape.
    pub open spec fn shape(self) -> Shape {
        Shape {
            n: self.node_count as nat,
            grantors: self.grantors,
            grantees: self.grantees,
        }
    }

    /// The settings that a preset stands for. Reply drops aren't part of a preset;
    /// they are reset to the 1% default.
    pub open spec fn of_preset(p: Preset) -> Settings {
        Settings {
            node_count: p.shape().0,
            grantors: p.shape().1.to_set(),
            grantees: p.shape().2.to_set(),
            preset: Some(p),
            guard_fail: p.loads().0,
            guard_reply_fail: FailRate::Tiny,
            renew_fail: p.loads().1,
            renew_reply_fail: FailRate::Tiny,
            write_every: p.loads().2,
            write_disruptive: p.loads().3,
        }
    }

    /// The settings with the cluster resized: shrinking it drops any selected ids
    /// that no longer exist.
    pub open spec fn resized(self, n: usize) -> Settings {
        Settings {
            node_count: n,
            grantors: self.grantors.filter(|id: NodeId| id < n),
            grantees: self.grantees.filter(|id: NodeId| id < n),
            preset: None,
            ..self
        }
    }

    /// The scenario to run.
    pub open spec fn config(self, seed: u64) -> Config {
        built(
            self.shape(),
            self.guard_fail,
            self.guard_reply_fail,
            self.renew_fail,
            self.renew_reply_fail,
            self.write_every,
            self.write_disruptive,
            seed,
        )
    }

    /// Some lease is declared.
    pub open spec fn runnable(self) -> bool {
        exists|g: NodeId, h: NodeId| self.shape().declares(g, h)
    }
}

impl View for Knobs {
    type V = Settings;

    open spec fn view(&self) -> Settings {
        Settings {
            node_count: self.node_count,
            grantors: self.grantors@,
            grantees: self.grantees@,
            preset: self.preset,
            guard_fail: self.guard_fail,
            guard_reply_fail: self.guard_reply_fail,
            renew_fail: self.renew_fail,
            renew_reply_fail: self.renew_reply_fail,
            write_every: self.write_every,
            write_disruptive: self.write_disruptive,
        }
    }
}

impl Knobs {
    /// The knobs as a preset sets them.
    pub fn of_preset(p: Preset) -> (r: Self)
        ensures
            r@ == Settings::of_preset(p),
            r@.ok(),
    {
        let (n, grantors, grantees) = p.expand();
        let shape = Topology::new(n, grantors.as_slice(), grantees.as_slice());
        let (guard_fail, renew_fail, write_every, write_disruptive) = p.switches();
        Knobs {
            node_count: n,
            grantors: shape.grantors,
            grantees: shape.grantees,
            preset: Some(p),
            guard_fail,
            guard_reply_fail: FailRate::Tiny,
            renew_fail,
            renew_reply_fail: FailRate::Tiny,
            write_every,
            write_disruptive,
        }
    }

    /// The shape that the knobs describe.
    pub fn topology(&self) -> (r: Topology)
        ensures
            r@ == self@.shape(),
    {
        Topology {
            n: self.node_count,
            grantors: self.grantors.clone(),
            grantees: self.grantees.clone(),
        }
    }

    /// The scenario that the knobs describe, with a seed.
    pub fn scenario(&self, seed: u64) -> (r: Scenario)
        ensures
            r@ == self@.config(seed),
            r@.valid(),
    {
        build_scenario(
            &self.topology(),
            self.guard_fail,
            self.guard_reply_fail,
            self.renew_fail,
            self.renew_reply_fail,
            self.write_every,
            self.write_disruptive,
            seed,
        )
    }
}

/// What a [`Playground`] holds.
#[verifier::ext_equal]
pub struct Bench {
    pub knobs: Settings,
    pub run: Run,
}

/// The playground: the knobs, and the run that was last played with them.
pub struct Playground<F> {
    knobs: Knobs,
    run: SimRun<F>,
}

impl<F: Fn(NormalDraw) -> Time> View for Playground<F> {
    type V = Bench;

    closed spec fn view(&self) -> Bench {
        Bench { knobs: self.knobs@, run: self.run@ }
    }
}

impl<F: Fn(NormalDraw) -> Time> Playground<F> {
    /// The run is in order.
    pub closed spec fn run_ok(&self) -> bool {
        self.run.wf()
    }

    /// The playground is one that its methods lead to.
    pub open spec fn wf(&self) -> bool {
        &&& self@.knobs.ok()
        &&& self.run_ok()
    }

    /// The playground as it opens: the one-to-one preset, nothing played yet.
    pub fn new() -> (r: Self)
        ensures
            r.wf(),
            r@ == (Bench { knobs: Settings::of_preset(Preset::OneToOne), run: Run::idle() }),
    {
        Playground { knobs: Knobs::of_preset(Preset::OneToOne), run: SimRun::new() }
    }

    /// The knobs.
    pub fn knobs(&self) -> (r: &Knobs)
        ensures
            r@ == self@.knobs,
    {
        &self.knobs
    }

    /// The run.
    pub fn run(&self) -> (r: &SimRun<F>)
        requires
            self.wf(),
        ensures
            r@ == self@.run,
            r.wf(),
    {
        &self.run
    }

    /// Apply a preset: set the count, both selection sets, and the failure/write
    /// switches in one shot.
    pub fn apply_preset(&mut self, p: Preset)
        requires
            old(self).wf(),
        ensures
            final(self).wf(),
            final(self)@ == (Bench {
                knobs: Settings::of_preset(p),
                run: old(self)@.run.discarded(),
            }),
    {
        self.knobs = Knobs::of_preset(p);
        self.run.reset();
    }

    /// Resize the cluster, within the slider's bounds. Shrinking it drops any
    /// selected ids that no longer exist.
    pub fn set_node_count(&mut self, v: usize)
        requires
            old(self).wf(),
        ensures
            final(self).wf(),
            final(self)@ == (Bench {
                knobs: old(self)@.knobs.resized(
                    if v < MIN_NODES {
                        MIN_NODES
                    } else if v > MAX_NODES {
                        MAX_NODES
                    } else {
                        v
                    },
                ),
                run: old(self)@.run.discarded(),
            }),
    {
        let n: usize = if v < MIN_NODES {
            MIN_NODES
        } else if v > MAX_NODES {
            MAX_NODES
        } else {
            v
        };
        self.knobs.node_count = n;
        retain_below(&mut self.knobs.grantors, n);
        retain_below(&mut self.knobs.grantees, n);
        self.knobs.preset = None;
        self.run.reset();
    }

    /// Toggle one of the grantors.
    pub fn toggle_grantor(&mut self, id: NodeId)
        requires
            old(self).wf(),
            id < old(self)@.knobs.node_count,
        ensures
            final(self).wf(),
            final(self)@ == (Bench {
                knobs: Settings {
                    grantors: toggled(old(self)@.knobs.grantors, id),
                    preset: None,
                    ..old(self)@.knobs
                },
                run: old(self)@.run.discarded(),
            }),
    {
        let ghost before = self@.knobs;
        toggle_id(&mut self.knobs.grantors, id);
        self.knobs.preset = None;
        self.run.reset();
        assert forall|x: NodeId| #[trigger] self@.knobs.shape().grantors.contains(x) implies x
            < before.node_count by {
            assert(x == id || before.shape().grantors.contains(x));
        }
        assert forall|x: NodeId| #[trigger] self@.knobs.shape().grantees.contains(x) implies x
            < before.node_count by {
            assert(before.shape().grantees.contains(x));
        }
    }

    /// Select all nodes as grantors, or none if all are selected.
    pub fn toggle_all_grantors(&mut self)
        requires
            old(self).wf(),
        ensures
            final(self).wf(),
            final(self)@ == (Bench {
                knobs: Settings {
                    grantors: all_toggled(
                        old(self)@.knobs.grantors,
                        old(self)@.knobs.node_count as nat,
                    ),
                    preset: None,
                    ..old(self)@.knobs
                },
                run: old(self)@.run.discarded(),
            }),
    {
        let ghost before = self@.knobs;
        toggle_all(&mut self.knobs.grantors, self.knobs.node_count);
        self.knobs.preset = None;
        self.run.reset();
        assert forall|x: NodeId| #[trigger] self@.knobs.shape().grantors.contains(x) implies x
            < before.node_count by {
            assert(below(before.node_count as nat).contains(x));
        }
        assert forall|x: NodeId| #[trigger] self@.knobs.shape().grantees.contains(x) implies x
            < before.node_count by {
            assert(before.shape().grantees.contains(x));
        }
    }

    /// Toggle one of the grantees.
    pub fn toggle_grantee(&mut self, id: NodeId)
        requires
            old(self).wf(),
            id < old(self)@.knobs.node_count,
        ensures
            final(self).wf(),
            final(self)@ == (Bench {
                knobs: Settings {
                    grantees: toggled(old(self)@.knobs.grantees, id),
                    preset: None,
                    ..old(self)@.knobs
                },
                run: old(self)@.run.discarded(),
            }),
    {
        let ghost before = self@.knobs;
        toggle_id(&mut self.knobs.grantees, id);
        self.knobs.preset = None;
        self.run.reset();
        assert forall|x: NodeId| #[trigger] self@.knobs.shape().grantees.contains(x) implies x
            < before.node_count by {
            assert(x == id || before.shape().grantees.contains(x));
        }
        assert forall|x: NodeId| #[trigger] self@.knobs.shape().grantors.contains(x) implies x
            < before.node_count by {
            assert(before.shape().grantors.contains(x));
        }
    }

    /// Select all nodes as grantees, or none if all are selected.
    pub fn toggle_all_grantees(&mut self)
        requires
            old(self).wf(),
        ensures
            final(self).wf(),
            final(self)@ == (Bench {
                knobs: Settings {
                    grantees: all_toggled(
                        old(self)@.knobs.grantees,
                        old(self)@.knobs.node_count as nat,
                    ),
                    preset: None,
                    ..old(self)@.knobs
                },
                run: old(self)@.run.discarded(),
            }),
    {
        let ghost before = self@.knobs;
        toggle_all(&mut self.knobs.grantees, self.knobs.node_count);
        self.knobs.preset = None;
        self.run.reset();
        assert forall|x: NodeId| #[trigger] self@.knobs.shape().grantees.contains(x) implies x
            < before.node_count by {
            assert(below(before.node_count as nat).contains(x));
        }
        assert forall|x: NodeId| #[trigger] self@.knobs.shape().grantors.contains(x) implies x
            < before.node_count by {
            assert(before.shape().grantors.contains(x));
        }
    }

    /// Set the drop rate of guards.
    pub fn set_guard_fail(&mut self, value: FailRate)
        requires
            old(self).wf(),
        ensures
            final(self).wf(),
            final(self)@ == (Bench {
                knobs: Settings { guard_fail: value, ..old(self)@.knobs },
                run: old(self)@.run.discarded(),
            }),
    {
        self.knobs.guard_fail = value;
        self.run.reset();
    }

    /// Set the drop rate of guard replies.
    pub fn set_guard_reply_fail(&mut self, value: FailRate)
        requires
            old(self).wf(),
        ensures
            final(self).wf(),
            final(self)@ == (Bench {
                knobs: Settings { guard_reply_fail: value, ..old(self)@.knobs },
                run: old(self)@.run.discarded(),
            }),
    {
        self.knobs.guard_reply_fail = value;
        self.run.reset();
    }

    /// Set the drop rate of renews.
    pub fn set_renew_fail(&mut self, value: FailRate)
        requires
            old(self).wf(),
        ensures
            final(self).wf(),
            final(self)@ == (Bench {
                knobs: Settings { renew_fail: value, ..old(self)@.knobs },
                run: old(self)@.run.discarded(),
            }),
    {
        self.knobs.renew_fail = value;
        self.run.reset();
    }

    /// Set the drop rate of renew replies.
    pub fn set_renew_reply_fail(&mut self, value: FailRate)
        requires
            old(self).wf(),
        ensures
            final(self).wf(),
            final(self)@ == (Bench {
                knobs: Settings { renew_reply_fail: value, ..old(self)@.knobs },
                run: old(self)@.run.discarded(),
            }),
    {
        self.knobs.renew_reply_fail = value;
        self.run.reset();
    }

    /// Set how often the leader serves a write.
    pub fn set_write_every(&mut self, value: WriteEvery)
        requires
            old(self).wf(),
        ensures
            final(self).wf(),
            final(self)@ == (Bench {
                knobs: Settings { write_every: value, ..old(self)@.knobs },
                run: old(self)@.run.discarded(),
            }),
    {
        self.knobs.write_every = value;
        self.run.reset();
    }

    /// Set whether writes disrupt leases.
    pub fn set_write_disruptive(&mut self, value: bool)
        requires
            old(self).wf(),
        ensures
            final(self).wf(),
            final(self)@ == (Bench {
                knobs: Settings { write_disruptive: value, ..old(self)@.knobs },
                run: old(self)@.run.discarded(),
            }),
    {
        self.knobs.write_disruptive = value;
        self.run.reset();
    }

    /// Whether there is anything to play: at least one lease is declared.
    pub fn runnable(&self) -> (r: bool)
        ensures
            r == self@.knobs.runnable(),
    {
        self.knobs.topology().has_leases()
    }

    /// Play: (re)build the scenario and begin a fresh live generation, up to the
    /// tick cap. Without a lease to play there is nothing to do.
    pub fn play(&mut self, seed: u64, normal: F)
        requires
            old(self).wf(),
            samples_within(normal, LIMIT as int),
        ensures
            final(self).wf(),
            final(self)@ == (Bench {
                run: if old(self)@.knobs.runnable() {
                    old(self)@.run.started(
                        old(self)@.knobs.config(seed),
                        sampled(normal),
                        StopWhen::AtTick(MAX_TICKS),
                    )
                } else {
                    old(self)@.run
                },
                ..old(self)@
            }),
    {
        if !self.runnable() {
            return;
        }
        let scenario = self.knobs.scenario(seed);
        self.run.start(scenario, StopWhen::AtTick(MAX_TICKS), normal);
    }

    /// Halt the run at the current frame.
    pub fn pause(&mut self)
        requires
            old(self).wf(),
        ensures
            final(self).wf(),
            final(self)@ == (Bench { run: old(self)@.run.paused(), ..old(self)@ }),
    {
        self.run.pause();
    }

    /// Continue a paused run.
    pub fn resume(&mut self)
        requires
            old(self).wf(),
        ensures
            final(self).wf(),
            final(self)@ == (Bench { run: old(self)@.run.resumed(), ..old(self)@ }),
    {
        self.run.resume();
    }

    /// Discard the run.
    pub fn restart(&mut self)
        requires
            old(self).wf(),
        ensures
            final(self).wf(),
            final(self)@ == (Bench { run: old(self)@.run.discarded(), ..old(self)@ }),
    {
        self.run.reset();
    }

    /// Move the scrub cursor.
    pub fn scrub(&mut self, v: usize)
        requires
            old(self).wf(),
        ensures
            final(self).wf(),
            final(self)@ == (Bench { run: (Run { cursor: v as nat, ..old(self)@.run }), ..old(self)@ }),
    {
        self.run.set_cursor(v);
    }

    /// Toggle fast-forward.
    pub fn toggle_fast_forward(&mut self)
        requires
            old(self).wf(),
        ensures
            final(self).wf(),
            final(self)@ == (Bench { run: (Run {
                fast_forward: !old(self)@.run.fast_forward,
                ..old(self)@.run
            }), ..old(self)@ }),
    {
        self.run.toggle_fast_forward();
    }

    /// One repaint of the live run.
    pub fn repaint(&mut self)
        requires
            old(self).wf(),
        ensures
            final(self).wf(),
            final(self)@ == (Bench { run: old(self)@.run.repainted(), ..old(self)@ }),
    {
        self.run.repaint();
    }
}

/// Toggling an id twice leaves the selection as it was.
pub proof fn law_toggling_twice_restores(set: Set<NodeId>, id: NodeId)
    ensures
        toggled(toggled(set, id), id) == set,
{
    assert(toggled(toggled(set, id), id) =~= set);
}

/// Every preset is a starting point: its settings are in order, and there is a
/// lease to play.
pub proof fn law_presets_are_runnable(p: Preset)
    ensures
        Settings::of_preset(p).ok(),
        Settings::of_preset(p).runnable(),
{
    let s = Settings::of_preset(p);
    let (g, h): (NodeId, NodeId) = match p {
        Preset::OneToOne => (0, 1),
        Preset::LeaseManager => (0, 1),
        Preset::Leader => (1, 0),
        Preset::Quorum => (0, 1),
        Preset::Roster => (0, 1),
    };
    assert(p.shape().1[g as int] == g);
    assert(p.shape().2[if p == Preset::Roster {
        1int
    } else {
        0int
    }] == h);
    assert(s.grantors.contains(g));
    assert(s.grantees.contains(h));
    assert(s.shape().declares(g, h));
}

/// The scenario of the playground declares exactly the leases of the chosen shape.
pub proof fn law_scenario_has_the_shape(s: Settings, seed: u64, g: NodeId, h: NodeId)
    ensures
        shape_of(s.config(seed)).declares(g, h) <==> s.shape().declares(g, h),
{
    law_leases_are_listed(s.shape());
    law_leases_tell_the_shape(s.config(seed), s.shape(), g, h);
}

/// The drop rates are what their labels say, to within one draw of the `2^53`.
pub proof fn law_drop_rates_are_percentages(rate: FailRate)
    ensures
        ({
            let percent: int = match rate {
                FailRate::Off => 0,
                FailRate::Tiny => 1,
                FailRate::Low => 10,
                FailRate::Mid => 30,
                FailRate::All => 100,
            };
            percent * UNIT - 100 <= 100 * rate.loss().num <= percent * UNIT + 100
        }),
{
}

/// What the knobs are set to is what is played: each of the four switches sets the loss of
/// its kind of message, from the start, and nothing else is lost; nodes start leases with
/// an even chance, never fail, and keep perfect time; links are the default ones; there is
/// no script; and the leases are those of the chosen shape, each once.
pub proof fn law_knobs_set_the_scenario(s: Settings, seed: u64, kind: MsgKind, i: int)
    requires
        0 <= i < s.node_count,
    ensures
        ({
            let c = s.config(seed);
            let loss = match kind {
                MsgKind::Guard => s.guard_fail.loss(),
                MsgKind::GuardReply => s.guard_reply_fail.loss(),
                MsgKind::Renew => s.renew_fail.loss(),
                MsgKind::RenewReply => s.renew_reply_fail.loss(),
                _ => Prob { num: 0 },
            };
            &&& c.kind_drop[kind.ordinal()] == loss
            &&& c.kind_drop_from[kind.ordinal()] == 0
            &&& c.seed == seed
            &&& c.nodes.len() == s.node_count
            &&& 2 * c.nodes[i].initiate_chance.num == UNIT
            &&& c.nodes[i].fail_chance.num == 0
            &&& c.nodes[i].clock.offset == 0
            &&& c.nodes[i].clock.drift.mantissa == 1
            &&& c.nodes[i].clock.drift.shift == 0
            &&& c.nodes[i].response_delay == crate::dist::Dist::Fixed(50)
            &&& c.links.len() == 0
            &&& c.commands.len() == 0
            &&& c.duration == 60_000
            &&& c.write_interval == match s.write_every {
                WriteEvery::Never => None,
                WriteEvery::Slow => Some(3000i64),
                WriteEvery::Mid => Some(1000i64),
                WriteEvery::Fast => Some(300i64),
            }
            &&& c.write_disruptive == s.write_disruptive
            &&& c.params.t_guard == 1500
            &&& c.params.t_lease == 1500
            &&& c.params.t_delta == 100
            &&& c.params.renew_interval == 600
            &&& s.shape().lists(c.leases)
        }),
{
    law_leases_are_listed(s.shape());
}

/// Toggling an id changes whether that id is selected, and nothing else. Toggling all
/// selects every node, or none if every node is selected already.
pub proof fn law_toggling_changes_the_selection(
    set: Set<NodeId>,
    id: NodeId,
    n: nat,
    other: NodeId,
)
    ensures
        toggled(set, id).contains(id) != set.contains(id),
        other != id ==> toggled(set, id).contains(other) == set.contains(other),
        set == below(n) ==> !all_toggled(set, n).contains(other),
        set != below(n) ==> (all_toggled(set, n).contains(other) <==> other < n),
{
}

/// Resizing the cluster keeps the selected nodes that there still are, and the switches; it
/// is no preset any more.
pub proof fn law_resizing_keeps_what_fits(s: Settings, n: usize, id: NodeId)
    ensures
        ({
            let r = s.resized(n);
            &&& r.node_count == n
            &&& r.grantors.contains(id) <==> s.grantors.contains(id) && id < n
            &&& r.grantees.contains(id) <==> s.grantees.contains(id) && id < n
            &&& r.preset is None
            &&& r.guard_fail == s.guard_fail
            &&& r.guard_reply_fail == s.guard_reply_fail
            &&& r.renew_fail == s.renew_fail
            &&& r.renew_reply_fail == s.renew_reply_fail
            &&& r.write_every == s.write_every
            &&& r.write_disruptive == s.write_disruptive
        }),
{
}

} // verus!
