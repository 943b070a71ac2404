//! What the canvas shows: which edges, nodes, timers and controls there are and how
//! each is marked. Where they go, and in what colours, is up to whoever draws them.

use crate::event::{LeaseId, LeaseStatus, MsgKind, NodeId};
use crate::frame::{Fraction, Frame, LeaseBar, Picture};
use crate::grants::{
    grant_count, granted_timers, held, held_timers, node_timers, TimerBar, TimerRole,
};
use crate::run::RunPhase;
use crate::topology::{law_bar_counts_count_leases, majority, Shape, Topology};
use vstd::prelude::*;

verus! {

broadcast use vstd::std_specs::btree::group_btree_axioms;

/// A part of a whole: `num / den`.
#[derive(Debug, Clone, Copy, PartialEq, Eq, Structural)]
pub struct Share {
    pub num: usize,
    pub den: usize,
}

/// A lease edge to draw during playback, colored by the grantee's held status.
#[derive(Debug, Clone, Copy, PartialEq, Eq, Structural)]
pub struct LeaseEdge {
    pub grantor: NodeId,
    pub grantee: NodeId,
    pub status: LeaseStatus,
    /// Grantee's remaining lease life, for a countdown fade.
    pub fill: Fraction,
}

/// A node disk, with all that is drawn on and around it.
#[derive(Debug, Clone)]
pub struct StageNode {
    pub grantor: bool,
    pub grantee: bool,
    /// The node is granted by a majority of the cluster, itself included.
    pub majority: bool,
    /// The node wears the leader's crown.
    pub leader: bool,
    /// How much of the grants that the node can hold it does hold.
    pub aura: Share,
    /// As-grantor and as-grantee bar counts, known even while idle.
    pub out: usize,
    pub inc: usize,
    /// Countdown bars: grantor bars first, then grantee bars.
    pub timers: Vec<TimerBar>,
}

/// The canvas: the topology backdrop, live lease edges, and node disks.
#[derive(Debug, Clone)]
pub struct Stage {
    /// Static grantor -> grantee arrows (gray topology backdrop / editing view).
    pub edges: Vec<LeaseId>,
    pub lease_edges: Vec<LeaseEdge>,
    pub nodes: Vec<StageNode>,
}

/// The edge of a lease in playback.
pub open spec fn lease_edge(b: LeaseBar) -> LeaseEdge {
    LeaseEdge {
        grantor: b.grantor,
        grantee: b.grantee,
        status: b.grantee_status,
        fill: b.grantee_fill,
    }
}

/// The leases of the frame between nodes of the canvas.
pub open spec fn lease_edges(shape: Shape, frame: Option<Picture>) -> Seq<LeaseEdge> {
    match frame {
        Some(f) => f.leases.filter(
            |b: LeaseBar| b.grantor < shape.n && b.grantee < shape.n,
        ).map_values(|b: LeaseBar| lease_edge(b)),
        None => Seq::empty(),
    }
}

/// How many nodes, itself included, grant to `node` in the frame.
pub open spec fn supporters(frame: Option<Picture>, node: NodeId) -> nat {
    match frame {
        Some(f) => held(f.leases, node) + 1,
        None => 0,
    }
}

/// How many grants `node` holds in the frame as a grantee, its own included.
pub open spec fn grants_of(shape: Shape, frame: Option<Picture>, node: NodeId) -> nat {
    shape.own_grant(node) + match frame {
        Some(f) => held(f.leases, node),
        None => 0,
    }
}

/// `num / den`, at most one; zero of nothing.
pub open spec fn cut(num: nat, den: nat) -> (nat, nat) {
    if den == 0 {
        (0, 1)
    } else if num > den {
        (den, den)
    } else {
        (num, den)
    }
}

/// The countdowns beside `node` in the frame.
pub open spec fn timers_of(frame: Option<Picture>, node: NodeId) -> Seq<TimerBar> {
    match frame {
        Some(f) => granted_timers(f.leases, node) + held_timers(f.leases, node),
        None => Seq::empty(),
    }
}

/// The smallest-id grantee, if it is in range, is `node`.
pub open spec fn leads(shape: Shape, node: NodeId) -> bool {
    &&& shape.grantees.contains(node)
    &&& node < shape.n
    &&& forall|h: NodeId| shape.grantees.contains(h) ==> node <= h
}

impl StageNode {
    /// The disk is the one of `node`.
    pub open spec fn shows(&self, shape: Shape, frame: Option<Picture>, node: NodeId) -> bool {
        &&& self.grantor == shape.grantors.contains(node)
        &&& self.grantee == shape.grantees.contains(node)
        &&& self.majority == (supporters(frame, node) >= shape.n / 2 + 1)
        &&& self.leader == leads(shape, node)
        &&& (self.aura.num as nat, self.aura.den as nat) == cut(
            grants_of(shape, frame, node),
            shape.most_grants(node),
        )
        &&& self.out == shape.granted(node)
        &&& self.inc == shape.received(node)
        &&& self.timers@ == timers_of(frame, node)
    }
}

/// What the frame, if there is one, shows.
pub open spec fn picture_of(frame: Option<&Frame>) -> Option<Picture> {
    match frame {
        Some(f) => Some(f@),
        None => None,
    }
}

/// The canvas of a topology: its static shape, and the frame on show if there is
/// one.
pub fn stage(topology: &Topology, frame: Option<&Frame>) -> (r: Stage)
    requires
        frame matches Some(f) ==> f@.leases.len() < usize::MAX,
    ensures
        r.edges@ == topology@.leases(),
        r.lease_edges@ == lease_edges(topology@, picture_of(frame)),
        r.nodes@.len() == topology.n,
        forall|node: NodeId|
            node < topology.n ==> (#[trigger] r.nodes@[node as int]).shows(
                topology@,
                picture_of(frame),
                node,
            ),
{
    let edges: Vec<LeaseId> = topology.pairs();
    let lease_edges: Vec<LeaseEdge> = match frame {
        Some(f) => playback_edges(topology, f),
        None => Vec::new(),
    };
    let maj: usize = majority(topology.n);
    let leader: Option<NodeId> = topology.leader();
    let counts: Vec<(usize, usize)> = topology.bar_counts();
    let own: Vec<usize> = topology.self_grant();
    let most: Vec<usize> = topology.max_grants();
    let mut nodes: Vec<StageNode> = Vec::new();
    let mut node: usize = 0;
    while node < topology.n
        invariant
            node <= topology.n,
            frame matches Some(f) ==> f@.leases.len() < usize::MAX,
            maj == topology.n / 2 + 1,
            forall|m: NodeId| m < topology.n ==> (leader == Some(m) <==> leads(topology@, m)),
            counts@.len() == topology.n,
            forall|m: NodeId|
                m < topology.n ==> (#[trigger] counts@[m as int]).0 == topology@.granted(m)
                    && counts@[m as int].1 == topology@.received(m),
            own@.len() == topology.n,
            forall|m: NodeId| m < topology.n ==> #[trigger] own@[m as int] == topology@.own_grant(m),
            most@.len() == topology.n,
            forall|m: NodeId|
                m < topology.n ==> #[trigger] most@[m as int] == topology@.most_grants(m),
            nodes@.len() == node,
            forall|m: NodeId|
                m < node ==> (#[trigger] nodes@[m as int]).shows(topology@, picture_of(frame), m),
        decreases topology.n - node,
    {
        let grants: usize = match frame {
            Some(f) => grant_count(f, node),
            None => 0,
        };
        let timers: Vec<TimerBar> = match frame {
            Some(f) => node_timers(f, node),
            None => Vec::new(),
        };
        let max: usize = most[node];
        let as_grantee: usize = grants + own[node];
        let disk = StageNode {
            grantor: topology.grantors.contains(&node),
            grantee: topology.grantees.contains(&node),
            majority: frame.is_some() && grants + 1 >= maj,
            leader: match leader {
                Some(id) => id == node,
                None => false,
            },
            aura: if max == 0 {
                Share { num: 0, den: 1 }
            } else if as_grantee > max {
                Share { num: max, den: max }
            } else {
                Share { num: as_grantee, den: max }
            },
            out: counts[node].0,
            inc: counts[node].1,
            timers,
        };
        nodes.push(disk);
        node = node + 1;
    }
    Stage { edges, lease_edges, nodes }
}

/// The lease edges of a frame.
fn playback_edges(topology: &Topology, f: &Frame) -> (r: Vec<LeaseEdge>)
    ensures
        r@ == lease_edges(topology@, Some(f@)),
{
    let ghost keep = |b: LeaseBar| b.grantor < topology@.n && b.grantee < topology@.n;
    let ghost edge = |b: LeaseBar| lease_edge(b);
    let mut edges: Vec<LeaseEdge> = Vec::new();
    let mut i: usize = 0;
    assert(f.leases@.take(0).filter(keep) =~= Seq::empty()) by {
        reveal(Seq::filter);
    }
    while i < f.leases.len()
        invariant
            i <= f.leases@.len(),
            keep == (|b: LeaseBar| b.grantor < topology@.n && b.grantee < topology@.n),
            edge == (|b: LeaseBar| lease_edge(b)),
            edges@ =~= f.leases@.take(i as int).filter(keep).map_values(edge),
        decreases f.leases@.len() - i,
    {
        proof {
            reveal(Seq::filter);
            assert(f.leases@.take(i + 1).drop_last() =~= f.leases@.take(i as int));
        }
        let b: LeaseBar = f.leases[i];
        if b.grantor < topology.n && b.grantee < topology.n {
            edges.push(
                LeaseEdge {
                    grantor: b.grantor,
                    grantee: b.grantee,
                    status: b.grantee_status,
                    fill: b.grantee_fill,
                },
            );
        }
        i = i + 1;
    }
    assert(f.leases@.take(i as int) =~= f.leases@);
    edges
}

/// The nodes that get a grant-bar row: with `grantees_only`, only nodes that are
/// grantees (grants are always held *as a grantee*, so a non-grantee's row is an
/// always-empty track).
pub fn grant_rows(topology: &Topology, grantees_only: bool) -> (r: Vec<NodeId>)
    ensures
        forall|id: NodeId| #[trigger]
            r@.contains(id) <==> id < topology.n && (grantees_only ==> topology@.grantees.contains(
                id,
            )),
        forall|i: int, j: int| 0 <= i < j < r@.len() ==> r@[i] < r@[j],
{
    let mut rows: Vec<NodeId> = Vec::new();
    let mut id: usize = 0;
    while id < topology.n
        invariant
            id <= topology.n,
            forall|m: NodeId| #[trigger]
                rows@.contains(m) <==> m < id && (grantees_only ==> topology@.grantees.contains(m)),
            forall|i: int, j: int| 0 <= i < j < rows@.len() ==> rows@[i] < rows@[j],
        decreases topology.n - id,
    {
        let ghost before = rows@;
        if !grantees_only || topology.grantees.contains(&id) {
            assert forall|i: int| 0 <= i < before.len() implies before[i] < id by {
                assert(before.contains(before[i]));
            }
            rows.push(id);
            assert forall|m: NodeId| #[trigger]
                rows@.contains(m) <==> before.contains(m) || m == id by {
                if rows@.contains(m) {
                    let k = choose|k: int| 0 <= k < rows@.len() && rows@[k] == m;
                    assert(k < before.len() ==> before[k] == m);
                }
                if before.contains(m) {
                    let k = choose|k: int| 0 <= k < before.len() && before[k] == m;
                    assert(rows@[k] == m);
                }
                assert(rows@[before.len() as int] == id);
            }
        }
        id = id + 1;
    }
    rows
}

/// Row count of a node's two-column stack: the taller of its OUT / IN columns.
pub fn stack_rows(out: usize, inc: usize) -> (r: usize)
    ensures
        r == if out >= inc {
            out
        } else {
            inc
        },
{
    if out >= inc {
        out
    } else {
        inc
    }
}

/// Column count: 1 if the node is only a grantor or only a grantee, 2 if both.
pub fn stack_cols(out: usize, inc: usize) -> (r: usize)
    ensures
        r == if out > 0 && inc > 0 {
            2int
        } else if out > 0 || inc > 0 {
            1
        } else {
            0
        },
{
    let outs: usize = if out > 0 {
        1
    } else {
        0
    };
    let ins: usize = if inc > 0 {
        1
    } else {
        0
    };
    outs + ins
}

/// Plural suffix for a count: "" for 1, "s" otherwise.
pub fn plural(n: usize) -> (r: &'static str)
    ensures
        r@ == if n == 1 {
            ""@
        } else {
            "s"@
        },
{
    if n == 1 {
        ""
    } else {
        "s"
    }
}

/// Arrowhead marker id for a lease edge in playback, colored to match its stem.
pub fn ledge_marker(status: LeaseStatus) -> (r: &'static str)
    ensures
        r@ == match status {
            LeaseStatus::Active => "url(#pg-arrow-active)"@,
            LeaseStatus::Guarding => "url(#pg-arrow-guarding)"@,
            _ => "url(#pg-arrow-idle)"@,
        },
{
    match status {
        LeaseStatus::Active => "url(#pg-arrow-active)",
        LeaseStatus::Guarding => "url(#pg-arrow-guarding)",
        _ => "url(#pg-arrow-idle)",
    }
}

/// CSS class of a lease edge's stem.
pub fn ledge_class(status: LeaseStatus) -> (r: &'static str)
    ensures
        r@ == match status {
            LeaseStatus::Active => "pg-ledge is-active"@,
            LeaseStatus::Guarding => "pg-ledge is-guarding"@,
            _ => "pg-ledge is-idle"@,
        },
{
    match status {
        LeaseStatus::Active => "pg-ledge is-active",
        LeaseStatus::Guarding => "pg-ledge is-guarding",
        _ => "pg-ledge is-idle",
    }
}

/// CSS class for a message glyph, grouped (colored) by protocol phase.
pub fn msg_class(kind: MsgKind) -> (r: &'static str)
    ensures
        r@ == match kind {
            MsgKind::Guard => "pg-msg is-guard"@,
            MsgKind::GuardReply => "pg-msg is-guard is-reply"@,
            MsgKind::Renew => "pg-msg is-renew"@,
            MsgKind::RenewReply => "pg-msg is-renew is-reply"@,
            MsgKind::Revoke => "pg-msg is-revoke"@,
            MsgKind::RevokeReply => "pg-msg is-revoke is-reply"@,
            MsgKind::Write => "pg-msg is-write"@,
            MsgKind::WriteReply => "pg-msg is-write is-reply"@,
            MsgKind::Commit => "pg-msg is-commit"@,
        },
{
    match kind {
        MsgKind::Guard => "pg-msg is-guard",
        MsgKind::GuardReply => "pg-msg is-guard is-reply",
        MsgKind::Renew => "pg-msg is-renew",
        MsgKind::RenewReply => "pg-msg is-renew is-reply",
        MsgKind::Revoke => "pg-msg is-revoke",
        MsgKind::RevokeReply => "pg-msg is-revoke is-reply",
        MsgKind::Write => "pg-msg is-write",
        MsgKind::WriteReply => "pg-msg is-write is-reply",
        MsgKind::Commit => "pg-msg is-commit",
    }
}

/// Whether a message is an acknowledgement reply.
pub fn msg_is_reply(kind: MsgKind) -> (r: bool)
    ensures
        r == kind.is_reply(),
{
    match kind {
        MsgKind::GuardReply
        | MsgKind::RenewReply
        | MsgKind::RevokeReply
        | MsgKind::WriteReply => true,
        _ => false,
    }
}

/// The symbol of an in-flight message: one per protocol phase.
#[derive(Debug, Clone, Copy, PartialEq, Eq, Structural)]
pub enum Glyph {
    /// Guarding.
    Shield,
    /// Renewing.
    Cycle,
    /// A ring with a diagonal slash: "lease cancelled".
    Prohibition,
    /// Writing.
    Pencil,
    /// Committing.
    Check,
}

/// The symbol of a kind of message; a reply carries its request's.
pub fn msg_glyph(kind: MsgKind) -> (r: Glyph)
    ensures
        r == match kind {
            MsgKind::Guard => Glyph::Shield,
            MsgKind::GuardReply => Glyph::Shield,
            MsgKind::Renew => Glyph::Cycle,
            MsgKind::RenewReply => Glyph::Cycle,
            MsgKind::Revoke => Glyph::Prohibition,
            MsgKind::RevokeReply => Glyph::Prohibition,
            MsgKind::Write => Glyph::Pencil,
            MsgKind::WriteReply => Glyph::Pencil,
            MsgKind::Commit => Glyph::Check,
        },
{
    match kind {
        MsgKind::Guard | MsgKind::GuardReply => Glyph::Shield,
        MsgKind::Renew | MsgKind::RenewReply => Glyph::Cycle,
        MsgKind::Revoke | MsgKind::RevokeReply => Glyph::Prohibition,
        MsgKind::Write | MsgKind::WriteReply => Glyph::Pencil,
        MsgKind::Commit => Glyph::Check,
    }
}

/// What a countdown's node is to the other endpoint.
pub fn role_words(role: TimerRole) -> (r: &'static str)
    ensures
        r@ == match role {
            TimerRole::Grantor => "grantor to"@,
            TimerRole::Grantee => "grantee of"@,
        },
{
    match role {
        TimerRole::Grantor => "grantor to",
        TimerRole::Grantee => "grantee of",
    }
}

/// A lease status, in a word.
pub fn status_word(status: LeaseStatus) -> (r: &'static str)
    ensures
        r@ == match status {
            LeaseStatus::Active => "active"@,
            LeaseStatus::Guarding => "guarding"@,
            LeaseStatus::Expired => "expired"@,
            LeaseStatus::Inactive => "idle"@,
        },
{
    match status {
        LeaseStatus::Active => "active",
        LeaseStatus::Guarding => "guarding",
        LeaseStatus::Expired => "expired",
        LeaseStatus::Inactive => "idle",
    }
}

/// CSS class of a countdown bar: active drains in the role color; guarding drains in
/// blue (its guard-window countdown); idle/expired have no live countdown, shown as
/// a solid gray track.
pub fn timer_class(status: LeaseStatus) -> (r: &'static str)
    ensures
        r@ == match status {
            LeaseStatus::Active => "pg-timer-fill"@,
            LeaseStatus::Guarding => "pg-timer-fill is-guarding"@,
            _ => "pg-timer-fill is-inactive"@,
        },
{
    match status {
        LeaseStatus::Active => "pg-timer-fill",
        LeaseStatus::Guarding => "pg-timer-fill is-guarding",
        _ => "pg-timer-fill is-inactive",
    }
}

impl StageNode {
    /// CSS class of the node disk: its roles, and whether it has a majority.
    pub fn class(&self) -> (r: &'static str)
        ensures
            r@ == match (self.grantor, self.grantee, self.majority) {
                (true, true, true) => "pg-node is-grantor is-grantee is-majority"@,
                (true, true, false) => "pg-node is-grantor is-grantee"@,
                (true, false, true) => "pg-node is-grantor is-majority"@,
                (true, false, false) => "pg-node is-grantor"@,
                (false, true, true) => "pg-node is-grantee is-majority"@,
                (false, true, false) => "pg-node is-grantee"@,
                (false, false, true) => "pg-node is-majority"@,
                (false, false, false) => "pg-node"@,
            },
    {
        match (self.grantor, self.grantee, self.majority) {
            (true, true, true) => "pg-node is-grantor is-grantee is-majority",
            (true, true, false) => "pg-node is-grantor is-grantee",
            (true, false, true) => "pg-node is-grantor is-majority",
            (true, false, false) => "pg-node is-grantor",
            (false, true, true) => "pg-node is-grantee is-majority",
            (false, true, false) => "pg-node is-grantee",
            (false, false, true) => "pg-node is-majority",
            (false, false, false) => "pg-node",
        }
    }
}

/// The primary button of the run bar.
#[derive(Debug, Clone, Copy, PartialEq, Eq, Structural)]
pub enum RunButton {
    Pause,
    Resume,
    Play,
}

/// What the run bar offers.
#[derive(Debug, Clone, Copy, PartialEq, Eq, Structural)]
pub struct RunControls {
    pub button: RunButton,
    pub play_disabled: bool,
    /// The timeline slider can be dragged.
    pub scrubbable: bool,
    pub slider_max: usize,
    /// There is a run to throw away.
    pub restartable: bool,
}

/// The run bar's controls. Play is disabled if the scenario declares no lease, or —
/// for a canvas that locks after stopping — once it has stopped (Restart is the way
/// back).
pub fn run_controls(phase: RunPhase, runnable: bool, rec_len: usize, lock_when_stopped: bool) -> (r:
    RunControls)
    ensures
        r.button == match phase {
            RunPhase::Generating => RunButton::Pause,
            RunPhase::Paused => RunButton::Resume,
            _ => RunButton::Play,
        },
        r.play_disabled == (!runnable || lock_when_stopped && phase == RunPhase::Stopped),
        r.scrubbable == (phase == RunPhase::Paused || phase == RunPhase::Stopped),
        r.slider_max == if rec_len > 0 {
            rec_len - 1
        } else {
            0
        },
        r.restartable == (phase != RunPhase::Idle),
{
    RunControls {
        button: match phase {
            RunPhase::Generating => RunButton::Pause,
            RunPhase::Paused => RunButton::Resume,
            _ => RunButton::Play,
        },
        play_disabled: !runnable || (lock_when_stopped && phase == RunPhase::Stopped),
        scrubbable: phase == RunPhase::Paused || phase == RunPhase::Stopped,
        slider_max: if rec_len > 0 {
            rec_len - 1
        } else {
            0
        },
        restartable: phase != RunPhase::Idle,
    }
}

/// The playground's status words.
pub fn playground_status(phase: RunPhase, runnable: bool) -> (r: &'static str)
    ensures
        r@ == match (phase, runnable) {
            (RunPhase::Generating, _) => "sim running"@,
            (RunPhase::Paused, _) => "run stopped"@,
            (RunPhase::Stopped, _) => "✗ ticks limit"@,
            (RunPhase::Idle, true) => "press Play"@,
            (RunPhase::Idle, false) => "select a grantor & grantee"@,
        },
{
    match (phase, runnable) {
        (RunPhase::Generating, _) => "sim running",
        (RunPhase::Paused, _) => "run stopped",
        (RunPhase::Stopped, _) => "✗ ticks limit",
        (RunPhase::Idle, true) => "press Play",
        (RunPhase::Idle, false) => "select a grantor & grantee",
    }
}

/// A walkthrough canvas's status words.
pub fn figure_status(phase: RunPhase) -> (r: &'static str)
    ensures
        r@ == match phase {
            RunPhase::Generating => "sim running"@,
            RunPhase::Paused => "run stopped"@,
            RunPhase::Stopped => "run complete"@,
            RunPhase::Idle => "press Play"@,
        },
{
    match phase {
        RunPhase::Generating => "sim running",
        RunPhase::Paused => "run stopped",
        RunPhase::Stopped => "run complete",
        RunPhase::Idle => "press Play",
    }
}

/// The lease of a bar.
pub open spec fn bar_lease(b: LeaseBar) -> LeaseId {
    LeaseId { grantor: b.grantor, grantee: b.grantee }
}

/// Telling bars by their leases drops none.
proof fn lemma_bars_by_lease(bars: Seq<LeaseBar>, keep: spec_fn(LeaseId) -> bool)
    ensures
        bars.filter(|b: LeaseBar| keep(bar_lease(b))).len() == bars.map_values(
            |b: LeaseBar| bar_lease(b),
        ).filter(keep).len(),
    decreases bars.len(),
{
    reveal(Seq::filter);
    if bars.len() > 0 {
        lemma_bars_by_lease(bars.drop_last(), keep);
        assert(bars.map_values(|b: LeaseBar| bar_lease(b)).drop_last()
            =~= bars.drop_last().map_values(|b: LeaseBar| bar_lease(b)));
    }
}

/// A node has as many countdowns beside it as its stack has room for: one for each
/// lease that it grants and one for each that it holds.
pub proof fn law_timers_fill_the_stack(shape: Shape, f: Picture, node: NodeId)
    requires
        shape.in_range(),
        shape.lists(f.leases.map_values(|b: LeaseBar| bar_lease(b))),
        node < shape.n,
    ensures
        timers_of(Some(f), node).len() == shape.granted(node) + shape.received(node),
{
    let pairs = f.leases.map_values(|b: LeaseBar| bar_lease(b));
    law_bar_counts_count_leases(shape, pairs, node);
    let grants = |l: LeaseId| l.grantor == node;
    let holds = |l: LeaseId| l.grantee == node;
    lemma_bars_by_lease(f.leases, grants);
    lemma_bars_by_lease(f.leases, holds);
    assert((|b: LeaseBar| grants(bar_lease(b))) =~= (|b: LeaseBar| b.grantor == node));
    assert((|b: LeaseBar| holds(bar_lease(b))) =~= (|b: LeaseBar| b.grantee == node));
}

/// On the canvas, a node has a majority exactly if, in the frame on show, those that it
/// holds leases of and itself are more than half of all nodes; without a frame it has
/// none.
pub proof fn law_majority_is_more_than_half(
    n: StageNode,
    shape: Shape,
    frame: Option<Picture>,
    node: NodeId,
)
    requires
        n.shows(shape, frame, node),
    ensures
        frame matches Some(f) ==> (n.majority <==> 2 * (held(f.leases, node) + 1) > shape.n),
        frame is None ==> !n.majority,
{
}

/// The aura of a node shows which share of the grants that it can hold it does hold: none
/// of it if it is no grantee, and all of it if it holds every one.
pub proof fn law_aura_is_a_share(
    n: StageNode,
    shape: Shape,
    frame: Option<Picture>,
    node: NodeId,
)
    requires
        n.shows(shape, frame, node),
        shape.grantors.finite(),
    ensures
        n.aura.num <= n.aura.den,
        n.aura.den >= 1,
        shape.most_grants(node) == 0 ==> n.aura.num == 0,
        shape.most_grants(node) > 0 ==> n.aura.den == shape.received(node) + shape.own_grant(node),
        frame matches Some(f) ==> (shape.most_grants(node) > 0 && held(f.leases, node)
            <= shape.received(node) ==> n.aura.num == held(f.leases, node) + shape.own_grant(node)),
        frame is None && shape.most_grants(node) > 0 ==> n.aura.num == shape.own_grant(node),
{
    crate::topology::law_most_grants_are_all_grants(shape, node);
}

/// The crown sits on the node that serves the writes.
pub proof fn law_crown_is_on_the_leader(s: crate::sim::Sim, node: NodeId)
    requires
        s.ok(),
    ensures
        leads(crate::topology::shape_of(s.cfg), node) <==> crate::commits::leads(s, node),
{
    let shape = crate::topology::shape_of(s.cfg);
    let holders = s.cfg.leases.map_values(|l: LeaseId| l.grantee);
    assert forall|i: int| 0 <= i < s.leases.len() implies shape.grantees.contains(
        (#[trigger] s.leases[i]).id.grantee,
    ) && s.leases[i].id.grantee < shape.n by {
        crate::upkeep::lemma_parties(s, i);
        assert(holders[i] == s.leases[i].id.grantee);
    }
    assert forall|h: NodeId| #[trigger] shape.grantees.contains(h) implies exists|i: int|
        0 <= i < s.leases.len() && (#[trigger] s.leases[i]).id.grantee == h by {
        let i = choose|i: int| 0 <= i < holders.len() && holders[i] == h;
        assert(s.leases[i].id == s.cfg.leases[i]);
        assert(s.leases[i].id.grantee == h);
    }
    if crate::commits::leads(s, node) {
        assert forall|h: NodeId| shape.grantees.contains(h) implies node <= h by {
            let i = choose|i: int|
                0 <= i < s.leases.len() && (#[trigger] s.leases[i]).id.grantee == h;
            assert(node <= s.leases[i].id.grantee);
        }
    }
}

/// In playback, an edge shows how the grantee's side of its lease stands.
pub proof fn law_edges_show_the_holds(shape: Shape, f: Picture)
    requires
        forall|i: int|
            0 <= i < f.leases.len() ==> (#[trigger] f.leases[i]).grantor < shape.n
                && f.leases[i].grantee < shape.n,
    ensures
        lease_edges(shape, None).len() == 0,
        lease_edges(shape, Some(f)).len() == f.leases.len(),
        forall|i: int|
            0 <= i < f.leases.len() ==> #[trigger] lease_edges(shape, Some(f))[i] == (LeaseEdge {
                grantor: f.leases[i].grantor,
                grantee: f.leases[i].grantee,
                status: f.leases[i].grantee_status,
                fill: f.leases[i].grantee_fill,
            }),
{
    lemma_all_kept(f.leases, |b: LeaseBar| b.grantor < shape.n && b.grantee < shape.n);
}

proof fn lemma_all_kept(bars: Seq<LeaseBar>, keep: spec_fn(LeaseBar) -> bool)
    requires
        forall|i: int| 0 <= i < bars.len() ==> keep(#[trigger] bars[i]),
    ensures
        bars.filter(keep) == bars,
    decreases bars.len(),
{
    reveal(Seq::filter);
    if bars.len() > 0 {
        let rest = bars.drop_last();
        assert forall|i: int| 0 <= i < rest.len() implies keep(#[trigger] rest[i]) by {
            assert(rest[i] == bars[i]);
        }
        lemma_all_kept(rest, keep);
        assert(keep(bars[bars.len() - 1]));
        assert(bars.filter(keep) =~= bars);
    } else {
        assert(bars.filter(keep) =~= bars);
    }
}

} // verus!
