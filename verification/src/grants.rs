//! Grants held over a run: per-frame counts, countdown timers, and the
//! run-length history behind each node's grant bar.

use crate::event::{LeaseStatus, NodeId};
use crate::frame::{Fraction, Frame, LeaseBar, Picture};
use crate::topology::Topology;
use vstd::prelude::*;

verus! {

/// Which side of a lease a countdown bar reflects.
#[derive(Debug, Clone, Copy, PartialEq, Eq, Structural)]
pub enum TimerRole {
    Grantor,
    Grantee,
}

/// One countdown timer bar drawn beside a node disk during playback.
#[derive(Debug, Clone, Copy, PartialEq, Eq, Structural)]
pub struct TimerBar {
    /// The lease's other endpoint — named in the hover tooltip.
    pub other: NodeId,
    pub role: TimerRole,
    pub status: LeaseStatus,
    pub fill: Fraction,
}

/// One run-length run of a node's grant history: it held `grants` active grants
/// as a grantee for `frames` consecutive recorded frames.
#[derive(Debug, Clone, Copy, PartialEq, Eq, Structural)]
pub struct GrantRun {
    pub frames: usize,
    pub grants: usize,
}

/// The bar shows a grant that `node` holds.
pub open spec fn is_held(b: LeaseBar, node: NodeId) -> bool {
    b.grantee == node && b.grantee_status == LeaseStatus::Active
}

/// How many grants `node` holds as a grantee.
pub open spec fn held(bars: Seq<LeaseBar>, node: NodeId) -> nat {
    bars.filter(|b: LeaseBar| is_held(b, node)).len()
}

/// The countdown of a lease at its grantor.
pub open spec fn grantor_timer(b: LeaseBar) -> TimerBar {
    TimerBar {
        other: b.grantee,
        role: TimerRole::Grantor,
        status: b.grantor_status,
        fill: b.grantor_fill,
    }
}

/// The countdown of a lease at its grantee.
pub open spec fn grantee_timer(b: LeaseBar) -> TimerBar {
    TimerBar {
        other: b.grantor,
        role: TimerRole::Grantee,
        status: b.grantee_status,
        fill: b.grantee_fill,
    }
}

/// The countdowns of the leases that `node` grants.
pub open spec fn granted_timers(bars: Seq<LeaseBar>, node: NodeId) -> Seq<TimerBar> {
    bars.filter(|b: LeaseBar| b.grantor == node).map_values(|b: LeaseBar| grantor_timer(b))
}

/// The countdowns of the leases that `node` holds.
pub open spec fn held_timers(bars: Seq<LeaseBar>, node: NodeId) -> Seq<TimerBar> {
    bars.filter(|b: LeaseBar| b.grantee == node).map_values(|b: LeaseBar| grantee_timer(b))
}

/// Filtering one more bar.
proof fn lemma_filter_next(bars: Seq<LeaseBar>, keep: spec_fn(LeaseBar) -> bool, n: int)
    requires
        0 <= n < bars.len(),
    ensures
        bars.take(n + 1).filter(keep) == if keep(bars[n]) {
            bars.take(n).filter(keep).push(bars[n])
        } else {
            bars.take(n).filter(keep)
        },
{
    reveal(Seq::filter);
    assert(bars.take(n + 1).drop_last() =~= bars.take(n));
}

/// Filtering no bars.
proof fn lemma_filter_none(bars: Seq<LeaseBar>, keep: spec_fn(LeaseBar) -> bool)
    ensures
        bars.take(0).filter(keep) == Seq::<LeaseBar>::empty(),
{
    reveal(Seq::filter);
}

/// Active grants held by `node` as a grantee in one frame.
pub fn grant_count(f: &Frame, node: NodeId) -> (r: usize)
    ensures
        r == held(f@.leases, node),
        r <= f@.leases.len(),
{
    let ghost keep = |b: LeaseBar| is_held(b, node);
    let mut count: usize = 0;
    let mut i: usize = 0;
    proof {
        lemma_filter_none(f.leases@, keep);
    }
    while i < f.leases.len()
        invariant
            i <= f.leases@.len(),
            count <= i,
            keep == (|b: LeaseBar| is_held(b, node)),
            count == f.leases@.take(i as int).filter(keep).len(),
        decreases f.leases@.len() - i,
    {
        proof {
            lemma_filter_next(f.leases@, keep, i as int);
        }
        let b: LeaseBar = f.leases[i];
        if b.grantee == node && b.grantee_status == LeaseStatus::Active {
            count = count + 1;
        }
        i = i + 1;
    }
    assert(f.leases@.take(i as int) =~= f.leases@);
    count
}

/// Countdown bars for one node in a frame: grantor bars first, then grantee bars.
pub fn node_timers(f: &Frame, node: NodeId) -> (r: Vec<TimerBar>)
    ensures
        r@ == granted_timers(f@.leases, node) + held_timers(f@.leases, node),
{
    let ghost grants = |b: LeaseBar| b.grantor == node;
    let ghost holds = |b: LeaseBar| b.grantee == node;
    let ghost out = |b: LeaseBar| grantor_timer(b);
    let ghost inc = |b: LeaseBar| grantee_timer(b);
    let mut timers: Vec<TimerBar> = Vec::new();
    let mut i: usize = 0;
    proof {
        lemma_filter_none(f.leases@, grants);
        lemma_filter_none(f.leases@, holds);
    }
    while i < f.leases.len()
        invariant
            i <= f.leases@.len(),
            grants == (|b: LeaseBar| b.grantor == node),
            out == (|b: LeaseBar| grantor_timer(b)),
            timers@ =~= f.leases@.take(i as int).filter(grants).map_values(out),
        decreases f.leases@.len() - i,
    {
        proof {
            lemma_filter_next(f.leases@, grants, i as int);
        }
        let b: LeaseBar = f.leases[i];
        if b.grantor == node {
            timers.push(
                TimerBar {
                    other: b.grantee,
                    role: TimerRole::Grantor,
                    status: b.grantor_status,
                    fill: b.grantor_fill,
                },
            );
        }
        i = i + 1;
    }
    assert(f.leases@.take(i as int) =~= f.leases@);
    let ghost first = timers@;
    i = 0;
    while i < f.leases.len()
        invariant
            i <= f.leases@.len(),
            holds == (|b: LeaseBar| b.grantee == node),
            inc == (|b: LeaseBar| grantee_timer(b)),
            timers@ =~= first + f.leases@.take(i as int).filter(holds).map_values(inc),
        decreases f.leases@.len() - i,
    {
        proof {
            lemma_filter_next(f.leases@, holds, i as int);
        }
        let b: LeaseBar = f.leases[i];
        if b.grantee == node {
            timers.push(
                TimerBar {
                    other: b.grantor,
                    role: TimerRole::Grantee,
                    status: b.grantee_status,
                    fill: b.grantee_fill,
                },
            );
        }
        i = i + 1;
    }
    assert(f.leases@.take(i as int) =~= f.leases@);
    timers
}

/// The per-frame counts that a run-length history spells out.
pub open spec fn spelled(runs: Seq<GrantRun>) -> Seq<nat>
    decreases runs.len(),
{
    if runs.len() == 0 {
        Seq::empty()
    } else {
        spelled(runs.drop_last()) + Seq::new(
            runs.last().frames as nat,
            |i: int| runs.last().grants as nat,
        )
    }
}

/// No run is empty, and each run ends where the count changes.
pub open spec fn compact(runs: Seq<GrantRun>) -> bool {
    &&& forall|i: int| 0 <= i < runs.len() ==> (#[trigger] runs[i]).frames >= 1
    &&& forall|i: int, j: int|
        0 <= i < runs.len() && j == i + 1 && j < runs.len() ==> (#[trigger] runs[i]).grants != (
        #[trigger] runs[j]).grants
}

/// The grants of `node` in each frame, `base` of them its own.
pub open spec fn grant_counts(frames: Seq<Picture>, node: NodeId, base: nat) -> Seq<nat> {
    frames.map_values(|f: Picture| held(f.leases, node) + base)
}

/// `runs` is the grant history of `node` over `frames`. Before the first frame,
/// that is its self-grant alone.
pub open spec fn is_history(
    runs: Seq<GrantRun>,
    frames: Seq<Picture>,
    node: NodeId,
    base: nat,
) -> bool {
    &&& compact(runs)
    &&& spelled(runs) == if frames.len() == 0 {
        seq![base]
    } else {
        grant_counts(frames, node, base)
    }
}

/// What the recorded frames show.
pub open spec fn pictures(frames: Seq<Frame>) -> Seq<Picture> {
    frames.map_values(|f: Frame| f@)
}

/// One more frame for the last run.
proof fn lemma_lengthen(runs: Seq<GrantRun>, longer: Seq<GrantRun>)
    requires
        runs.len() > 0,
        longer.len() == runs.len(),
        longer.drop_last() == runs.drop_last(),
        longer.last().grants == runs.last().grants,
        longer.last().frames == runs.last().frames + 1,
    ensures
        spelled(longer) == spelled(runs).push(runs.last().grants as nat),
{
    assert(spelled(longer) =~= spelled(runs).push(runs.last().grants as nat));
}

/// One more run, of a single frame.
proof fn lemma_append(runs: Seq<GrantRun>, grants: usize)
    ensures
        spelled(runs.push(GrantRun { frames: 1, grants })) == spelled(runs).push(grants as nat),
{
    let more = runs.push(GrantRun { frames: 1, grants });
    assert(more.drop_last() =~= runs);
    assert(spelled(more) =~= spelled(runs).push(grants as nat));
}

/// The number of frames that a history spells out is at least the length of its
/// last run.
proof fn lemma_last_run(runs: Seq<GrantRun>)
    requires
        runs.len() > 0,
    ensures
        runs.last().frames <= spelled(runs).len(),
{
}

/// Run-length encode a node's active-grant count over the recorded `frames`.
/// `base` is the node's implicit self-grant.
pub fn grant_runs(frames: &[Frame], node: NodeId, base: usize) -> (r: Vec<GrantRun>)
    requires
        forall|i: int|
            0 <= i < frames@.len() ==> (#[trigger] frames@[i])@.leases.len() + base <= usize::MAX,
    ensures
        is_history(r@, pictures(frames@), node, base as nat),
{
    let mut runs: Vec<GrantRun> = Vec::new();
    if frames.len() == 0 {
        proof {
            lemma_append(runs@, base);
        }
        runs.push(GrantRun { frames: 1, grants: base });
        assert(spelled(runs@) =~= seq![base as nat]);
        return runs;
    }
    let ghost counts = grant_counts(pictures(frames@), node, base as nat);
    let mut i: usize = 0;
    assert(spelled(runs@) =~= counts.take(0));
    while i < frames.len()
        invariant
            i <= frames@.len(),
            forall|i: int|
                0 <= i < frames@.len() ==> (#[trigger] frames@[i])@.leases.len() + base
                    <= usize::MAX,
            counts == grant_counts(pictures(frames@), node, base as nat),
            compact(runs@),
            spelled(runs@) == counts.take(i as int),
        decreases frames@.len() - i,
    {
        let grants: usize = grant_count(&frames[i], node) + base;
        assert(counts[i as int] == grants);
        assert(counts.take(i + 1) =~= counts.take(i as int).push(grants as nat));
        let ghost before = runs@;
        let k: usize = runs.len();
        if k > 0 && runs[k - 1].grants == grants {
            proof {
                lemma_last_run(before);
            }
            let frames: usize = runs[k - 1].frames + 1;
            runs[k - 1] = GrantRun { frames, grants };
            proof {
                assert(runs@.drop_last() =~= before.drop_last());
                lemma_lengthen(before, runs@);
            }
        } else {
            proof {
                lemma_append(runs@, grants);
            }
            runs.push(GrantRun { frames: 1, grants });
        }
        i = i + 1;
    }
    assert(counts.take(i as int) =~= counts);
    runs
}

/// Grant bars for every node in a topology over a run's recorded frames.
pub fn grant_bars(topology: &Topology, frames: &[Frame]) -> (r: Vec<Vec<GrantRun>>)
    requires
        forall|i: int| 0 <= i < frames@.len() ==> (#[trigger] frames@[i])@.leases.len() < usize::MAX,
    ensures
        r@.len() == topology.n,
        forall|node: NodeId|
            node < topology.n ==> is_history(
                (#[trigger] r@[node as int])@,
                pictures(frames@),
                node,
                topology@.own_grant(node),
            ),
{
    let own: Vec<usize> = topology.self_grant();
    let mut bars: Vec<Vec<GrantRun>> = Vec::new();
    let mut node: usize = 0;
    while node < topology.n
        invariant
            node <= topology.n,
            own@.len() == topology.n,
            forall|m: NodeId| m < topology.n ==> #[trigger] own@[m as int] == topology@.own_grant(m),
            forall|i: int|
                0 <= i < frames@.len() ==> (#[trigger] frames@[i])@.leases.len() < usize::MAX,
            bars@.len() == node,
            forall|m: NodeId|
                m < node ==> is_history(
                    (#[trigger] bars@[m as int])@,
                    pictures(frames@),
                    m,
                    topology@.own_grant(m),
                ),
        decreases topology.n - node,
    {
        bars.push(grant_runs(frames, node, own[node]));
        node = node + 1;
    }
    bars
}

/// A grant history can be written in one way only.
pub proof fn law_history_is_unique(a: Seq<GrantRun>, b: Seq<GrantRun>)
    requires
        compact(a),
        compact(b),
        spelled(a) == spelled(b),
    ensures
        a == b,
    decreases a.len(),
{
    if a.len() == 0 {
        if b.len() > 0 {
            lemma_last_run(b);
        }
        assert(a =~= b);
    } else {
        lemma_last_run(a);
        assert(b.len() > 0);
        lemma_last_run(b);
        lemma_run_bounds(a, b);
        lemma_run_bounds(b, a);
        assert(a.last() == b.last());
        let n = spelled(a).len() - a.last().frames;
        assert(spelled(a.drop_last()) =~= spelled(a).take(n));
        assert(spelled(b.drop_last()) =~= spelled(b).take(n));
        law_history_is_unique(a.drop_last(), b.drop_last());
        assert(a =~= a.drop_last().push(a.last()));
        assert(b =~= b.drop_last().push(b.last()));
    }
}

/// Of two histories of the same counts, neither has the longer last run.
proof fn lemma_run_bounds(a: Seq<GrantRun>, b: Seq<GrantRun>)
    requires
        a.len() > 0,
        b.len() > 0,
        compact(a),
        compact(b),
        spelled(a) == spelled(b),
    ensures
        a.last().grants == b.last().grants,
        a.last().frames <= b.last().frames,
{
    let s = spelled(a);
    assert(s[s.len() - 1] == a.last().grants);
    assert(s[s.len() - 1] == b.last().grants);
    if a.last().frames > b.last().frames {
        let k = s.len() - b.last().frames - 1;
        assert(s[k] == a.last().grants);
        let rest = b.drop_last();
        assert(s[k] == spelled(rest)[k]);
        assert(rest.len() > 0);
        lemma_last_run(rest);
        assert(spelled(rest)[spelled(rest).len() - 1] == rest.last().grants);
        assert(b[b.len() - 2].grants != b[b.len() - 1].grants);
    }
}

/// A lease is counted among the grants that a node holds exactly if the node is its
/// grantee and holds it.
pub proof fn law_holds_are_counted_one_by_one(bars: Seq<LeaseBar>, b: LeaseBar, node: NodeId)
    ensures
        held(Seq::empty(), node) == 0,
        held(bars.push(b), node) == held(bars, node) + (if b.grantee == node && b.grantee_status
            == LeaseStatus::Active {
            1int
        } else {
            0int
        }),
{
    reveal(Seq::filter);
    assert(bars.push(b).drop_last() =~= bars);
}

/// A lease shows beside its grantor how its grantor's side stands, and beside its grantee
/// how its grantee's side stands; beside no other node does it show.
pub proof fn law_timers_show_both_sides(bars: Seq<LeaseBar>, b: LeaseBar, node: NodeId)
    ensures
        granted_timers(Seq::empty(), node).len() == 0,
        held_timers(Seq::empty(), node).len() == 0,
        b.grantor == node ==> granted_timers(bars.push(b), node) == granted_timers(
            bars,
            node,
        ).push(
            TimerBar {
                other: b.grantee,
                role: TimerRole::Grantor,
                status: b.grantor_status,
                fill: b.grantor_fill,
            },
        ),
        b.grantor != node ==> granted_timers(bars.push(b), node) == granted_timers(bars, node),
        b.grantee == node ==> held_timers(bars.push(b), node) == held_timers(bars, node).push(
            TimerBar {
                other: b.grantor,
                role: TimerRole::Grantee,
                status: b.grantee_status,
                fill: b.grantee_fill,
            },
        ),
        b.grantee != node ==> held_timers(bars.push(b), node) == held_timers(bars, node),
{
    reveal(Seq::filter);
    assert(bars.push(b).drop_last() =~= bars);
    assert(granted_timers(bars.push(b), node) =~= if b.grantor == node {
        granted_timers(bars, node).push(grantor_timer(b))
    } else {
        granted_timers(bars, node)
    });
    assert(held_timers(bars.push(b), node) =~= if b.grantee == node {
        held_timers(bars, node).push(grantee_timer(b))
    } else {
        held_timers(bars, node)
    });
}

/// A history spells out one count for each frame: how many leases the node held in it, and
/// its own grant.
pub proof fn law_history_tells_every_frame(
    runs: Seq<GrantRun>,
    frames: Seq<Picture>,
    node: NodeId,
    base: nat,
    k: int,
)
    requires
        is_history(runs, frames, node, base),
        0 <= k < frames.len(),
    ensures
        spelled(runs).len() == frames.len(),
        spelled(runs)[k] == held(frames[k].leases, node) + base,
{
}

} // verus!
