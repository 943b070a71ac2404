//! How a run begins, and that everything happens when its time has come.

use crate::clock::Time;
use crate::commits::fifth_of;
use crate::dist::NormalDraw;
use crate::event::{Command, LeaseStatus, NodeId};
use crate::moves::lemma_enqueue_keeps;
use crate::progress::{lemma_advanced, lemma_initial, sized};
use crate::rng::RngState;
use crate::scenario::{command_valid, Config};
use crate::sim::{max_of, Sim};
use crate::timeline::{in_time_order, lemma_enqueue, Scheduled, Timed};
use crate::upkeep::{lemma_jittered, normal_ok};
use vstd::prelude::*;

verus! {

proof fn lemma_polls_scheduled(s: Sim, k: int)
    requires
        in_time_order(s.queue),
        s.now == 0,
        s.queue.len() == 0,
        0 <= k <= usize::MAX,
    ensures
        ({
            let b = s.with_polls(k);
            &&& in_time_order(b.queue)
            &&& b.now == 0
            &&& b.cfg == s.cfg
            &&& b.rng == s.rng
            &&& b.queue.len() == k
            &&& forall|node: NodeId|
                node < k ==> #[trigger] b.queue.contains(
                    Timed { at: 0, item: Scheduled::Poll { node } },
                )
        }),
    decreases k,
{
    if k > 0 {
        lemma_polls_scheduled(s, k - 1);
        let a = s.with_polls(k - 1);
        let e = Timed { at: 0, item: Scheduled::Poll { node: (k - 1) as usize } };
        lemma_enqueue(a.queue, e);
        lemma_enqueue_keeps(a.queue, e);
        assert forall|node: NodeId| node < k implies #[trigger] s.with_polls(k).queue.contains(
            Timed { at: 0, item: Scheduled::Poll { node } },
        ) by {
            if node < k - 1 {
                assert(a.queue.contains(Timed { at: 0, item: Scheduled::Poll { node } }));
            }
        }
    }
}

/// The command, when it takes effect: not before the run begins.
pub open spec fn due_command(cfg: Config, j: int) -> Timed {
    let (at, cmd) = cfg.commands[j];
    Timed {
        at: if at >= 0 {
            at
        } else {
            0
        },
        item: Scheduled::Command(cmd),
    }
}

proof fn lemma_commands_scheduled(s: Sim, k: int)
    requires
        in_time_order(s.queue),
        s.now == 0,
        0 <= k <= s.cfg.commands.len(),
    ensures
        ({
            let b = s.with_commands(k);
            &&& in_time_order(b.queue)
            &&& b.now == 0
            &&& b.cfg == s.cfg
            &&& b.rng == s.rng
            &&& b.queue.len() == s.queue.len() + k
            &&& forall|e: Timed| #[trigger] s.queue.contains(e) ==> b.queue.contains(e)
            &&& forall|j: int|
                0 <= j < k ==> b.queue.contains(#[trigger] due_command(s.cfg, j))
        }),
    decreases k,
{
    if k > 0 {
        lemma_commands_scheduled(s, k - 1);
        let a = s.with_commands(k - 1);
        let e = due_command(s.cfg, k - 1);
        lemma_enqueue(a.queue, e);
        lemma_enqueue_keeps(a.queue, e);
        assert(s.with_commands(k).queue == crate::timeline::enqueue(a.queue, e));
        assert forall|j: int| 0 <= j < k implies s.with_commands(k).queue.contains(
            #[trigger] due_command(s.cfg, j),
        ) by {
            if j < k - 1 {
                assert(a.queue.contains(due_command(s.cfg, j)));
            }
        }
    }
}

/// A run begins at time zero with every node up and thawed, every lease inactive on both
/// sides, and nothing reported.
pub proof fn law_run_begins(cfg: Config, normal: spec_fn(NormalDraw) -> Time)
    requires
        cfg.valid(),
        normal_ok(normal),
        sized(Sim::blank(cfg, normal)),
    ensures
        ({
            let s = Sim::initial(cfg, normal);
            &&& s.cfg == cfg
            &&& s.now == 0
            &&& s.pending.len() == 0
            &&& s.in_flight.len() == 0
            &&& s.rounds.len() == 0
            &&& s.nodes.len() == cfg.nodes.len()
            &&& forall|k: int|
                0 <= k < s.nodes.len() ==> (#[trigger] s.nodes[k]).up && !s.nodes[k].write_frozen
            &&& s.leases.len() == cfg.leases.len()
            &&& forall|i: int|
                0 <= i < s.leases.len() ==> {
                    let l = #[trigger] s.leases[i];
                    &&& l.id == cfg.leases[i]
                    &&& l.grantor.status == LeaseStatus::Inactive
                    &&& l.grantee.status == LeaseStatus::Inactive
                    &&& !l.grantor.intended
                    &&& !l.grantor.reguard_on_thaw
                }
        }),
{
    lemma_initial(cfg, normal);
}

/// At the start of a run, every node wakes at once, every command of the script is due at
/// its time, and, if writes come by themselves, the first one is due after one write
/// interval, give or take a fifth (at least one tick). Nothing else is due. The generator is
/// seeded with the scenario's seed.
pub proof fn law_run_is_scheduled(cfg: Config, normal: spec_fn(NormalDraw) -> Time)
    requires
        cfg.valid(),
        normal_ok(normal),
        sized(Sim::blank(cfg, normal)),
    ensures
        ({
            let s = Sim::initial(cfg, normal);
            let n = cfg.nodes.len() + cfg.commands.len();
            &&& forall|node: NodeId|
                node < cfg.nodes.len() ==> #[trigger] s.queue.contains(
                    Timed { at: 0, item: Scheduled::Poll { node } },
                )
            &&& forall|j: int|
                0 <= j < cfg.commands.len() ==> s.queue.contains(#[trigger] due_command(cfg, j))
            &&& cfg.write_interval is None ==> s.queue.len() == n && s.rng == RngState::seeded(
                cfg.seed,
            )
            &&& cfg.write_interval matches Some(iv) ==> s.queue.len() == n + 1
                && writes_first(s, iv)
        }),
{
    let s0 = Sim::blank(cfg, normal);
    let n = cfg.nodes.len() as int;
    lemma_polls_scheduled(s0, n);
    let s1 = s0.with_polls(n);
    lemma_commands_scheduled(s1, cfg.commands.len() as int);
    let s2 = s1.with_commands(cfg.commands.len() as int);
    let s = Sim::initial(cfg, normal);
    if let Some(iv) = cfg.write_interval {
        lemma_jittered(s2, iv as int);
        let at = s2.jittered(iv as int) as Time;
        let e = Timed { at, item: Scheduled::WriteTick };
        lemma_enqueue(s2.queue, e);
        lemma_enqueue_keeps(s2.queue, e);
        let span = crate::sim::jitter_span(iv as int);
        crate::rng::law_range_within_bounds(s2.rng, -span, span);
        assert(s.queue == crate::timeline::enqueue(s2.queue, e));
        assert(first_write(iv, at));
    } else {
        assert(s == s2);
    }
    assert forall|node: NodeId| node < cfg.nodes.len() implies #[trigger] s.queue.contains(
        Timed { at: 0, item: Scheduled::Poll { node } },
    ) by {
        assert(s1.queue.contains(Timed { at: 0, item: Scheduled::Poll { node } }));
    }
    assert forall|j: int| 0 <= j < cfg.commands.len() implies s.queue.contains(
        #[trigger] due_command(cfg, j),
    ) by {
        assert(s2.queue.contains(due_command(cfg, j)));
    }
}

/// The first write that comes by itself is on the timeline.
pub open spec fn writes_first(s: Sim, iv: Time) -> bool {
    exists|at: Time| #[trigger]
        s.queue.contains(Timed { at, item: Scheduled::WriteTick }) && first_write(iv, at)
}

/// One write interval, give or take a fifth of it, and at least a tick.
pub open spec fn first_write(iv: Time, at: Time) -> bool {
    &&& at >= 1
    &&& iv - fifth_of(iv as int) <= at <= max_of(iv + fifth_of(iv as int), 1)
}

/// Different seeds start the generator differently.
pub proof fn law_seed_matters(cfg: Config, seed: u64, normal: spec_fn(NormalDraw) -> Time)
    requires
        cfg.valid(),
        normal_ok(normal),
        sized(Sim::blank(cfg, normal)),
        cfg.write_interval is None,
        seed != cfg.seed,
    ensures
        Sim::initial(cfg, normal).rng.s0 != Sim::initial(Config { seed, ..cfg }, normal).rng.s0,
{
    let other = Config { seed, ..cfg };
    lemma_polls_scheduled(Sim::blank(cfg, normal), cfg.nodes.len() as int);
    lemma_commands_scheduled(
        Sim::blank(cfg, normal).with_polls(cfg.nodes.len() as int),
        cfg.commands.len() as int,
    );
    lemma_polls_scheduled(Sim::blank(other, normal), cfg.nodes.len() as int);
    lemma_commands_scheduled(
        Sim::blank(other, normal).with_polls(cfg.nodes.len() as int),
        cfg.commands.len() as int,
    );
    crate::rng::law_seeds_differ_in_every_word(cfg.seed, seed);
}

/// A run that is advanced to a time shows that time, or the end of the run if that comes
/// first, and does not go back. Whatever was due by then has happened, and whatever is
/// left lies ahead.
pub proof fn law_everything_due_happens(s: Sim, t: int)
    requires
        s.ok(),
        sized(s),
    ensures
        ({
            let b = s.advanced(t);
            let end = if t <= s.cfg.duration {
                t
            } else {
                s.cfg.duration as int
            };
            &&& b.now == max_of(s.now as int, end)
            &&& forall|k: int| 0 <= k < b.queue.len() ==> (#[trigger] b.queue[k]).at > end
        }),
{
    lemma_advanced(s, t);
    let b = s.advanced(t);
    assert forall|k: int| 0 <= k < b.queue.len() implies (#[trigger] b.queue[k]).at > s.target(
        t,
    ) by {
        assert(b.queue[0].at <= b.queue[k].at);
    }
}

/// The time at which something takes effect that is given now for time `at`.
pub open spec fn takes_effect(now: Time, at: Time) -> Time {
    if at >= now {
        at
    } else {
        now
    }
}

/// A command that is given takes effect at its time, or at once if that has passed, and
/// after everything that is due by then already.
pub proof fn law_command_is_due(s: Sim, at: Time, cmd: Command)
    requires
        s.ok(),
        command_valid(cmd, s.nodes.len()),
    ensures
        ({
            let b = s.schedule(at as int, Scheduled::Command(cmd));
            let e = Timed { at: takes_effect(s.now, at), item: Scheduled::Command(cmd) };
            &&& b == (Sim { queue: b.queue, ..s })
            &&& exists|p: int| #[trigger] is_put_at(s.queue, b.queue, e, p)
        }),
{
    let when = takes_effect(s.now, at);
    let e = Timed { at: when, item: Scheduled::Command(cmd) };
    crate::timeline::lemma_slot(s.queue, when);
    let b = s.schedule(at as int, Scheduled::Command(cmd));
    assert(is_put_at(s.queue, b.queue, e, crate::timeline::slot(s.queue, when)));
}

/// The second timeline is the first with the entry put at `p`: behind all that is not
/// later.
pub open spec fn is_put_at(a: Seq<Timed>, b: Seq<Timed>, e: Timed, p: int) -> bool {
    &&& 0 <= p <= a.len()
    &&& b == a.insert(p, e)
    &&& forall|k: int| 0 <= k < p ==> (#[trigger] a[k]).at <= e.at
    &&& forall|k: int| p <= k < a.len() ==> (#[trigger] a[k]).at > e.at
}

} // verus!
