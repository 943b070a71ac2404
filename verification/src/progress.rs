//! Running a simulation forward: it gets there, in time order, and the same way
//! every time.

use crate::clock::Time;
use crate::dist::NormalDraw;

use crate::scenario::{command_valid, Config};
use crate::sim::{max_of, InFlight, Sim};
use crate::timeline::Scheduled;
use crate::upkeep::{
    due, flights_ok, item_ok, lemma_draw, lemma_filter_from, lemma_jittered, lemma_leads_to_trans,
    lemma_schedule, lemma_step, normal_ok, queue_ok,
};
use vstd::prelude::*;

verus! {

/// The state can be one of an engine: its collections fit in memory.
pub open spec fn sized(s: Sim) -> bool {
    s.nodes.len() <= usize::MAX && s.leases.len() <= usize::MAX
}

/// Taking one more step at the end.
pub proof fn lemma_steps_next(s: Sim, t: int, n: nat)
    ensures
        s.steps(t, n).settled(t) ==> s.steps(t, n + 1) == s.steps(t, n),
        !s.steps(t, n).settled(t) ==> s.steps(t, n + 1) == s.steps(t, n).step(),
    decreases n,
{
    reveal_with_fuel(Sim::steps, 2);
    if n > 0 && !s.settled(t) {
        lemma_steps_next(s.step(), t, (n - 1) as nat);
    }
}

/// Once nothing is due, no number of further steps changes anything.
pub proof fn lemma_steps_stay(s: Sim, t: int, n: nat, m: nat)
    requires
        s.steps(t, n).settled(t),
        n <= m,
    ensures
        s.steps(t, m) == s.steps(t, n),
    decreases m - n,
{
    if n < m {
        lemma_steps_stay(s, t, n, (m - 1) as nat);
        lemma_steps_next(s, t, (m - 1) as nat);
    }
}

/// Whatever number of steps settles the state, the result is the same.
pub proof fn lemma_run_is(s: Sim, t: int, n: nat)
    requires
        s.steps(t, n).settled(t),
    ensures
        s.run(t) == s.steps(t, n),
        s.run(t).settled(t),
{
    let m = choose|m: nat| #[trigger] s.steps(t, m).settled(t);
    if m <= n {
        lemma_steps_stay(s, t, m, n);
    } else {
        lemma_steps_stay(s, t, n, m);
    }
}

/// What every number of steps keeps.
pub proof fn lemma_steps_ok(s: Sim, t: int, n: nat)
    requires
        s.ok(),
        sized(s),
        t <= s.cfg.duration,
    ensures
        s.steps(t, n).ok(),
        sized(s.steps(t, n)),
        s.steps(t, n).cfg == s.cfg,
        s.steps(t, n).normal == s.normal,
        s.now <= s.steps(t, n).now <= max_of(s.now as int, t),
        s.pending.is_prefix_of(s.steps(t, n).pending),
    decreases n,
{
    if n == 0 || s.settled(t) {
        assert(s.pending.is_prefix_of(s.pending));
    } else {
        lemma_step(s);
        lemma_steps_ok(s.step(), t, (n - 1) as nat);
        let (a, b, c) = (s.pending, s.step().pending, s.steps(t, n).pending);
        assert forall|i: int| 0 <= i < a.len() implies a[i] == c[i] by {
            assert(a[i] == b[i]);
        }
        assert(a =~= c.take(a.len() as int));
    }
}

/// Only finitely many items are due up to any time: running gets there.
pub proof fn lemma_settles(s: Sim, t: int) -> (n: nat)
    requires
        s.ok(),
        sized(s),
        t <= s.cfg.duration,
    ensures
        s.steps(t, n).settled(t),
    decreases max_of(t - s.now, 0), due(s.queue, s.now as int),
{
    if s.settled(t) {
        0
    } else {
        lemma_step(s);
        let m = lemma_settles(s.step(), t);
        m + 1
    }
}

/// Running a valid state up to a time within its duration.
pub proof fn lemma_run(s: Sim, t: int)
    requires
        s.ok(),
        sized(s),
        t <= s.cfg.duration,
    ensures
        s.run(t).ok(),
        sized(s.run(t)),
        s.run(t).settled(t),
        s.run(t).cfg == s.cfg,
        s.run(t).normal == s.normal,
        s.now <= s.run(t).now <= max_of(s.now as int, t),
        s.pending.is_prefix_of(s.run(t).pending),
{
    let n = lemma_settles(s, t);
    lemma_run_is(s, t, n);
    lemma_steps_ok(s, t, n);
}

/// Advancing keeps the invariant and moves the clock to the requested time, but
/// neither back nor past the end of the run.
pub proof fn lemma_advanced(s: Sim, t: int)
    requires
        s.ok(),
        sized(s),
    ensures
        s.advanced(t).ok(),
        sized(s.advanced(t)),
        s.advanced(t).taken().ok(),
        s.advanced(t).cfg == s.cfg,
        s.advanced(t).normal == s.normal,
        s.advanced(t).now == max_of(s.now as int, s.target(t)),
        s.advanced(t).settled(s.target(t)),
        s.pending.is_prefix_of(s.advanced(t).pending),
        forall|i: int|
            0 <= i < s.advanced(t).in_flight.len() ==> (#[trigger] s.advanced(t).in_flight[i]).arrival
                > s.advanced(t).now,
{
    let target = s.target(t);
    lemma_run(s, target);
    let r = s.run(target);
    let now = max_of(r.now as int, target) as Time;
    let keep = |m: InFlight| m.arrival > now;
    let kept = r.in_flight.filter(keep);
    assert forall|i: int| 0 <= i < kept.len() implies r.in_flight.contains(#[trigger] kept[i])
        && kept[i].arrival > now by {
        lemma_filter_from(r.in_flight, keep, i);
    }
    assert(flights_ok(s.cfg, now, kept));
    assert(queue_ok(s.cfg, now, r.queue)) by {
        assert forall|i: int| 0 <= i < r.queue.len() implies (#[trigger] r.queue[i]).at >= now
            && item_ok(s.cfg, r.queue[i].item) by {
            assert(r.queue[0].at <= r.queue[i].at);
        }
    }
}

/// Nothing scheduled yet: the state a run starts from.
pub proof fn lemma_blank(cfg: Config, normal: spec_fn(NormalDraw) -> Time)
    requires
        cfg.valid(),
        normal_ok(normal),
    ensures
        Sim::blank(cfg, normal).ok(),
{
}

proof fn lemma_with_polls(s: Sim, k: int)
    requires
        s.ok(),
        sized(s),
        0 <= k <= s.nodes.len(),
        s.pending.len() == 0,
    ensures
        s.leads_to(s.with_polls(k), (2 * k) as nat),
        s.with_polls(k) == (Sim { queue: s.with_polls(k).queue, ..s }),
    decreases k,
{
    if k > 0 {
        lemma_with_polls(s, k - 1);
        let s1 = s.with_polls(k - 1);
        lemma_schedule(s1, 0, Scheduled::Poll { node: (k - 1) as usize });
        lemma_leads_to_trans(
            s,
            s1,
            s1.schedule(0, Scheduled::Poll { node: (k - 1) as usize }),
            (2 * (k - 1)) as nat,
            2,
        );
    } else {
        assert(s.pending.is_prefix_of(s.pending));
    }
}

proof fn lemma_with_commands(s: Sim, k: int)
    requires
        s.ok(),
        0 <= k <= s.cfg.commands.len(),
    ensures
        s.leads_to(s.with_commands(k), (2 * k) as nat),
        s.with_commands(k) == (Sim { queue: s.with_commands(k).queue, ..s }),
    decreases k,
{
    if k > 0 {
        lemma_with_commands(s, k - 1);
        let s1 = s.with_commands(k - 1);
        let (at, cmd) = s.cfg.commands[k - 1];
        assert(command_valid(cmd, s.cfg.nodes.len()));
        lemma_schedule(s1, at as int, Scheduled::Command(cmd));
        lemma_leads_to_trans(
            s,
            s1,
            s1.schedule(at as int, Scheduled::Command(cmd)),
            (2 * (k - 1)) as nat,
            2,
        );
    } else {
        assert(s.pending.is_prefix_of(s.pending));
    }
}

/// The start of a run.
pub proof fn lemma_initial(cfg: Config, normal: spec_fn(NormalDraw) -> Time)
    requires
        cfg.valid(),
        normal_ok(normal),
        sized(Sim::blank(cfg, normal)),
    ensures
        Sim::initial(cfg, normal).ok(),
        sized(Sim::initial(cfg, normal)),
        Sim::initial(cfg, normal) == (Sim {
            queue: Sim::initial(cfg, normal).queue,
            rng: Sim::initial(cfg, normal).rng,
            ..Sim::blank(cfg, normal)
        }),
{
    let s = Sim::blank(cfg, normal);
    lemma_blank(cfg, normal);
    lemma_with_polls(s, cfg.nodes.len() as int);
    let s1 = s.with_polls(cfg.nodes.len() as int);
    lemma_with_commands(s1, cfg.commands.len() as int);
    let s2 = s1.with_commands(cfg.commands.len() as int);
    if let Some(iv) = cfg.write_interval {
        lemma_jittered(s2, iv as int);
        lemma_draw(s2, s2.after_jitter(iv as int).rng);
        lemma_schedule(
            s2.after_jitter(iv as int),
            s2.jittered(iv as int),
            Scheduled::WriteTick,
        );
    }
}

// ---- Laws ---------------------------------------------------------------

/// The events of one advance are in ascending order of time, none earlier than
/// where the clock stood before or later than where it stands after.
pub proof fn law_events_are_time_ordered(s: Sim, t: int)
    requires
        s.ok(),
        sized(s),
        s.pending.len() == 0,
    ensures
        ({
            let events = s.advanced(t).pending;
            &&& forall|i: int, j: int| 0 <= i <= j < events.len() ==> events[i].at <= events[j].at
            &&& forall|i: int|
                0 <= i < events.len() ==> s.now <= (#[trigger] events[i]).at <= s.advanced(t).now
        }),
{
    lemma_advanced(s, t);
    let target = s.target(t);
    let n = lemma_settles(s, target);
    lemma_run_is(s, target, n);
    lemma_events_not_before(s, target, n, s.now);
}

/// Events are reported at the time they happen: nothing new is dated before the
/// time the run started from.
proof fn lemma_events_not_before(s: Sim, t: int, n: nat, from: Time)
    requires
        s.ok(),
        sized(s),
        t <= s.cfg.duration,
        from <= s.now,
        forall|i: int| 0 <= i < s.pending.len() ==> (#[trigger] s.pending[i]).at >= from,
    ensures
        forall|i: int|
            0 <= i < s.steps(t, n).pending.len() ==> (#[trigger] s.steps(t, n).pending[i]).at
                >= from,
    decreases n,
{
    if n > 0 && !s.settled(t) {
        lemma_step(s);
        let next = s.step();
        assert forall|i: int| 0 <= i < next.pending.len() implies (#[trigger] next.pending[i]).at
            >= from by {
            if i < s.pending.len() {
                assert(next.pending[i] == s.pending[i]);
            } else {
                assert(next.pending[i].at == next.now);
            }
        }
        lemma_events_not_before(next, t, (n - 1) as nat, from);
    }
}

/// Time only moves forward and never past the configured duration.
pub proof fn law_time_moves_forward(s: Sim, t: int)
    requires
        s.ok(),
        sized(s),
    ensures
        s.now <= s.advanced(t).now <= s.cfg.duration,
        s.now <= t <= s.cfg.duration ==> s.advanced(t).now == t,
        t > s.cfg.duration ==> s.advanced(t).now == s.cfg.duration,
{
    lemma_advanced(s, t);
}

/// Advancing again to a time already reached changes nothing and reports
/// nothing.
pub proof fn law_advance_is_idempotent(s: Sim, t: int, u: int)
    requires
        s.ok(),
        sized(s),
        u <= t,
    ensures
        s.advanced(t).taken().advanced(u) == s.advanced(t).taken(),
{
    lemma_advanced(s, t);
    let a = s.advanced(t).taken();
    assert(a.target(u) <= s.target(t));
    assert(a.settled(a.target(u)));
    assert(a.steps(a.target(u), 0) == a);
    lemma_run_is(a, a.target(u), 0);
    let now = max_of(a.now as int, a.target(u)) as Time;
    assert(now == a.now);
    let keep = |m: InFlight| m.arrival > now;
    lemma_filter_all(a.in_flight, keep);
}

proof fn lemma_filter_all<A>(s: Seq<A>, keep: spec_fn(A) -> bool)
    requires
        forall|i: int| 0 <= i < s.len() ==> keep(#[trigger] s[i]),
    ensures
        s.filter(keep) == s,
    decreases s.len(),
{
    reveal(Seq::filter);
    if s.len() > 0 {
        let rest = s.drop_last();
        assert forall|i: int| 0 <= i < rest.len() implies keep(#[trigger] rest[i]) by {
            assert(rest[i] == s[i]);
        }
        lemma_filter_all(rest, keep);
        assert(s =~= rest.push(s.last()));
    }
}

} // verus!
