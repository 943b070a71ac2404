//! A recorded run: the frames of a simulation, taken at a fixed pace until the
//! run stops on its own, and the scrubbing, pausing and resuming around them.

use crate::clock::{lemma_elapsed_monotone, Time};
use crate::dist::{sampled, samples_within, NormalDraw};
use crate::engine::Engine;
use crate::event::Event;
use crate::frame::{share, share_of, Fraction, Frame, Picture};
use crate::grants::{grant_bars, is_history, pictures, GrantRun};
use crate::history::law_advance_in_parts;
use crate::milestone::Milestone;
use crate::progress::{lemma_advanced, lemma_initial, sized};
use crate::scenario::{Config, Scenario, LIMIT};
use crate::sim::{max_of, min_of, Sim};
use crate::topology::Topology;
use crate::upkeep::{normal_ok, within};
use vstd::prelude::*;

verus! {

/// Global ticks between recorded frames — the time resolution of a run and the
/// granularity the timeline slider scrubs at. Kept fine for smooth motion.
pub const FRAME_TICKS: Time = 3;

/// Wall-clock interval between generation repaints (~143 fps), so message motion
/// stays smooth on high-refresh displays. Paired with one frame per repaint, so
/// that exactly one recorded frame is painted each time.
pub const RENDER_MS: u32 = 7;

/// Frames advanced per repaint while generating. One frame per repaint keeps
/// display and sim resolution in lockstep.
pub const FRAMES_PER_STEP: usize = 1;

/// Frames-per-repaint multiplier applied while the fast-forward toggle is on.
pub const FF_MULT: usize = 3;

/// Lifecycle of a recorded/scrubbable run.
#[derive(Debug, Clone, Copy, PartialEq, Eq, Structural)]
pub enum RunPhase {
    /// No run; the canvas shows the static topology.
    Idle,
    /// A run is being generated live (the simulation is playing out).
    Generating,
    /// Paused mid-generation; scrubbable and resumable.
    Paused,
    /// The run finished (hit its stop condition or cap); scrubbable, not
    /// resumable. A fresh Play/Restart is needed to run again.
    Stopped,
}

/// When a run stops generating on its own. Every variant also carries a hard tick
/// cap (the tick itself / the `cap` field) so a run can never generate forever
/// even if its event never fires.
#[derive(Debug, Clone, Copy, PartialEq, Eq, Structural)]
pub enum StopWhen {
    /// Stop at a fixed global tick.
    AtTick(Time),
    /// Stop `after` ticks past the `n`-th event that is `pred`, or at `cap`
    /// ticks — whichever comes first. Lets a walkthrough scenario halt on a
    /// meaningful protocol milestone (e.g. "the grantor's 2nd renew reply") rather
    /// than a hand-tuned tick. `after` is a lead-out so the aftermath of the
    /// milestone stays on screen; `after: 0` stops right on the event.
    OnNthEvent { n: usize, pred: Milestone, after: Time, cap: Time },
}

/// What a stop condition has seen of a run so far.
pub struct Seen {
    /// How many events counted.
    pub hits: nat,
    /// The tick to stop at, once the counted event has come.
    pub deadline: Option<int>,
}

impl StopWhen {
    /// The hard tick cap for this condition.
    pub open spec fn limit(self) -> int {
        match self {
            StopWhen::AtTick(t) => t as int,
            StopWhen::OnNthEvent { cap, .. } => cap as int,
        }
    }

    /// The latest tick at which a run can record a frame: the last frame time that
    /// is not past the cap. (The frame at tick zero is recorded in any case.)
    pub open spec fn last_tick(self) -> int {
        if self.limit() <= 0 {
            0
        } else {
            FRAME_TICKS * (self.limit() / FRAME_TICKS as int)
        }
    }

    /// What has been seen after the events that led up to tick `t`. Once the
    /// counted event has come, a deadline `after` ticks later is set, and stays.
    pub open spec fn watched(self, seen: Seen, events: Seq<Event>, t: int) -> Seen {
        match self {
            StopWhen::AtTick(_) => seen,
            StopWhen::OnNthEvent { n, pred, after, cap } => if seen.deadline is Some || pred.hits(
                events,
            ) == 0 {
                seen
            } else {
                let hits = min_of((seen.hits + pred.hits(events)) as int, usize::MAX as int) as nat;
                Seen {
                    hits,
                    deadline: if hits >= n {
                        Some(min_of(t + after, cap as int))
                    } else {
                        None
                    },
                }
            },
        }
    }

    /// Whether a run stops at tick `t`: the deadline, if one is set, is reached, or the
    /// next frame would be past the cap.
    pub open spec fn is_over(self, seen: Seen, t: int) -> bool {
        ||| seen.deadline matches Some(d) && t >= d
        ||| t + FRAME_TICKS > self.limit()
    }

    /// The hard tick cap for this condition — the latest tick generation may run
    /// to regardless of events.
    pub fn cap(&self) -> (r: Time)
        ensures
            r == self.limit(),
    {
        match *self {
            StopWhen::AtTick(t) => t,
            StopWhen::OnNthEvent { cap, .. } => cap,
        }
    }

    /// Whether a run of `scenario` can be generated until this condition stops
    /// it, for certain: its last frame lies within the scenario's duration.
    pub fn ends_within(&self, scenario: &Scenario) -> (r: bool)
        requires
            scenario@.valid(),
        ensures
            r == (self.last_tick() <= scenario@.duration),
    {
        let cap: Time = self.cap();
        if cap <= 0 {
            return true;
        }
        cap / FRAME_TICKS * FRAME_TICKS <= scenario.duration
    }
}

/// Every clock of the scenario can be read at every tick up to `t`.
pub open spec fn reaches(cfg: Config, t: int) -> bool {
    t <= cfg.duration || forall|node: int|
        0 <= node < cfg.nodes.len() ==> within((#[trigger] cfg.nodes[node]).clock.reading(t), 16)
}

/// Between two ticks at which the clocks can be read, they can be read.
proof fn lemma_readable(s: Sim, t: int, u: int)
    requires
        s.ok(),
        reaches(s.cfg, t),
        0 <= u <= t,
    ensures
        s.readable(u),
{
    if u > s.cfg.duration {
        assert forall|node: usize| node < s.cfg.nodes.len() implies within(
            #[trigger] s.local_at(node, u),
            16,
        ) by {
            let clock = s.cfg.nodes[node as int].clock;
            assert(within(s.cfg.nodes[node as int].clock.reading(t), 16));
            lemma_elapsed_monotone(clock, u, t);
        }
    }
}

/// What a [`SimRun`] holds.
#[verifier::ext_equal]
pub struct Run {
    pub phase: RunPhase,
    pub engine: Option<Sim>,
    pub frames: Seq<Picture>,
    /// Global time of the next frame to generate.
    pub next_t: int,
    pub stop: StopWhen,
    pub seen: Seen,
    pub cursor: nat,
    pub fast_forward: bool,
}

impl Run {
    /// A run is under way, playing or paused.
    pub open spec fn under_way(self) -> bool {
        self.phase == RunPhase::Generating || self.phase == RunPhase::Paused
    }

    /// The state is one that a run can be in.
    pub open spec fn ok(self) -> bool {
        &&& self.under_way() <==> self.engine is Some
        &&& self.under_way() ==> {
            &&& self.engine->0.ok()
            &&& sized(self.engine->0)
            &&& self.engine->0.pending.len() == 0
            &&& reaches(self.engine->0.cfg, self.stop.last_tick())
            &&& self.next_t == FRAME_TICKS * self.frames.len()
            &&& self.next_t <= self.stop.last_tick() <= i64::MAX
            &&& forall|k: int|
                0 <= k < self.frames.len() ==> (#[trigger] self.frames[k]).leases.len()
                    == self.engine->0.cfg.leases.len()
        }
        &&& self.phase == RunPhase::Idle ==> self.frames.len() == 0
        &&& FRAME_TICKS * (self.frames.len() - 1) <= i64::MAX
        &&& forall|k: int|
            0 <= k < self.frames.len() ==> (#[trigger] self.frames[k]).at == FRAME_TICKS * k
        &&& forall|j: int, k: int|
            0 <= j < self.frames.len() && 0 <= k < self.frames.len() ==> (
            #[trigger] self.frames[j]).leases.len() == (#[trigger] self.frames[k]).leases.len()
        &&& 0 <= self.next_t <= i64::MAX
    }

    /// No run yet.
    pub open spec fn idle() -> Run {
        Run {
            phase: RunPhase::Idle,
            engine: None,
            frames: Seq::empty(),
            next_t: 0,
            stop: StopWhen::AtTick(0),
            seen: Seen { hits: 0, deadline: None },
            cursor: 0,
            fast_forward: false,
        }
    }

    /// A fresh run of a scenario begins.
    pub open spec fn started(
        self,
        cfg: Config,
        normal: spec_fn(NormalDraw) -> Time,
        stop: StopWhen,
    ) -> Run {
        Run {
            phase: RunPhase::Generating,
            engine: Some(Sim::initial(cfg, normal)),
            stop,
            fast_forward: self.fast_forward,
            ..Run::idle()
        }
    }

    /// A run in progress is halted.
    pub open spec fn paused(self) -> Run {
        if self.phase == RunPhase::Generating {
            Run { phase: RunPhase::Paused, ..self }
        } else {
            self
        }
    }

    /// A halted run goes on.
    pub open spec fn resumed(self) -> Run {
        if self.phase == RunPhase::Paused {
            Run { phase: RunPhase::Generating, ..self }
        } else {
            self
        }
    }

    /// The run is thrown away.
    pub open spec fn discarded(self) -> Run {
        Run { stop: self.stop, fast_forward: self.fast_forward, ..Run::idle() }
    }

    /// One more frame is recorded and shown: the engine is advanced to the
    /// frame's time, and the run stops there if its stop condition says so.
    pub open spec fn recorded(self) -> Run {
        let t = self.next_t;
        let sim = self.engine->0.advanced(t);
        let seen = self.stop.watched(self.seen, sim.pending, t);
        let over = self.stop.is_over(seen, t);
        Run {
            phase: if over {
                RunPhase::Stopped
            } else {
                self.phase
            },
            engine: if over {
                None
            } else {
                Some(sim.taken())
            },
            frames: self.frames.push(sim.taken().picture(t)),
            next_t: if over {
                t
            } else {
                t + FRAME_TICKS
            },
            seen,
            cursor: self.frames.len(),
            ..self
        }
    }

    /// Up to `k` more frames are recorded, as long as the run plays.
    pub open spec fn batch(self, k: nat) -> Run
        decreases k,
    {
        if k == 0 || self.phase != RunPhase::Generating {
            self
        } else {
            self.recorded().batch((k - 1) as nat)
        }
    }

    /// How many frames one repaint records.
    pub open spec fn batch_len(self) -> nat {
        if self.fast_forward {
            (FRAMES_PER_STEP * FF_MULT) as nat
        } else {
            FRAMES_PER_STEP as nat
        }
    }

    /// One repaint.
    pub open spec fn repainted(self) -> Run {
        self.batch(self.batch_len())
    }

    /// The run plays out until it stops on its own.
    pub open spec fn finished(self) -> Run
        decreases max_of(self.stop.limit() + FRAME_TICKS - self.next_t, 0),
    {
        let next = self.recorded();
        if self.phase != RunPhase::Generating {
            self
        } else if next.phase != RunPhase::Generating {
            next
        } else {
            next.finished()
        }
    }

    /// The position of the frame on show.
    pub open spec fn shown(self) -> int {
        min_of(self.cursor as int, max_of(self.frames.len() - 1, 0))
    }
}

/// Recording a frame keeps a run in order.
proof fn lemma_recorded(r: Run)
    requires
        r.ok(),
        r.under_way(),
    ensures
        r.recorded().ok(),
        r.engine->0.advanced(r.next_t).taken().readable(r.next_t),
        r.recorded().phase == RunPhase::Stopped || r.recorded().phase == r.phase,
        r.recorded().frames.len() == r.frames.len() + 1,
{
    let sim = r.engine->0;
    lemma_advanced(sim, r.next_t);
    lemma_readable(sim.advanced(r.next_t).taken(), r.stop.last_tick(), r.next_t);
    assert(sized(sim.advanced(r.next_t).taken()));
}

/// A live simulation run: the recorded frames, the engine that produces them, and
/// the lifecycle. A run generates until it is paused or its [`StopWhen`] fires, at
/// which point it becomes [`RunPhase::Stopped`].
pub struct SimRun<F> {
    phase: RunPhase,
    engine: Option<Engine<F>>,
    frames: Vec<Frame>,
    /// Global time of the next frame to generate.
    next_t: Time,
    /// This run's stop condition (an event milestone or a fixed tick), always
    /// bounded by a tick cap.
    stop: StopWhen,
    /// Count of stop-events seen so far this run (for `OnNthEvent`).
    events_seen: usize,
    /// For `OnNthEvent`: once the n-th matching event fires, the tick generation
    /// should stop at (`event tick + after`, clamped to the cap). `None` until
    /// then; the run keeps going past the event so its aftermath stays on screen.
    event_deadline: Option<Time>,
    cursor: usize,
    fast_forward: bool,
}

impl<F: Fn(NormalDraw) -> Time> View for SimRun<F> {
    type V = Run;

    closed spec fn view(&self) -> Run {
        Run {
            phase: self.phase,
            engine: match self.engine {
                Some(e) => Some(e@),
                None => None,
            },
            frames: pictures(self.frames@),
            next_t: self.next_t as int,
            stop: self.stop,
            seen: Seen {
                hits: self.events_seen as nat,
                deadline: match self.event_deadline {
                    Some(d) => Some(d as int),
                    None => None,
                },
            },
            cursor: self.cursor as nat,
            fast_forward: self.fast_forward,
        }
    }
}

impl<F: Fn(NormalDraw) -> Time> SimRun<F> {
    /// The engine, while there is one, is in order.
    pub closed spec fn engine_ok(&self) -> bool {
        self.engine matches Some(e) ==> e.wf()
    }

    /// The run is one that its methods lead to.
    pub open spec fn wf(&self) -> bool {
        &&& self@.ok()
        &&& self.engine_ok()
    }

    /// No run yet.
    pub fn new() -> (r: Self)
        ensures
            r.wf(),
            r@ == Run::idle(),
    {
        let r = SimRun {
            phase: RunPhase::Idle,
            engine: None,
            frames: Vec::new(),
            next_t: 0,
            stop: StopWhen::AtTick(0),
            events_seen: 0,
            event_deadline: None,
            cursor: 0,
            fast_forward: false,
        };
        assert(r@ =~= Run::idle());
        r
    }

    /// (Re)build the run around `scenario`, generating from tick 0 until `stop`
    /// fires (an event milestone or a fixed tick, always tick-capped). `normal`
    /// draws Gaussian delays, as for [`Engine::new`].
    pub fn start(&mut self, scenario: Scenario, stop: StopWhen, normal: F)
        requires
            scenario@.valid(),
            samples_within(normal, LIMIT as int),
            reaches(scenario@, stop.last_tick()),
        ensures
            final(self).wf(),
            final(self)@ == old(self)@.started(scenario@, sampled(normal), stop),
    {
        let ghost before = self@;
        let ghost cfg = scenario@;
        assert(scenario.nodes.len() == cfg.nodes.len() && scenario.leases.len()
            == cfg.leases.len());
        let engine = Engine::new(scenario, normal);
        proof {
            lemma_initial(cfg, sampled(normal));
        }
        self.engine = Some(engine);
        self.frames = Vec::new();
        self.cursor = 0;
        self.next_t = 0;
        self.stop = stop;
        self.events_seen = 0;
        self.event_deadline = None;
        self.phase = RunPhase::Generating;
        assert(self@ =~= before.started(cfg, sampled(normal), stop));
    }

    /// Halt an in-progress run at the current frame, keeping the engine so
    /// [`resume`](Self::resume) can pick it back up.
    pub fn pause(&mut self)
        requires
            old(self).wf(),
        ensures
            final(self).wf(),
            final(self)@ == old(self)@.paused(),
    {
        if self.phase == RunPhase::Generating {
            self.phase = RunPhase::Paused;
        }
    }

    /// Continue a paused run from where it left off.
    pub fn resume(&mut self)
        requires
            old(self).wf(),
        ensures
            final(self).wf(),
            final(self)@ == old(self)@.resumed(),
    {
        if self.phase == RunPhase::Paused {
            self.phase = RunPhase::Generating;
        }
    }

    /// Discard the run entirely, returning to `Idle` (static topology). The next
    /// `start` begins fresh.
    pub fn reset(&mut self)
        ensures
            final(self).wf(),
            final(self)@ == old(self)@.discarded(),
    {
        let ghost before = self@;
        self.phase = RunPhase::Idle;
        self.engine = None;
        self.frames = Vec::new();
        self.next_t = 0;
        self.events_seen = 0;
        self.event_deadline = None;
        self.cursor = 0;
        assert(self@ =~= before.discarded());
    }

    pub fn phase(&self) -> (r: RunPhase)
        ensures
            r == self@.phase,
    {
        self.phase
    }

    /// Number of recorded frames so far.
    pub fn rec_len(&self) -> (r: usize)
        ensures
            r == self@.frames.len(),
    {
        self.frames.len()
    }

    /// The scrub cursor, clamped to the recorded range.
    pub fn cursor(&self) -> (r: usize)
        ensures
            r == self@.shown(),
    {
        let len: usize = self.rec_len();
        let last: usize = if len > 0 {
            len - 1
        } else {
            0
        };
        if self.cursor < last {
            self.cursor
        } else {
            last
        }
    }

    /// Move the scrub cursor (used by the timeline slider).
    pub fn set_cursor(&mut self, v: usize)
        requires
            old(self).wf(),
        ensures
            final(self).wf(),
            final(self)@ == (Run { cursor: v as nat, ..old(self)@ }),
    {
        self.cursor = v;
    }

    pub fn fast_forward(&self) -> (r: bool)
        ensures
            r == self@.fast_forward,
    {
        self.fast_forward
    }

    pub fn toggle_fast_forward(&mut self)
        requires
            old(self).wf(),
        ensures
            final(self).wf(),
            final(self)@ == (Run { fast_forward: !old(self)@.fast_forward, ..old(self)@ }),
    {
        self.fast_forward = !self.fast_forward;
    }

    /// The frame currently under the cursor, if any (`None` while idle).
    pub fn frame(&self) -> (r: Option<&Frame>)
        ensures
            match r {
                Some(f) => self@.frames.len() > 0 && f@ == self@.frames[self@.shown()],
                None => self@.frames.len() == 0,
            },
    {
        let k: usize = self.cursor();
        if k < self.frames.len() {
            Some(&self.frames[k])
        } else {
            None
        }
    }

    /// Grant bars for `topology` over the recorded frames.
    pub fn grant_bars(&self, topology: &Topology) -> (r: Vec<Vec<GrantRun>>)
        requires
            self.wf(),
            self@.frames.len() > 0 ==> self@.frames[self@.shown()].leases.len() < usize::MAX,
        ensures
            r@.len() == topology.n,
            forall|node: usize|
                node < topology.n ==> is_history(
                    (#[trigger] r@[node as int])@,
                    self@.frames,
                    node,
                    topology@.own_grant(node),
                ),
    {
        assert forall|i: int| 0 <= i < self.frames@.len() implies (
        #[trigger] self.frames@[i])@.leases.len() < usize::MAX by {
            assert(self@.frames[i] == self.frames@[i]@);
        }
        grant_bars(topology, self.frames.as_slice())
    }

    /// Cursor position as a fraction of the run, for the grant-bar playhead.
    pub fn cursor_frac(&self) -> (r: Fraction)
        requires
            self.wf(),
        ensures
            r.wf(),
            r == share(self@.shown(), self@.frames.len() - 1),
    {
        let len: usize = self.rec_len();
        let at: usize = self.cursor();
        if len > 1 {
            share_of(at as Time, (len - 1) as Time)
        } else {
            Fraction { num: 0, den: 1 }
        }
    }

    /// Current scrub time in global ticks: the time of the frame under the cursor.
    pub fn now_ticks(&self) -> (r: Time)
        requires
            self.wf(),
        ensures
            r == self@.shown() * FRAME_TICKS,
            self@.frames.len() > 0 ==> r == self@.frames[self@.shown()].at,
    {
        self.cursor() as Time * FRAME_TICKS
    }

    /// The run's recorded end in global ticks: the time of the last frame.
    pub fn end_ticks(&self) -> (r: Time)
        requires
            self.wf(),
        ensures
            r == max_of(self@.frames.len() - 1, 0) * FRAME_TICKS,
            self@.frames.len() > 0 ==> r == self@.frames.last().at,
    {
        let len: usize = self.rec_len();
        if len > 0 {
            (len - 1) as Time * FRAME_TICKS
        } else {
            0
        }
    }

    /// Take note of the events that led up to tick `t`. Once the n-th counted
    /// event fires, arm a deadline `after` ticks later (clamped to the cap) rather
    /// than stopping on the spot — so the milestone's aftermath stays on screen.
    /// Only the first arming sticks.
    fn watch(&mut self, events: &[Event], t: Time)
        requires
            0 <= t,
        ensures
            final(self).engine == old(self).engine,
            final(self)@ == (Run {
                seen: old(self)@.stop.watched(old(self)@.seen, events@, t as int),
                ..old(self)@
            }),
    {
        if let StopWhen::OnNthEvent { n, pred, after, cap } = self.stop {
            if self.event_deadline.is_none() {
                let hits: usize = pred.count(events);
                if hits > 0 {
                    self.events_seen = if hits > usize::MAX - self.events_seen {
                        usize::MAX
                    } else {
                        self.events_seen + hits
                    };
                    if self.events_seen >= n {
                        let deadline: Time = if after > 0 && t > i64::MAX - after {
                            cap
                        } else if t + after < cap {
                            t + after
                        } else {
                            cap
                        };
                        self.event_deadline = Some(deadline);
                    }
                }
            }
        }
    }

    /// Whether the run is to stop at tick `t`: the event deadline (armed when the
    /// milestone fired) is reached, or the next frame would be past the hard tick cap.
    fn is_over(&self, t: Time) -> (r: bool)
        requires
            0 <= t,
        ensures
            r == self@.stop.is_over(self@.seen, t as int),
    {
        if t > i64::MAX - FRAME_TICKS {
            return true;
        }
        let past_cap: bool = t + FRAME_TICKS > self.stop.cap();
        match self.event_deadline {
            Some(d) => past_cap || t >= d,
            None => past_cap,
        }
    }

    /// Record the next frame.
    fn record(&mut self)
        requires
            old(self).wf(),
            old(self)@.under_way(),
        ensures
            final(self).wf(),
            final(self)@ == old(self)@.recorded(),
    {
        let ghost before = self@;
        proof {
            lemma_recorded(self@);
        }
        let t: Time = self.next_t;
        let mut slot: Option<Engine<F>> = None;
        std::mem::swap(&mut slot, &mut self.engine);
        if let Some(engine) = slot {
            let mut engine = engine;
            assert(engine@ == before.engine->0);
            // Events produced advancing into this frame's window; scanned for the
            // stop milestone.
            let events: Vec<Event> = engine.advance_to(t);
            self.watch(events.as_slice(), t);
            let frame: Frame = engine.frame_at(t);
            self.cursor = self.frames.len();
            self.frames.push(frame);
            if self.is_over(t) {
                self.phase = RunPhase::Stopped;
            } else {
                self.next_t = t + FRAME_TICKS;
                self.engine = Some(engine);
            }
            assert(self@.frames =~= before.recorded().frames);
            assert(self@ =~= before.recorded());
        }
    }

    /// One repaint: while `Generating`, advance the engine a batch of frames,
    /// recording each. The run ends — dropping the engine but keeping the recorded
    /// frames for scrubbing — when its `StopWhen` fires: either the tick cap is
    /// reached, or (for `OnNthEvent`) the n-th matching event is produced.
    pub fn repaint(&mut self)
        requires
            old(self).wf(),
        ensures
            final(self).wf(),
            final(self)@ == old(self)@.repainted(),
    {
        let ghost before = self@;
        let batch: usize = if self.fast_forward {
            FRAMES_PER_STEP * FF_MULT
        } else {
            FRAMES_PER_STEP
        };
        let mut left: usize = batch;
        while left > 0 && self.phase == RunPhase::Generating
            invariant
                self.wf(),
                before.batch(before.batch_len()) == self@.batch(left as nat),
            decreases left,
        {
            self.record();
            left = left - 1;
        }
    }

    /// Plays the run out until it stops on its own.
    fn finish(&mut self)
        requires
            old(self).wf(),
        ensures
            final(self).wf(),
            final(self)@ == old(self)@.finished(),
    {
        let ghost before = self@;
        while self.phase == RunPhase::Generating
            invariant
                self.wf(),
                before.finished() == self@.finished(),
            decreases
                max_of(self@.stop.limit() + FRAME_TICKS - self@.next_t, 0),
                (if self@.phase == RunPhase::Generating {
                    1int
                } else {
                    0int
                }),
        {
            self.record();
        }
    }
}

/// Generate the *entire* recorded frame sequence for a scenario up front, the
/// offline counterpart to repainting a live [`SimRun`] (which fills the same frames
/// incrementally, one repaint-batch at a time). Produces the same frames the live
/// canvas would record — same `FRAME_TICKS` stepping, same `StopWhen` stop logic —
/// so an offline consumer (the GIF capture route) replays exactly what a viewer
/// sees in the browser.
pub fn generate_frames<F: Fn(NormalDraw) -> Time>(
    scenario: Scenario,
    stop: StopWhen,
    normal: F,
) -> (r: Vec<Frame>)
    requires
        scenario@.valid(),
        samples_within(normal, LIMIT as int),
        reaches(scenario@, stop.last_tick()),
    ensures
        pictures(r@) == Run::idle().started(scenario@, sampled(normal), stop).finished().frames,
{
    let mut run: SimRun<F> = SimRun::new();
    run.start(scenario, stop, normal);
    run.finish();
    run.frames
}

/// However many repaints a live run has had, letting it play out from there
/// records what playing it out at once records.
pub proof fn law_live_run_matches_offline(r: Run, k: nat)
    requires
        r.phase == RunPhase::Generating,
    ensures
        r.batch(k).finished() == r.finished(),
    decreases k,
{
    if k > 0 {
        let next = r.recorded();
        if next.phase == RunPhase::Generating {
            law_live_run_matches_offline(next, (k - 1) as nat);
        } else {
            assert(next.batch((k - 1) as nat) == next);
        }
    }
}

/// Pausing and resuming a playing run, or scrubbing it in between, loses nothing:
/// the run plays out as if it had not been touched, and repaints leave a paused
/// run alone.
pub proof fn law_pause_loses_nothing(r: Run, cursor: nat)
    requires
        r.phase == RunPhase::Generating,
    ensures
        r.paused().repainted() == r.paused(),
        r.paused().resumed() == r,
        (Run { cursor, ..r.paused() }).resumed().finished().frames == r.finished().frames,
{
    let scrubbed = (Run { cursor, ..r.paused() }).resumed();
    assert(scrubbed.recorded() == r.recorded());
}

/// What can be done to a run on screen.
pub enum Touch {
    Repaint,
    Pause,
    Resume,
    /// The timeline slider is moved to a frame.
    Scrub(nat),
    ToggleFastForward,
}

impl Run {
    /// The run after it was touched once.
    pub open spec fn touched(self, touch: Touch) -> Run {
        match touch {
            Touch::Repaint => self.repainted(),
            Touch::Pause => self.paused(),
            Touch::Resume => self.resumed(),
            Touch::Scrub(cursor) => Run { cursor, ..self },
            Touch::ToggleFastForward => Run { fast_forward: !self.fast_forward, ..self },
        }
    }

    /// The run after it was touched again and again.
    pub open spec fn after(self, touches: Seq<Touch>) -> Run
        decreases touches.len(),
    {
        if touches.len() == 0 {
            self
        } else {
            self.touched(touches.first()).after(touches.drop_first())
        }
    }
}

/// What a run records does not depend on where the slider stands, nor on the pace.
proof fn lemma_pace_is_no_matter(r: Run, cursor: nat, fast_forward: bool)
    ensures
        (Run { cursor, fast_forward, ..r }).finished().frames == r.finished().frames,
    decreases max_of(r.stop.limit() + FRAME_TICKS - r.next_t, 0),
{
    let q = Run { cursor, fast_forward, ..r };
    let next = r.recorded();
    assert(q.recorded() == (Run { cursor: next.cursor, fast_forward, ..next }));
    if r.phase == RunPhase::Generating && next.phase == RunPhase::Generating {
        lemma_pace_is_no_matter(next, next.cursor, fast_forward);
    }
}

/// Playing a run out keeps the frames that it has.
proof fn lemma_finished_keeps_frames(r: Run)
    ensures
        r.frames.is_prefix_of(r.finished().frames),
    decreases max_of(r.stop.limit() + FRAME_TICKS - r.next_t, 0),
{
    let next = r.recorded();
    assert(r.frames.is_prefix_of(next.frames));
    if r.phase == RunPhase::Generating && next.phase == RunPhase::Generating {
        lemma_finished_keeps_frames(next);
    }
}

/// Nothing that is done to a run on screen changes the frames that it plays out to.
proof fn lemma_touches_are_no_matter(r: Run, touches: Seq<Touch>)
    ensures
        r.after(touches).resumed().finished().frames == r.resumed().finished().frames,
    decreases touches.len(),
{
    if touches.len() > 0 {
        let touch = touches.first();
        let next = r.touched(touch);
        assert(next.resumed().finished().frames == r.resumed().finished().frames) by {
            match touch {
                Touch::Repaint => if r.phase == RunPhase::Generating {
                    law_live_run_matches_offline(r, r.batch_len());
                    lemma_batch_phase(r, r.batch_len());
                },
                Touch::Pause => {},
                Touch::Resume => {},
                Touch::Scrub(cursor) => {
                    lemma_pace_is_no_matter(r.resumed(), cursor, r.fast_forward);
                    assert(next.resumed() == (Run {
                        cursor,
                        fast_forward: r.fast_forward,
                        ..r.resumed()
                    }));
                },
                Touch::ToggleFastForward => {
                    lemma_pace_is_no_matter(r.resumed(), r.cursor, !r.fast_forward);
                    assert(next.resumed() == (Run {
                        cursor: r.cursor,
                        fast_forward: !r.fast_forward,
                        ..r.resumed()
                    }));
                },
            }
        }
        lemma_touches_are_no_matter(next, touches.drop_first());
    }
}

/// A playing run is playing or has stopped after a repaint.
proof fn lemma_batch_phase(r: Run, k: nat)
    requires
        r.phase == RunPhase::Generating,
    ensures
        r.batch(k).phase == RunPhase::Generating || r.batch(k).phase == RunPhase::Stopped,
    decreases k,
{
    if k > 0 {
        let next = r.recorded();
        if next.phase == RunPhase::Generating {
            lemma_batch_phase(next, (k - 1) as nat);
        } else {
            assert(next.batch((k - 1) as nat) == next);
        }
    }
}

/// Repaints, pauses, resumptions, scrubbing and fast-forward toggles, in any order
/// and number, change only the pace at which a run is recorded. At every moment the
/// frames are the first ones that [`generate_frames`] gives for the scenario, the
/// run still plays out to all of them, and once it has stopped it has just those.
pub proof fn law_touches_change_the_pace_only(
    before: Run,
    cfg: Config,
    normal: spec_fn(NormalDraw) -> Time,
    stop: StopWhen,
    touches: Seq<Touch>,
)
    ensures
        ({
            let live = before.started(cfg, normal, stop).after(touches);
            let offline = Run::idle().started(cfg, normal, stop).finished().frames;
            &&& live.frames.is_prefix_of(offline)
            &&& live.resumed().finished().frames == offline
            &&& live.phase == RunPhase::Stopped ==> live.frames == offline
        }),
{
    let fresh = before.started(cfg, normal, stop);
    let live = fresh.after(touches);
    let idle = Run::idle().started(cfg, normal, stop);
    assert(fresh == (Run { cursor: 0, fast_forward: before.fast_forward, ..idle }));
    lemma_pace_is_no_matter(idle, 0, before.fast_forward);
    lemma_touches_are_no_matter(fresh, touches);
    lemma_finished_keeps_frames(live.resumed());
}

/// A repaint with fast-forward on records what that many repaints without it record.
pub proof fn law_fast_forward_is_several_repaints(r: Run)
    ensures
        (Run { fast_forward: true, ..r }).repainted() == (Run {
            fast_forward: true,
            ..(Run { fast_forward: false, ..r }).after(
                Seq::new(FF_MULT as nat, |i: int| Touch::Repaint),
            )
        }),
{
    let fast = Run { fast_forward: true, ..r };
    let slow = Run { fast_forward: false, ..r };
    let three = Seq::new(FF_MULT as nat, |i: int| Touch::Repaint);
    reveal_with_fuel(Run::batch, 4);
    reveal_with_fuel(Run::after, 4);
    assert(slow.repainted() == slow.batch(1));
    assert(slow.batch(1).fast_forward == false);
    assert(slow.batch(1).batch(1).fast_forward == false);
    assert(slow.after(three) == slow.batch(1).batch(1).batch(1));
    assert(fast.recorded() == (Run { fast_forward: true, ..slow.recorded() }));
    let a = slow.recorded();
    assert((Run { fast_forward: true, ..a }).recorded() == (Run {
        fast_forward: true,
        ..a.recorded()
    }));
    let b = a.recorded();
    assert((Run { fast_forward: true, ..b }).recorded() == (Run {
        fast_forward: true,
        ..b.recorded()
    }));
    assert(fast.batch(3) == (Run { fast_forward: true, ..slow.batch(3) }));
    assert(slow.batch(3) == slow.batch(1).batch(1).batch(1));
}

/// A run that is allowed to play always stops on its own, and records no frame past
/// its cap.
pub proof fn law_run_stops(r: Run)
    requires
        r.ok(),
        r.phase == RunPhase::Generating,
    ensures
        r.finished().ok(),
        r.finished().phase == RunPhase::Stopped,
        r.finished().frames.len() > r.frames.len(),
        r.finished().frames.last().at <= r.stop.last_tick(),
    decreases max_of(r.stop.limit() + FRAME_TICKS - r.next_t, 0),
{
    lemma_recorded(r);
    if r.recorded().phase == RunPhase::Generating {
        law_run_stops(r.recorded());
    }
}

/// Repainting only adds frames: what was recorded stays.
pub proof fn law_repaint_keeps_frames(r: Run, k: nat)
    ensures
        r.frames.is_prefix_of(r.batch(k).frames),
    decreases k,
{
    if k > 0 && r.phase == RunPhase::Generating {
        law_repaint_keeps_frames(r.recorded(), (k - 1) as nat);
        assert(r.frames.is_prefix_of(r.recorded().frames));
    }
}

/// Frames are recorded at the same pace throughout, starting at tick zero.
pub proof fn law_frames_are_evenly_spaced(r: Run, k: int)
    requires
        r.ok(),
        0 <= k < r.frames.len(),
    ensures
        r.frames[k].at == FRAME_TICKS * k,
{
}

/// A deadline, once set, stays: later events do not move it.
pub proof fn law_deadline_sticks(stop: StopWhen, seen: Seen, events: Seq<Event>, t: int)
    requires
        seen.deadline is Some,
    ensures
        stop.watched(seen, events, t) == seen,
{
}

/// With no lead-out, a run stops on the very frame that the counted event leads
/// up to.
pub proof fn law_stops_on_milestone(r: Run)
    requires
        r.phase == RunPhase::Generating,
        r.stop is OnNthEvent,
        r.stop->after == 0,
        r.seen.deadline is None,
        r.stop->pred.hits(r.engine->0.advanced(r.next_t).pending) > 0,
        r.seen.hits + r.stop->pred.hits(r.engine->0.advanced(r.next_t).pending) >= r.stop->n,
    ensures
        r.recorded().phase == RunPhase::Stopped,
        r.recorded().frames.last().at == r.next_t,
{
}

// ---- What is recorded, and how much ----------------------------------------

/// All that a run of the scenario reports up to a time.
pub open spec fn reported(cfg: Config, normal: spec_fn(NormalDraw) -> Time, t: int) -> Seq<Event> {
    Sim::initial(cfg, normal).advanced(t).pending
}

/// A run of the scenario that is being recorded: its frames are those of the engine, and so
/// is what it goes on with.
spec fn follows(r: Run, cfg: Config, normal: spec_fn(NormalDraw) -> Time) -> bool {
    let s = Sim::initial(cfg, normal);
    &&& r.next_t == 3 * r.frames.len()
    &&& r.phase == RunPhase::Generating
    &&& r.engine == Some(
        if r.frames.len() == 0 {
            s
        } else {
            s.advanced(r.next_t - 3).taken()
        },
    )
    &&& forall|k: int|
        0 <= k < r.frames.len() ==> #[trigger] r.frames[k] == s.advanced(3 * k).taken().picture(
            3 * k,
        )
}

/// One more frame.
proof fn lemma_recorded_follows(r: Run, cfg: Config, normal: spec_fn(NormalDraw) -> Time)
    requires
        cfg.valid(),
        normal_ok(normal),
        sized(Sim::blank(cfg, normal)),
        follows(r, cfg, normal),
    ensures
        ({
            let q = r.recorded();
            let s = Sim::initial(cfg, normal);
            let t = r.next_t;
            let events = r.engine->0.advanced(t).pending;
            &&& q.frames.len() == r.frames.len() + 1
            &&& forall|k: int|
                0 <= k < q.frames.len() ==> #[trigger] q.frames[k] == s.advanced(
                    3 * k,
                ).taken().picture(3 * k)
            &&& q.phase == RunPhase::Generating ==> follows(q, cfg, normal)
            &&& q.phase == RunPhase::Generating || q.phase == RunPhase::Stopped
            &&& q.stop == r.stop
            &&& r.frames.len() == 0 ==> events == reported(cfg, normal, t)
            &&& r.frames.len() > 0 ==> reported(cfg, normal, t) == reported(cfg, normal, t - 3)
                + events
        }),
{
    let s = Sim::initial(cfg, normal);
    lemma_initial(cfg, normal);
    let t = r.next_t;
    if r.frames.len() > 0 {
        law_advance_in_parts(s, t - 3, t);
    }
    let q = r.recorded();
    assert forall|k: int| 0 <= k < q.frames.len() implies #[trigger] q.frames[k] == s.advanced(
        3 * k,
    ).taken().picture(3 * k) by {
        if k < r.frames.len() {
            assert(q.frames[k] == r.frames[k]);
        }
    }
}

proof fn lemma_finished_follows(r: Run, cfg: Config, normal: spec_fn(NormalDraw) -> Time)
    requires
        cfg.valid(),
        normal_ok(normal),
        sized(Sim::blank(cfg, normal)),
        follows(r, cfg, normal),
    ensures
        forall|k: int|
            0 <= k < r.finished().frames.len() ==> #[trigger] r.finished().frames[k]
                == Sim::initial(cfg, normal).advanced(3 * k).taken().picture(3 * k),
    decreases max_of(r.stop.limit() + FRAME_TICKS - r.next_t, 0),
{
    lemma_recorded_follows(r, cfg, normal);
    if r.recorded().phase == RunPhase::Generating {
        lemma_finished_follows(r.recorded(), cfg, normal);
    }
}

/// What is recorded is what the engine shows: frame `k` of a run, whatever was done to it on
/// screen, is the frame at tick `3 k` of the scenario advanced to that tick.
pub proof fn law_frames_are_the_engines(
    before: Run,
    cfg: Config,
    normal: spec_fn(NormalDraw) -> Time,
    stop: StopWhen,
    touches: Seq<Touch>,
    k: int,
)
    requires
        cfg.valid(),
        normal_ok(normal),
        sized(Sim::blank(cfg, normal)),
        0 <= k < before.started(cfg, normal, stop).after(touches).frames.len(),
    ensures
        before.started(cfg, normal, stop).after(touches).frames[k] == Sim::initial(
            cfg,
            normal,
        ).advanced(3 * k).taken().picture(3 * k),
{
    law_touches_change_the_pace_only(before, cfg, normal, stop, touches);
    let live = before.started(cfg, normal, stop).after(touches);
    let idle = Run::idle().started(cfg, normal, stop);
    lemma_finished_follows(idle, cfg, normal);
    assert(live.frames[k] == idle.finished().frames[k]);
}

/// How many events of a kind that counts the run of a scenario has by a time.
pub open spec fn counted(
    cfg: Config,
    normal: spec_fn(NormalDraw) -> Time,
    pred: Milestone,
    t: int,
) -> nat {
    pred.hits(reported(cfg, normal, t))
}

/// Frame `e` is the first by which enough events were counted: `n`, and at least one.
pub open spec fn arms(
    cfg: Config,
    normal: spec_fn(NormalDraw) -> Time,
    n: usize,
    pred: Milestone,
    e: int,
) -> bool {
    &&& e >= 0
    &&& counted(cfg, normal, pred, 3 * e) >= max_of(n as int, 1)
    &&& e > 0 ==> counted(cfg, normal, pred, 3 * (e - 1)) < max_of(n as int, 1)
}

/// The run is over with frame `f`: the next one would be past the cap; or enough events were
/// counted, and the lead-out since, which ends at the cap, has passed.
pub open spec fn ends_with(
    cfg: Config,
    normal: spec_fn(NormalDraw) -> Time,
    stop: StopWhen,
    f: int,
) -> bool {
    match stop {
        StopWhen::AtTick(cap) => 3 * (f + 1) > cap,
        StopWhen::OnNthEvent { n, pred, after, cap } => {
            ||| 3 * (f + 1) > cap
            ||| exists|e: int|
                e <= f && #[trigger] arms(cfg, normal, n, pred, e) && (3 * f >= 3 * e + after || 3 * f
                    >= cap)
        },
    }
}

/// What a stop condition has seen of a run up to the last recorded frame.
spec fn saw(r: Run, cfg: Config, normal: spec_fn(NormalDraw) -> Time) -> bool {
    let last = 3 * (r.frames.len() - 1);
    match r.stop {
        StopWhen::AtTick(_) => r.seen.deadline is None,
        StopWhen::OnNthEvent { n, pred, after, cap } => match r.seen.deadline {
            None => {
                &&& r.frames.len() == 0 ==> r.seen.hits == 0
                &&& r.frames.len() > 0 ==> r.seen.hits == min_of(
                    counted(cfg, normal, pred, last) as int,
                    usize::MAX as int,
                ) && counted(cfg, normal, pred, last) < max_of(n as int, 1)
            },
            Some(d) => exists|e: int|
                e < r.frames.len() && #[trigger] arms(cfg, normal, n, pred, e) && d == min_of(
                    3 * e + after,
                    cap as int,
                ),
        },
    }
}

/// Counting what is reported in two parts.
proof fn lemma_hits_add(pred: Milestone, a: Seq<Event>, b: Seq<Event>)
    ensures
        pred.hits(a + b) == pred.hits(a) + pred.hits(b),
{
    Seq::filter_distributes_over_add(a, b, |ev: Event| pred.met(ev));
}

/// Counts only grow.
proof fn lemma_counted_grows(
    cfg: Config,
    normal: spec_fn(NormalDraw) -> Time,
    pred: Milestone,
    t: int,
    u: int,
)
    requires
        cfg.valid(),
        normal_ok(normal),
        sized(Sim::blank(cfg, normal)),
        t <= u,
    ensures
        counted(cfg, normal, pred, t) <= counted(cfg, normal, pred, u),
{
    let s = Sim::initial(cfg, normal);
    lemma_initial(cfg, normal);
    law_advance_in_parts(s, t, u);
    lemma_hits_add(pred, reported(cfg, normal, t), s.advanced(t).taken().advanced(u).pending);
}

/// Only one frame is the first.
proof fn lemma_arms_once(
    cfg: Config,
    normal: spec_fn(NormalDraw) -> Time,
    n: usize,
    pred: Milestone,
    a: int,
    b: int,
)
    requires
        cfg.valid(),
        normal_ok(normal),
        sized(Sim::blank(cfg, normal)),
        arms(cfg, normal, n, pred, a),
        counted(cfg, normal, pred, 3 * b) >= max_of(n as int, 1),
    ensures
        a <= b || b < 0,
        arms(cfg, normal, n, pred, b) ==> a == b,
{
    if 0 <= b < a {
        lemma_counted_grows(cfg, normal, pred, 3 * b, 3 * (a - 1));
    }
    if arms(cfg, normal, n, pred, b) && a < b {
        lemma_counted_grows(cfg, normal, pred, 3 * a, 3 * (b - 1));
    }
}

/// One more frame ends the run exactly if it should.
proof fn lemma_recorded_ends(r: Run, cfg: Config, normal: spec_fn(NormalDraw) -> Time)
    requires
        cfg.valid(),
        normal_ok(normal),
        sized(Sim::blank(cfg, normal)),
        follows(r, cfg, normal),
        saw(r, cfg, normal),
    ensures
        saw(r.recorded(), cfg, normal),
        r.recorded().phase == RunPhase::Stopped <==> ends_with(
            cfg,
            normal,
            r.stop,
            r.frames.len() as int,
        ),
{
    lemma_recorded_follows(r, cfg, normal);
    let g = r.frames.len() as int;
    let t = r.next_t;
    let q = r.recorded();
    if let StopWhen::OnNthEvent { n, pred, after, cap } = r.stop {
        let events = r.engine->0.advanced(t).pending;
        if g > 0 {
            lemma_hits_add(pred, reported(cfg, normal, t - 3), events);
        }
        let total = counted(cfg, normal, pred, t);
        let need = max_of(n as int, 1);
        if r.seen.deadline is None {
            if pred.hits(events) > 0 && total >= n {
                assert(arms(cfg, normal, n, pred, g));
                if ends_with(cfg, normal, r.stop, g) && !(3 * (g + 1) > cap) {
                    let e = choose|e: int|
                        e <= g && #[trigger] arms(cfg, normal, n, pred, e) && (3 * g >= 3 * e
                            + after || 3 * g >= cap);
                    lemma_arms_once(cfg, normal, n, pred, g, e);
                }
                assert(q.seen.deadline == Some(min_of(3 * g + after, cap as int)));
            } else {
                assert(total < need);
                assert forall|e: int| e <= g implies !#[trigger] arms(
                    cfg,
                    normal,
                    n,
                    pred,
                    e,
                ) by {
                    if e >= 0 {
                        lemma_counted_grows(cfg, normal, pred, 3 * e, t);
                    }
                }
            }
        } else {
            let d = r.seen.deadline->0;
            let e0 = choose|e: int|
                e < r.frames.len() && #[trigger] arms(cfg, normal, n, pred, e) && d == min_of(
                    3 * e + after,
                    cap as int,
                );
            assert(arms(cfg, normal, n, pred, e0));
            if ends_with(cfg, normal, r.stop, g) && !(3 * (g + 1) > cap) {
                let e = choose|e: int|
                    e <= g && #[trigger] arms(cfg, normal, n, pred, e) && (3 * g >= 3 * e + after
                        || 3 * g >= cap);
                lemma_arms_once(cfg, normal, n, pred, e0, e);
            }
        }
    }
}

proof fn lemma_finished_ends(r: Run, cfg: Config, normal: spec_fn(NormalDraw) -> Time)
    requires
        cfg.valid(),
        normal_ok(normal),
        sized(Sim::blank(cfg, normal)),
        follows(r, cfg, normal),
        saw(r, cfg, normal),
        forall|f: int|
            0 <= f < r.frames.len() ==> !#[trigger] ends_with(cfg, normal, r.stop, f),
    ensures
        ({
            let last = r.finished().frames.len() - 1;
            &&& last >= 0
            &&& ends_with(cfg, normal, r.stop, last)
            &&& forall|f: int|
                0 <= f < last ==> !#[trigger] ends_with(cfg, normal, r.stop, f)
        }),
    decreases max_of(r.stop.limit() + FRAME_TICKS - r.next_t, 0),
{
    lemma_recorded_follows(r, cfg, normal);
    lemma_recorded_ends(r, cfg, normal);
    if r.recorded().phase == RunPhase::Generating {
        lemma_finished_ends(r.recorded(), cfg, normal);
    }
}

/// A run is over with the first frame at which it should be: frames are three ticks apart,
/// and none lies past the cap (but the first); and where events are counted, the frame by
/// which the last one that counts has happened starts the lead-out, after which the run
/// ends.
pub proof fn law_run_ends_when_it_should(
    cfg: Config,
    normal: spec_fn(NormalDraw) -> Time,
    stop: StopWhen,
)
    requires
        cfg.valid(),
        normal_ok(normal),
        sized(Sim::blank(cfg, normal)),
    ensures
        ({
            let last = Run::idle().started(cfg, normal, stop).finished().frames.len() - 1;
            &&& last >= 0
            &&& ends_with(cfg, normal, stop, last)
            &&& forall|f: int| 0 <= f < last ==> !#[trigger] ends_with(cfg, normal, stop, f)
        }),
{
    lemma_finished_ends(Run::idle().started(cfg, normal, stop), cfg, normal);
}

// ---- The controls ----------------------------------------------------------

/// A fresh run plays from the start, with nothing recorded; a playing run can be paused, and
/// only a paused one resumed, without touching what is recorded or shown; a run that is
/// thrown away leaves nothing. None of that changes the pace.
pub proof fn law_controls_do_what_they_say(
    r: Run,
    cfg: Config,
    normal: spec_fn(NormalDraw) -> Time,
    stop: StopWhen,
)
    ensures
        ({
            let s = r.started(cfg, normal, stop);
            &&& s.phase == RunPhase::Generating
            &&& s.frames.len() == 0
            &&& s.next_t == 0
            &&& s.cursor == 0
            &&& s.stop == stop
            &&& s.seen.hits == 0
            &&& s.seen.deadline is None
            &&& s.fast_forward == r.fast_forward
        }),
        r.paused() == (Run { phase: r.paused().phase, ..r }),
        r.phase == RunPhase::Generating ==> r.paused().phase == RunPhase::Paused,
        r.phase != RunPhase::Generating ==> r.paused().phase == r.phase,
        r.resumed() == (Run { phase: r.resumed().phase, ..r }),
        r.phase == RunPhase::Paused ==> r.resumed().phase == RunPhase::Generating,
        r.phase != RunPhase::Paused ==> r.resumed().phase == r.phase,
        r.discarded().phase == RunPhase::Idle,
        r.discarded().frames.len() == 0,
        r.discarded().engine is None,
        r.discarded().cursor == 0,
        r.discarded().fast_forward == r.fast_forward,
{
}

/// A repaint of a playing run records one frame, or three with fast-forward on, unless the
/// run stops before, and shows the last one recorded. It leaves a run alone that does not
/// play.
pub proof fn law_repaint_records_and_shows(r: Run)
    ensures
        r.phase != RunPhase::Generating ==> r.repainted() == r,
        r.phase == RunPhase::Generating ==> ({
            let q = r.repainted();
            let more = q.frames.len() - r.frames.len();
            &&& !r.fast_forward ==> more == 1
            &&& r.fast_forward ==> 1 <= more <= 3
            &&& r.fast_forward && q.phase == RunPhase::Generating ==> more == 3
            &&& q.shown() == q.frames.len() - 1
        }),
{
    reveal_with_fuel(Run::batch, 4);
}

/// The slider shows the frame that it points to, and the last one if it points beyond.
pub proof fn law_slider_shows_its_frame(r: Run, k: nat)
    ensures
        k < r.frames.len() ==> (Run { cursor: k, ..r }).shown() == k,
        k >= r.frames.len() && r.frames.len() > 0 ==> (Run { cursor: k, ..r }).shown()
            == r.frames.len() - 1,
        r.frames.len() == 0 ==> r.shown() == 0,
{
}

} // verus!
