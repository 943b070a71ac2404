use lease_sim::clock::{Clock, Drift, Time};
use lease_sim::dist::NormalDraw;
use lease_sim::engine::Engine;
use lease_sim::event::{Command, Event, EventKind, LeaseId, LeaseStatus, MsgKind, NodeId};
use lease_sim::frame::Fraction;
use lease_sim::prob::Prob;
use lease_sim::rounding::UNIT;
use lease_sim::scenario::{LinkConfig, Scenario};

/// A per-step probability.
fn chance(p: f64) -> Prob {
    Prob { num: (p.clamp(0.0, 1.0) * UNIT as f64).ceil() as u64 }
}

/// A probability of loss.
fn loss(p: f64) -> Prob {
    Prob { num: UNIT - ((1.0 - p.clamp(0.0, 1.0)) * UNIT as f64) as u64 }
}

/// The exact fraction that a tick-rate multiplier is.
fn rate(x: f64) -> Drift {
    let mut mantissa = x;
    let mut shift: u32 = 0;
    while mantissa.fract() != 0.0 {
        mantissa *= 2.0;
        shift += 1;
    }
    Drift { mantissa: mantissa as i64, shift }
}

/// Box-Muller: the tick nearest to a Gaussian sample.
fn normal_ticks(d: NormalDraw) -> Time {
    let unit = UNIT as f64;
    let u1 = (d.u1 as f64 / unit).max(f64::MIN_POSITIVE);
    let u2 = d.u2 as f64 / unit;
    let z = (-2.0 * u1.ln()).sqrt() * (core::f64::consts::TAU * u2).cos();
    (f64::from_bits(d.mean) + f64::from_bits(d.std) * z).round() as Time
}

fn value(f: Fraction) -> f64 {
    f.num as f64 / f.den as f64
}

type Sampler = fn(NormalDraw) -> Time;

fn engine(scenario: Scenario) -> Engine<Sampler> {
    assert!(scenario.is_valid());
    Engine::new(scenario, normal_ticks as Sampler)
}

/// A two-node scenario where node 0 always initiates and grants to node 1,
/// reliable links, perfect clocks.
fn basic() -> Scenario {
    Scenario::new(2)
        .seed(1)
        .duration(10_000)
        .node(0, |n| n.initiate_chance = chance(1.0))
        .link(LinkConfig::new(0, 1))
        .link(LinkConfig::new(1, 0))
        .lease(0, 1)
}

/// Same two nodes, but driven only by explicit commands (no stochastics).
fn scripted() -> Scenario {
    Scenario::new(2)
        .seed(1)
        .duration(10_000)
        .link(LinkConfig::new(0, 1))
        .link(LinkConfig::new(1, 0))
        .lease(0, 1)
}

fn grantee_ever_active(events: &[Event]) -> bool {
    events.iter().any(|ev| {
        matches!(
            ev.kind,
            EventKind::GranteeLease {
                status: LeaseStatus::Active,
                ..
            }
        )
    })
}

#[test]
fn lease_becomes_active_on_both_sides() {
    let mut e = engine(basic());
    let events = e.advance_to(10_000);
    let grantor_active = events.iter().any(|ev| {
        matches!(
            ev.kind,
            EventKind::GrantorLease {
                status: LeaseStatus::Active,
                ..
            }
        )
    });
    assert!(grantor_active, "grantor should activate the lease");
    assert!(
        grantee_ever_active(&events),
        "grantee should hold the lease"
    );
}

#[test]
fn guard_and_renew_messages_flow() {
    let mut e = engine(basic());
    let events = e.advance_to(10_000);
    let kinds: Vec<MsgKind> = events
        .iter()
        .filter_map(|ev| match ev.kind {
            EventKind::MessageSent { kind, .. } => Some(kind),
            _ => None,
        })
        .collect();
    assert!(kinds.contains(&MsgKind::Guard));
    assert!(kinds.contains(&MsgKind::GuardReply));
    assert!(kinds.contains(&MsgKind::Renew));
    assert!(kinds.contains(&MsgKind::RenewReply));
}

#[test]
fn events_are_time_ordered() {
    let mut e = engine(basic());
    let events = e.advance_to(10_000);
    assert!(
        events.windows(2).all(|w| w[0].at <= w[1].at),
        "event stream must be sorted by time"
    );
}

#[test]
fn safety_invariant_grantor_outlasts_grantee() {
    // With perfect clocks and reliable links, at every moment the grantor's
    // expiry must be >= the grantee's expiry once both are active.
    let mut e = engine(basic());
    e.advance_to(10_000);
    for l in e.leases() {
        if l.grantor.status == LeaseStatus::Active && l.grantee.status == LeaseStatus::Active {
            assert!(
                l.grantor.grant_expiry >= l.grantee.hold_expiry,
                "invariant violated: D'={} < C'={}",
                l.grantor.grant_expiry,
                l.grantee.hold_expiry
            );
        }
    }
}

#[test]
fn partition_prevents_activation() {
    let s = Scenario::new(2)
        .seed(1)
        .duration(10_000)
        .node(0, |n| n.initiate_chance = chance(1.0))
        .link(LinkConfig {
            partitioned: true,
            ..LinkConfig::new(0, 1)
        })
        .lease(0, 1);
    let mut e = engine(s);
    let events = e.advance_to(10_000);
    assert!(
        !grantee_ever_active(&events),
        "partitioned grantee must never activate"
    );
}

#[test]
fn dropping_all_guards_prevents_activation() {
    // A 100% Guard drop means the guard phase never completes, so the
    // grantee never activates — regardless of link reliability.
    let s = basic().kind_drop(MsgKind::Guard, loss(1.0));
    let mut e = engine(s);
    let events = e.advance_to(10_000);
    assert!(
        !grantee_ever_active(&events),
        "with every Guard dropped the lease can never come up"
    );
}

#[test]
fn dropping_all_renews_prevents_activation() {
    // Guards get through, but every Renew is lost, so the grantee (which
    // only goes Active on a Renew) never holds the lease.
    let s = basic().kind_drop(MsgKind::Renew, loss(1.0));
    let mut e = engine(s);
    let events = e.advance_to(10_000);
    assert!(
        !grantee_ever_active(&events),
        "with every Renew dropped the grantee never activates"
    );
}

fn renew_sends(events: &[Event]) -> usize {
    events
        .iter()
        .filter(|ev| {
            matches!(
                ev.kind,
                EventKind::MessageSent {
                    kind: MsgKind::Renew,
                    ..
                }
            )
        })
        .count()
}

#[test]
fn stuck_renews_time_out_and_reguard() {
    // Guards get through (grantor goes Active) but every Renew is dropped, so
    // no RenewReply ever confirms the grantee. The grantor must NOT renew into
    // the void forever: after RENEW_REPLY_TIMEOUT it stops renewing, lets `D'`
    // lapse, falls idle, and re-guards — so over a 10k run we see many Guard
    // attempts, not the single guard a no-timeout grantor would send before
    // renewing endlessly. The grantee never activates (all Renews lost).
    let s = basic().kind_drop(MsgKind::Renew, loss(1.0));
    let mut e = engine(s);
    let events = e.advance_to(10_000);
    assert!(
        !grantee_ever_active(&events),
        "every Renew dropped: grantee never activates"
    );
    assert!(
        guard_sends(&events) > 1,
        "grantor should re-guard after stale renews, not renew forever (guards {})",
        guard_sends(&events)
    );
    // Renews are sent, but boundedly: a handful per active window, not one
    // every renew_interval for the whole run (that would be ~16+ with no
    // timeout). The cap is generous; the point is it is finite per cycle.
    assert!(
        renew_sends(&events) < guard_sends(&events) * 6,
        "renews should be bounded per active window, sent {}",
        renew_sends(&events)
    );
}

#[test]
fn healthy_lease_never_times_out_renews() {
    // With reliable links the RenewReply liveness clock is refreshed every
    // round, so a healthy lease is never abandoned: exactly one guard brings
    // it up and it stays Active the whole run (no re-guarding).
    let mut e = engine(basic());
    let events = e.advance_to(10_000);
    assert!(grantee_ever_active(&events), "healthy lease comes up");
    assert_eq!(
        guard_sends(&events),
        1,
        "a healthy lease guards once and never re-guards (guards {})",
        guard_sends(&events)
    );
}

#[test]
fn grantee_guard_expires_when_first_renew_never_arrives() {
    // The Guard lands (grantee -> Guarding) but every Renew is dropped, so
    // the activating first Renew never arrives. The grantee must not hang in
    // Guarding forever: once its guard window `A'` lapses it expires.
    let s = basic().kind_drop(MsgKind::Renew, loss(1.0));
    let mut e = engine(s);
    e.advance_to(10_000);
    for l in e.leases() {
        assert_ne!(
            l.grantee.status,
            LeaseStatus::Guarding,
            "grantee must not stay stuck in the guard phase"
        );
    }
    // And the transition was actually emitted as an expiry.
    let mut e2 = engine(basic().kind_drop(MsgKind::Renew, loss(1.0)));
    let events = e2.advance_to(10_000);
    assert!(
        events.iter().any(|ev| matches!(
            ev.kind,
            EventKind::GranteeLease {
                status: LeaseStatus::Expired,
                ..
            }
        )),
        "a lapsed guard window should emit a grantee expiry"
    );
}

fn guard_sends(events: &[Event]) -> usize {
    events
        .iter()
        .filter(|ev| {
            matches!(
                ev.kind,
                EventKind::MessageSent {
                    kind: MsgKind::Guard,
                    ..
                }
            )
        })
        .count()
}

#[test]
fn stuck_guard_times_out_and_retries() {
    // With every Guard dropped the lease can never come up — but the grantor
    // must not hang in `Guarding` forever: each attempt times out after a full
    // guard window (`t_guard - t_delta`) and, once idle, a fresh Guard is
    // (re-)initiated. Over a 10k run that means several attempts, not the
    // single Guard a no-retry grantor would send and then stall on.
    let s = basic().kind_drop(MsgKind::Guard, loss(1.0));
    let mut e = engine(s);
    let events = e.advance_to(10_000);
    assert!(
        !grantee_ever_active(&events),
        "every Guard dropped: lease still can't come up"
    );
    assert!(
        guard_sends(&events) > 3,
        "grantor should retry the guard many times, not send just once (sent {})",
        guard_sends(&events)
    );
}

#[test]
fn lossy_guard_lease_still_establishes_via_retry() {
    // A high but < 100% Guard drop: the first attempts likely fail, but the
    // retry path keeps re-guarding until one round gets through, so the lease
    // still establishes. Before the retry timeout existed, a single early
    // drop would strand the grantor in `Guarding` forever.
    let s = basic().kind_drop(MsgKind::Guard, loss(0.7));
    let mut e = engine(s);
    let events = e.advance_to(40_000);
    assert!(
        grantee_ever_active(&events),
        "with retries a lossy-guard lease should eventually come up"
    );
    assert!(
        guard_sends(&events) > 1,
        "establishing under guard loss should take more than one attempt"
    );
}

#[test]
fn advance_is_monotonic_and_bounded() {
    let mut e = engine(basic());
    e.advance_to(5_000);
    assert_eq!(e.now(), 5_000);
    e.advance_to(50_000);
    assert_eq!(e.now(), 10_000, "must clamp to duration");
}

#[test]
fn frame_geometry_is_well_formed() {
    let mut e = engine(basic());
    e.advance_to(3_000);
    let f = e.frame_at(3_000);
    assert_eq!(f.nodes.len(), 2);
    // Lease bars present for each declared lease; fills in [0, 1].
    assert_eq!(f.leases.len(), 1);
    for bar in &f.leases {
        assert!((0.0..=1.0).contains(&value(bar.grantor_fill)));
        assert!((0.0..=1.0).contains(&value(bar.grantee_fill)));
    }
    // In-flight messages, if any, sit strictly between their endpoints.
    for m in &f.messages {
        assert!((0.0..=1.0).contains(&value(m.progress)));
    }
}

#[test]
fn guarding_bar_has_a_draining_fill() {
    // A grantor that opens a guard whose Guard message is always dropped stays
    // in `Guarding` until its retry window lapses. While guarding, the bar must
    // show a *draining* countdown (fill in (0, 1]), not a flat 0 — the guard
    // timer the frontend colors blue. It should also shrink as time passes.
    let s = scripted().kind_drop(MsgKind::Guard, loss(1.0));
    let mut e = engine(s);
    e.command(Command::Initiate(LeaseId {
        grantor: 0,
        grantee: 1,
    }));
    // Sample soon after guarding opens, then a little later (both well within
    // the guard window `t_guard - t_delta`, so the guard is still outstanding).
    e.advance_to(100);
    let f0 = e.frame_at(100);
    assert_eq!(f0.leases[0].grantor_status, LeaseStatus::Guarding);
    let early = value(f0.leases[0].grantor_fill);
    assert!(early > 0.0 && early <= 1.0, "guarding fill was {early}");

    e.advance_to(400);
    let f1 = e.frame_at(400);
    assert_eq!(f1.leases[0].grantor_status, LeaseStatus::Guarding);
    let late = value(f1.leases[0].grantor_fill);
    assert!(
        late < early,
        "guarding fill should drain: {late} !< {early}"
    );
}

#[test]
fn drifting_clock_still_safe() {
    let s = Scenario::new(2)
        .seed(3)
        .duration(10_000)
        .node(0, |n| {
            n.initiate_chance = chance(1.0);
            n.clock = Clock::new(0, rate(1.0));
        })
        // Grantee clock runs fast and is skewed.
        .node(1, |n| n.clock = Clock::new(500, rate(1.05)))
        .link(LinkConfig::new(0, 1))
        .link(LinkConfig::new(1, 0))
        .lease(0, 1);
    let mut e = engine(s);
    e.advance_to(10_000);
    // Compare both expiries in global time to check real-time safety.
    for l in e.leases() {
        if l.grantor.status == LeaseStatus::Active && l.grantee.status == LeaseStatus::Active {
            let grantor_global = e.scenario().nodes[l.id.grantor]
                .clock
                .global_for_local(l.grantor.grant_expiry);
            let grantee_global = e.scenario().nodes[l.id.grantee]
                .clock
                .global_for_local(l.grantee.hold_expiry);
            assert!(
                grantor_global >= grantee_global,
                "real-time invariant violated: grantor {grantor_global} < grantee {grantee_global}"
            );
        }
    }
}

#[test]
fn command_initiate_starts_a_lease() {
    let mut e = engine(scripted());
    // Nothing initiates on its own before the command.
    assert!(!grantee_ever_active(&e.advance_to(1_000)));
    e.command(Command::Initiate(LeaseId {
        grantor: 0,
        grantee: 1,
    }));
    assert!(
        grantee_ever_active(&e.advance_to(10_000)),
        "explicit Initiate should bring the lease up"
    );
}

#[test]
fn command_revoke_drops_the_grantee() {
    let id = LeaseId {
        grantor: 0,
        grantee: 1,
    };
    let mut e = engine(scripted());
    e.command(Command::Initiate(id));
    e.advance_to(4_000);
    e.command(Command::Revoke(id));
    let events = e.advance_to(6_000);
    let grantee_expired = events.iter().any(|ev| {
        matches!(
            ev.kind,
            EventKind::GranteeLease {
                lease,
                status: LeaseStatus::Expired,
            } if lease == id
        )
    });
    assert!(grantee_expired, "Revoke should expire the grantee's hold");
}

#[test]
fn scripted_command_is_reproducible() {
    let id = LeaseId {
        grantor: 0,
        grantee: 1,
    };
    let run = || {
        let s = scripted().command(500, Command::Initiate(id));
        engine(s).advance_to(10_000)
    };
    assert_eq!(run(), run(), "same script + seed must replay identically");
}

#[test]
fn failed_grantor_lease_lapses() {
    let id = LeaseId {
        grantor: 0,
        grantee: 1,
    };
    let mut e = engine(scripted());
    e.command(Command::Initiate(id));
    e.advance_to(3_000);
    e.command(Command::FailNode(0));
    let events = e.advance_to(10_000);
    assert!(
        events
            .iter()
            .any(|ev| matches!(ev.kind, EventKind::NodeFailed { node: 0 })),
        "node 0 should be reported failed"
    );
    // With the grantor down and not renewing, the grantee's hold expires.
    assert!(
        e.leases()[0].grantee.status == LeaseStatus::Expired,
        "grantee hold must lapse after grantor failure"
    );
}

#[test]
fn all_to_all_leases_are_countable() {
    // Three nodes, all-to-all, all initiating: each node should end up
    // holding a majority (>= 2 of 3, counting itself) of grants.
    let s = Scenario::new(3)
        .seed(5)
        .duration(20_000)
        .all_to_all()
        .all_nodes(|n| n.initiate_chance = chance(1.0));
    let mut e = engine(s);
    e.advance_to(20_000);
    let f = e.frame_at(e.now());
    for node in 0..3 {
        // Held grants toward `node`, plus 1 for the implicit self-grant.
        let held = f
            .leases
            .iter()
            .filter(|b| b.grantee == node && b.grantee_status == LeaseStatus::Active)
            .count()
            + 1;
        assert!(held >= 2, "node {node} should hold a majority, held {held}");
    }
}

// ---- Disruptive write path -------------------------------------------

/// A 5-node all-to-one leader-lease scenario (everyone grants to node 0),
/// reliable links, with disruptive writes on a given cadence.
fn leader_writes(interval: Time) -> Scenario {
    Scenario::new(5)
        .seed(9)
        .duration(30_000)
        .all_to_one(0)
        .all_nodes(|n| n.initiate_chance = chance(1.0))
        .writes(Some(interval), true)
}

fn count_kind(events: &[Event], want: MsgKind) -> usize {
    events
        .iter()
        .filter(|ev| matches!(ev.kind, EventKind::MessageSent { kind, .. } if kind == want))
        .count()
}

/// Sample a grantee's held-grant count (active holds toward `node`, plus its
/// implicit self-grant) at every `step` ticks across a fresh run, returning
/// the per-sample series. Lets a test see the disrupt→recover swings a
/// disruptive write drives, rather than snapshotting one fragile final tick.
fn held_series(mut e: Engine<Sampler>, node: NodeId, step: Time) -> Vec<usize> {
    let mut series = Vec::new();
    let mut t = 0;
    while t <= e.duration() {
        e.advance_to(t);
        let f = e.frame_at(t);
        let held = f
            .leases
            .iter()
            .filter(|b| b.grantee == node && b.grantee_status == LeaseStatus::Active)
            .count()
            + 1;
        series.push(held);
        t += step;
    }
    series
}

#[test]
fn disruptive_write_commits_and_broadcasts() {
    let mut e = engine(leader_writes(2000));
    let events = e.advance_to(30_000);
    // Writes went out, replies came back, and at least one committed.
    assert!(
        count_kind(&events, MsgKind::Write) > 0,
        "leader should write"
    );
    assert!(
        count_kind(&events, MsgKind::WriteReply) > 0,
        "peers should reply to writes"
    );
    assert!(
        events
            .iter()
            .any(|ev| matches!(ev.kind, EventKind::WriteCommitted { leader: 0 })),
        "at least one write should commit at the leader"
    );
    // A commit broadcast followed.
    assert!(
        count_kind(&events, MsgKind::Commit) > 0,
        "a committed write should broadcast Commit"
    );
}

#[test]
fn write_disrupts_then_leases_recover() {
    // A disruptive write tears down the leader's held read leases, then they
    // recover between writes: once the commit unfreezes the cluster the
    // grantors re-guard and re-establish the leader's holds. Sampling across
    // the run we should see both a low point (a write in progress, the leader's
    // reads suspended) and a majority high point (re-established) — rather than
    // snapshotting one fragile final tick.
    let series = held_series(engine(leader_writes(1200)), 0, 25);
    let lo = series.iter().copied().min().unwrap();
    let hi = series.iter().copied().max().unwrap();
    assert!(
        lo <= 1,
        "a disruptive write should suspend the leader's reads (min held {lo})"
    );
    // 5 nodes → majority 3. The leader re-accumulates a majority between
    // writes, proving the commit path lets suspended reads recover.
    assert!(
        hi >= 3,
        "leader should recover a majority between writes (max held {hi})"
    );
}

#[test]
fn no_writes_when_disabled() {
    let s = Scenario::new(5)
        .seed(9)
        .duration(20_000)
        .all_to_one(0)
        .all_nodes(|n| n.initiate_chance = chance(1.0)); // writes default off
    let mut e = engine(s);
    let events = e.advance_to(20_000);
    assert_eq!(
        count_kind(&events, MsgKind::Write),
        0,
        "no writes configured"
    );
}

#[test]
fn stuck_write_round_aborts_and_recovers() {
    // Drop every WriteReply so the round can never reach its commit
    // condition. The leader must abort the stale round and its suspended read
    // leases must recover rather than hanging frozen forever.
    let s = leader_writes(2000).kind_drop(MsgKind::WriteReply, loss(1.0));
    let events = engine(s.clone()).advance_to(30_000);
    assert!(
        count_kind(&events, MsgKind::Write) > 0,
        "writes still issued"
    );
    // No commit can happen (all replies lost)...
    assert!(
        !events
            .iter()
            .any(|ev| matches!(ev.kind, EventKind::WriteCommitted { .. })),
        "no write can commit with every reply dropped"
    );
    // ...yet the leader recovers a majority between aborts: each stuck round
    // thaws the cluster after the timeout, and the grantors re-guard to
    // re-establish its holds until the next write tears them down again.
    let hi = held_series(engine(s), 0, 25)
        .into_iter()
        .max()
        .unwrap();
    assert!(
        hi >= 3,
        "reads must recover a majority after aborted write rounds (max held {hi})"
    );
}

// ---- Non-disruptive write path ---------------------------------------

/// Like `leader_writes` but non-disruptive.
fn leader_writes_nondisruptive(interval: Time) -> Scenario {
    Scenario::new(5)
        .seed(9)
        .duration(30_000)
        .all_to_one(0)
        .all_nodes(|n| n.initiate_chance = chance(1.0))
        .writes(Some(interval), false)
}

#[test]
fn nondisruptive_write_never_revokes_leases() {
    // Under non-disruptive writes the write path must not tear down leases:
    // no Revoke messages should ever be sent (leases only ever come down via
    // expiry here, and with reliable links + always-renew they don't).
    let mut e = engine(leader_writes_nondisruptive(800));
    let events = e.advance_to(30_000);
    assert!(count_kind(&events, MsgKind::Write) > 0, "writes issued");
    assert!(
        events
            .iter()
            .any(|ev| matches!(ev.kind, EventKind::WriteCommitted { .. })),
        "non-disruptive writes still commit"
    );
    assert_eq!(
        count_kind(&events, MsgKind::Revoke),
        0,
        "non-disruptive writes must never revoke/tear down leases"
    );
    // Leases stay healthy throughout: the leader holds a full majority.
    let f = e.frame_at(e.now());
    let held = f
        .leases
        .iter()
        .filter(|b| b.grantee == 0 && b.grantee_status == LeaseStatus::Active)
        .count()
        + 1;
    assert!(
        held >= 3,
        "leader keeps its grants under writes, held {held}"
    );
}

#[test]
fn nondisruptive_write_never_expires_a_held_lease() {
    // Non-disruptive writes must leave leases entirely untouched. With
    // reliable links and always-renew, the only thing that could expire a
    // held grantee lease is the write path — so once a grantee first goes
    // Active, it must never emit an Expired transition for the rest of the
    // run, even as writes flow and commit around it.
    let mut e = engine(leader_writes_nondisruptive(600));
    let events = e.advance_to(30_000);
    assert!(count_kind(&events, MsgKind::Write) > 0, "writes issued");
    assert!(
        events
            .iter()
            .any(|ev| matches!(ev.kind, EventKind::WriteCommitted { .. })),
        "non-disruptive writes still commit"
    );
    // Track each grantee's activation, then assert no expiry follows it.
    let mut active: Vec<LeaseId> = Vec::new();
    for ev in &events {
        if let EventKind::GranteeLease { lease, status } = ev.kind {
            match status {
                LeaseStatus::Active => {
                    if !active.contains(&lease) {
                        active.push(lease);
                    }
                }
                LeaseStatus::Expired => {
                    assert!(
                        !active.contains(&lease),
                        "a held lease {lease:?} expired under non-disruptive writes"
                    );
                }
                _ => {}
            }
        }
    }
    assert!(!active.is_empty(), "some lease should have gone active");
}
