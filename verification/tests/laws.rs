//! The library's laws and formulas on concrete values.

use lease_sim::clock::{Clock, Drift, Time};
use lease_sim::demos::{leader_leases, quorum_leases_write_disruption, roster_leases, Demo};
use lease_sim::dist::{Dist, NormalDraw};
use lease_sim::engine::Engine;
use lease_sim::event::{Command, Event, EventKind, LeaseId, LeaseStatus, MsgFate, MsgKind};
use lease_sim::frame::{share_of, Fraction};
use lease_sim::prob::Prob;
use lease_sim::rng::Rng;
use lease_sim::rounding::{double_of, nearest_int, HALF_UNIT, UNIT};
use lease_sim::scenario::{LeaseParams, LinkConfig, Scenario, LIMIT};
use lease_sim::timeline::{schedule_entry, Scheduled, Timed};

type Sampler = fn(NormalDraw) -> Time;

fn flat(_: NormalDraw) -> Time {
    7
}

fn engine(scenario: Scenario) -> Engine<Sampler> {
    assert!(scenario.is_valid());
    Engine::new(scenario, flat as Sampler)
}

/// A roster of five with losses, writes and crashes.
fn busy(seed: u64) -> Scenario {
    Scenario::new(5)
        .seed(seed)
        .duration(30_000)
        .all_nodes(|n| {
            n.initiate_chance = Prob { num: HALF_UNIT };
            n.fail_chance = Prob { num: UNIT / 500 };
            n.recover_chance = Prob { num: UNIT / 20 };
        })
        .kind_drop(MsgKind::Renew, Prob { num: UNIT / 10 })
        .kind_drop(MsgKind::GuardReply, Prob { num: UNIT / 10 })
        .writes(Some(2_000), true)
        .all_to_all()
}

const DEMOS: [Demo; 9] = [
    Demo::OneToOneSuccess,
    Demo::OneToOneGuardReplyLost,
    Demo::OneToOneRevoked,
    Demo::OneToOneRenewRepliesLost,
    Demo::LeaseManagerHandover,
    Demo::LeaderLeases,
    Demo::QuorumLeases,
    Demo::QuorumLeasesWriteDisruption,
    Demo::RosterLeases,
];

#[test]
fn doubles_are_exact_up_to_their_precision_and_even_beyond() {
    let unit = UNIT as u128;
    assert_eq!(double_of(0), 0);
    assert_eq!(double_of(unit - 1), unit - 1);
    assert_eq!(double_of(unit), unit);
    assert_eq!(double_of(unit + 1), unit);
    assert_eq!(double_of(unit + 2), unit + 2);
    assert_eq!(double_of(unit + 3), unit + 4);
    assert_eq!(double_of(4 * unit + 4), 4 * unit);
    assert_eq!(double_of(4 * unit + 5), 4 * unit + 8);
    for n in [1u64, 3, 999, u64::MAX, UNIT + 5, 3 * UNIT + 7] {
        assert_eq!(double_of(n as u128), n as f64 as u128);
    }
}

#[test]
fn nearest_integers_round_halves_away_from_zero() {
    assert_eq!(nearest_int(0, 7), 0);
    assert_eq!(nearest_int(3, 7), 0);
    assert_eq!(nearest_int(4, 7), 1);
    assert_eq!(nearest_int(5, 2), 3);
    assert_eq!(nearest_int(7, 2), 4);
    assert_eq!(nearest_int(1, 2), 1);
    assert_eq!(nearest_int(1100, 1), 1100);
}

#[test]
fn independent_losses_combine() {
    let half = Prob { num: HALF_UNIT };
    assert_eq!(half.either(half), Prob { num: 3 * (UNIT / 4) });
    assert_eq!(half.either(Prob::never()), half);
    assert_eq!(Prob::never().either(Prob::never()), Prob::never());
    assert_eq!(Prob::always().either(half), Prob::always());
    assert_eq!(half.either(Prob::always()), Prob::always());
    let a = 0.01f64;
    let b = 0.3f64;
    let want = ((1.0 - (1.0 - a) * (1.0 - b)) * UNIT as f64) as u64;
    let loss = |p: f64| Prob { num: UNIT - ((1.0 - p) * UNIT as f64) as u64 };
    assert_eq!(loss(a).either(loss(b)), Prob { num: want });
    assert_eq!(Prob { num: u64::MAX }.clamp(), Prob::always());
    assert_eq!(half.clamp(), half);
}

#[test]
fn certain_and_impossible_events() {
    let mut rng = Rng::new(42);
    for _ in 0..200 {
        assert!(rng.chance(Prob::always()));
        assert!(!rng.chance(Prob::never()));
        assert!(rng.next_f64() < UNIT);
        let x = rng.next_range(-3, 9);
        assert!((-3..=9).contains(&x));
    }
    assert_eq!(rng.next_range(5, 5), 5);
    assert_eq!(rng.next_range(5, 1), 5);
}

#[test]
fn samples_are_never_negative() {
    let mut rng = Rng::new(1);
    let below = |_: NormalDraw| -9;
    let dist = Dist::Normal { mean: 0, std: 0 };
    assert_eq!(dist.sample(&mut rng, &below), 0);
    assert_eq!(Dist::Fixed(-4).sample(&mut rng, &below), 0);
    assert_eq!(Dist::Fixed(4).sample(&mut rng, &below), 4);
    for _ in 0..50 {
        let x = Dist::Uniform { lo: -20, hi: 3 }.sample(&mut rng, &below);
        assert!((0..=3).contains(&x));
    }
}

#[test]
fn a_normal_sample_uses_two_draws() {
    let mut rng = Rng::new(3);
    let mut twin = Rng::new(3);
    let seen = |d: NormalDraw| (d.u1 % 1000) as Time;
    let x = Dist::Normal { mean: 1, std: 2 }.sample(&mut rng, &seen);
    let u1 = twin.next_f64();
    twin.next_f64();
    assert_eq!(x, (u1 % 1000) as Time);
    assert_eq!(rng.next_u64(), twin.next_u64());
}

#[test]
fn clocks_are_monotone_and_skew_cancels() {
    let slow = Clock::new(-300, Drift { mantissa: 7, shift: 3 });
    let fast = Clock::new(40, Drift { mantissa: 9, shift: 3 });
    let mut last = (slow.local(0), fast.local(0));
    for g in (7..5_000).step_by(7) {
        let now = (slow.local(g), fast.local(g));
        assert!(last.0 <= now.0 && last.1 <= now.1);
        last = now;
    }
    // Two clocks of one rate measure the same spans, whatever their offsets.
    let twin = Clock::new(9_999, Drift { mantissa: 9, shift: 3 });
    for g in [0, 1, 17, 4_000] {
        assert_eq!(fast.local(g) - fast.local(0), twin.local(g) - twin.local(0));
    }
    for g in [0, 5, 1_234, 99_999] {
        assert!((slow.global_for_local(slow.local(g)) - g).abs() <= 1);
    }
}

#[test]
fn fractions_are_cut_to_the_unit_interval() {
    assert_eq!(share_of(3, 4), Fraction { num: 3, den: 4 });
    assert_eq!(share_of(9, 4), Fraction { num: 4, den: 4 });
    assert_eq!(share_of(-1, 4), Fraction { num: 0, den: 4 });
    assert_eq!(share_of(3, 0), Fraction { num: 0, den: 1 });
    assert_eq!(share_of(3, -2), Fraction { num: 0, den: 1 });
}

#[test]
fn lease_spans_follow_the_parameters() {
    let p = LeaseParams::default();
    assert_eq!(p.guard_window(), 1_400);
    assert_eq!(p.grant_span(), p.t_guard + p.t_lease + 2 * p.t_delta);
}

#[test]
fn entries_of_the_same_time_keep_their_order() {
    let poll = |at: Time, node: usize| Timed { at, item: Scheduled::Poll { node } };
    let mut queue: Vec<Timed> = vec![];
    for (at, node) in [(5, 0), (3, 1), (5, 2), (3, 3), (9, 4), (3, 5)] {
        schedule_entry(&mut queue, poll(at, node));
    }
    let want = vec![poll(3, 1), poll(3, 3), poll(3, 5), poll(5, 0), poll(5, 2), poll(9, 4)];
    assert_eq!(queue, want);
}

#[test]
fn kinds_have_different_indices() {
    let kinds = [
        MsgKind::Guard,
        MsgKind::GuardReply,
        MsgKind::Renew,
        MsgKind::RenewReply,
        MsgKind::Revoke,
        MsgKind::RevokeReply,
        MsgKind::Write,
        MsgKind::WriteReply,
        MsgKind::Commit,
    ];
    let mut seen = [false; 9];
    for k in kinds {
        assert!(!seen[k.index()]);
        seen[k.index()] = true;
    }
}

#[test]
fn a_link_override_is_found_and_changes_no_other() {
    let mut link = LinkConfig::new(0, 1);
    link.partitioned = true;
    let s = Scenario::new(3).link(link);
    assert!(s.link_config(0, 1).partitioned);
    assert!(!s.link_config(1, 0).partitioned);
    assert_eq!(s.link_config(1, 2), LinkConfig::new(1, 2));
    // A second override replaces the first.
    let s = s.link(LinkConfig::new(0, 1));
    assert!(!s.link_config(0, 1).partitioned);
    assert_eq!(s.links.len(), 1);
}

#[test]
fn patterns_declare_their_leases() {
    let s = Scenario::new(4).all_to_one(2);
    let from: Vec<usize> = s.leases.iter().map(|l| l.grantor).collect();
    assert_eq!(from, vec![0, 1, 3]);
    assert!(s.leases.iter().all(|l| l.grantee == 2));
    let s = Scenario::new(4).all_to_all();
    assert_eq!(s.leases.len(), 12);
    for g in 0..4 {
        for h in 0..4 {
            let l = LeaseId { grantor: g, grantee: h };
            assert_eq!(s.leases.iter().filter(|x| **x == l).count(), usize::from(g != h));
        }
    }
}

#[test]
fn invalid_scenarios_are_told() {
    assert!(Scenario::new(2).lease(0, 1).is_valid());
    assert!(!Scenario::new(2).lease(0, 2).is_valid());
    assert!(!Scenario::new(2).lease(5, 1).is_valid());
    assert!(!Scenario::new(2).duration(-1).is_valid());
    assert!(!Scenario::new(2).duration(LIMIT + 1).is_valid());
    assert!(!Scenario::new(2).command(5, Command::FailNode(2)).is_valid());
    assert!(!Scenario::new(2).node(0, |n| n.response_delay = Dist::Fixed(LIMIT + 1)).is_valid());
    // A command on a lease that is not declared does nothing.
    let odd = Scenario::new(2).command(5, Command::Revoke(LeaseId { grantor: 7, grantee: 8 }));
    assert!(odd.is_valid());
    assert!(engine(odd).advance_to(100).is_empty());
}

#[test]
fn events_come_in_time_order() {
    let mut e = engine(busy(5));
    let events = e.advance_to(30_000);
    assert!(events.len() > 100);
    for pair in events.windows(2) {
        assert!(pair[0].at <= pair[1].at);
    }
}

#[test]
fn advancing_again_does_nothing() {
    let mut e = engine(busy(6));
    e.advance_to(4_000);
    let leases = e.leases().to_vec();
    assert!(e.advance_to(4_000).is_empty());
    assert!(e.advance_to(1_000).is_empty());
    assert!(e.advance_to(-50).is_empty());
    assert_eq!(e.now(), 4_000);
    assert_eq!(e.leases(), leases.as_slice());
}

#[test]
fn time_does_not_pass_the_duration() {
    let mut e = engine(Scenario::new(2).duration(500));
    e.advance_to(10_000);
    assert_eq!(e.now(), 500);
    assert_eq!(e.duration(), 500);
}

#[test]
fn advancing_in_parts_is_advancing_at_once() {
    let mut whole = engine(busy(7));
    let all = whole.advance_to(12_345);
    let mut parts = engine(busy(7));
    let mut events: Vec<Event> = vec![];
    for t in [1, 50, 51, 2_000, 2_000, 9_999, 12_345] {
        events.extend(parts.advance_to(t));
    }
    assert_eq!(events, all);
    assert_eq!(whole.leases(), parts.leases());
    assert_eq!(format!("{:?}", whole.frame_at(12_345)), format!("{:?}", parts.frame_at(12_345)));
}

#[test]
fn commands_are_not_lost_and_not_in_the_past() {
    let mut e = engine(Scenario::new(2).duration(5_000).lease(0, 1));
    e.advance_to(1_000);
    e.schedule_command(10, Command::FailNode(1));
    e.command(Command::FailNode(0));
    let events = e.advance_to(1_100);
    assert_eq!(
        events,
        vec![
            Event { at: 1_000, kind: EventKind::NodeFailed { node: 1 } },
            Event { at: 1_000, kind: EventKind::NodeFailed { node: 0 } },
        ]
    );
}

/// With perfect clocks, the grantor's promise lasts at least as long as the grantee
/// holds the lease. (A disruptive write withdraws promises before it reaches the
/// holders; their time is kept all the same.)
#[test]
fn a_promise_covers_the_hold() {
    for demo in DEMOS {
        let mut e = engine(demo.scenario());
        for t in (0..12_000).step_by(10) {
            e.advance_to(t);
            for l in e.leases() {
                if l.grantee.status == LeaseStatus::Active && l.grantee.hold_expiry > t {
                    if demo != Demo::QuorumLeasesWriteDisruption {
                        assert_eq!(l.grantor.status, LeaseStatus::Active, "{demo:?} at {t}");
                    }
                    assert!(l.grantee.hold_expiry <= l.grantor.grant_expiry, "{demo:?} at {t}");
                }
            }
        }
    }
}

#[test]
fn frames_show_fractions_of_one() {
    let mut e = engine(busy(8));
    for t in (0..9_000).step_by(37) {
        e.advance_to(t);
        let f = e.frame_at(t);
        assert_eq!(f.at, t);
        assert_eq!(f.nodes.len(), 5);
        assert_eq!(f.leases.len(), 20);
        let fills = f.leases.iter().flat_map(|b| [b.grantor_fill, b.grantee_fill]);
        for x in fills.chain(f.messages.iter().map(|m| m.progress)) {
            assert!(0 <= x.num && x.num <= x.den && 1 <= x.den);
        }
    }
}

#[test]
fn a_bar_drains_and_is_empty_at_expiry() {
    let mut e = engine(Demo::OneToOneRenewRepliesLost.scenario());
    let mut last: Option<Fraction> = None;
    for t in 2_500..6_000 {
        e.advance_to(t);
        let l = e.leases()[0];
        let b = e.frame_at(t).leases[0];
        if l.grantor.status == LeaseStatus::Active {
            if let Some(f) = last {
                assert!(b.grantor_fill.num * f.den <= f.num * b.grantor_fill.den);
            }
            assert_eq!(b.grantor_fill.num == 0, t >= l.grantor.grant_expiry);
            last = Some(b.grantor_fill);
        } else {
            assert_eq!(b.grantor_fill.num, 0);
        }
    }
}

/// A lease whose every guard is lost never comes up.
#[test]
fn a_cut_off_lease_stays_down() {
    let s = Scenario::new(2)
        .seed(4)
        .duration(20_000)
        .node(0, |n| n.initiate_chance = Prob::always())
        .kind_drop(MsgKind::Guard, Prob::always())
        .lease(0, 1);
    let mut e = engine(s);
    let events = e.advance_to(20_000);
    assert!(events.iter().any(|ev| matches!(
        ev.kind,
        EventKind::MessageSent { kind: MsgKind::Guard, fate: MsgFate::Dropped, .. }
    )));
    assert!(!events.iter().any(|ev| matches!(
        ev.kind,
        EventKind::GranteeLease { status: LeaseStatus::Active, .. }
            | EventKind::GrantorLease { status: LeaseStatus::Active, .. }
    )));
}

#[test]
fn without_writes_there_are_no_write_messages() {
    let mut e = engine(roster_leases());
    let events = e.advance_to(20_000);
    for ev in events {
        if let EventKind::MessageSent { kind, .. } = ev.kind {
            assert!(!matches!(kind, MsgKind::Write | MsgKind::WriteReply | MsgKind::Commit));
        }
        assert!(!matches!(
            ev.kind,
            EventKind::WriteStarted { .. } | EventKind::WriteCommitted { .. }
        ));
    }
}

/// Disruptive writes run one at a time: each ends before the next begins.
#[test]
fn disruptive_writes_do_not_overlap() {
    let s = Scenario::new(5)
        .seed(9)
        .duration(20_000)
        .all_nodes(|n| n.initiate_chance = Prob { num: HALF_UNIT })
        .writes(Some(100), true)
        .all_to_one(0);
    let mut e = engine(s);
    let mut open = 0;
    let mut committed = 0;
    for ev in e.advance_to(20_000) {
        match ev.kind {
            EventKind::WriteStarted { leader } => {
                assert_eq!(leader, 0);
                open += 1;
                assert_eq!(open, 1);
            }
            EventKind::WriteCommitted { .. } => {
                open -= 1;
                committed += 1;
            }
            _ => {}
        }
    }
    assert!(committed > 10);
}

/// A commit waits for a majority and for every grantee to have answered.
#[test]
fn a_commit_has_the_replies_of_every_grantee() {
    let mut e = engine(quorum_leases_write_disruption());
    let events = e.advance_to(20_000);
    let commit = events
        .iter()
        .position(|ev| matches!(ev.kind, EventKind::WriteCommitted { .. }))
        .unwrap();
    let mut replied: Vec<usize> = vec![];
    for ev in &events[..commit] {
        if let EventKind::MessageDelivered { from, kind: MsgKind::WriteReply, .. } = ev.kind {
            replied.push(from);
        }
    }
    // The leader is node 0, the other holder node 2.
    assert!(replied.contains(&2));
    assert!(replied.len() + 1 >= 3);
}

#[test]
fn writes_that_do_not_disrupt_leave_leases_alone() {
    let quiet = |every: Option<Time>| {
        let s = leader_leases().writes(every, false);
        let mut e = engine(s);
        let events = e.advance_to(10_000);
        let changes: usize = events
            .iter()
            .filter(|ev| {
                matches!(
                    ev.kind,
                    EventKind::GrantorLease { .. } | EventKind::GranteeLease { .. }
                )
            })
            .count();
        let all_active = e.leases().iter().all(|l| l.grantee.status == LeaseStatus::Active);
        (changes, all_active)
    };
    assert_eq!(quiet(None), quiet(Some(500)));
    assert!(quiet(Some(500)).1);
}

/// Whatever a party still promises or holds had not lapsed one poll interval ago.
#[test]
fn expiry_is_noticed_within_a_poll() {
    let mut e = engine(busy(10));
    for t in (0..20_000).step_by(7) {
        e.advance_to(t);
        for l in e.leases() {
            if l.grantor.status == LeaseStatus::Active {
                assert!(t - 50 <= l.grantor.grant_expiry);
            }
            match l.grantee.status {
                LeaseStatus::Active => assert!(t - 50 <= l.grantee.hold_expiry),
                LeaseStatus::Guarding => assert!(t - 50 <= l.grantee.guard_deadline),
                _ => {}
            }
        }
    }
}

/// The guard window, the hold and the promise, each set by its message.
#[test]
fn expiries_follow_the_messages() {
    let mut e = engine(Demo::OneToOneSuccess.scenario());
    let mut seen = [0; 4];
    for t in 0..6_000 {
        let before = e.leases()[0];
        for ev in e.advance_to(t) {
            let l = e.leases()[0];
            match ev.kind {
                EventKind::MessageDelivered { kind: MsgKind::Guard, .. } => {
                    assert_eq!(l.grantee.guard_deadline, t + 1_400);
                    seen[0] += 1;
                }
                EventKind::MessageDelivered { kind: MsgKind::Renew, .. } => {
                    assert_eq!(l.grantee.hold_expiry, t + 1_400);
                    // A bar is full when it is armed.
                    let fill = e.frame_at(t).leases[0].grantee_fill;
                    assert_eq!(fill.num, fill.den);
                    seen[1] += 1;
                }
                EventKind::MessageSent { kind: MsgKind::Renew, .. } => {
                    assert_eq!(l.grantor.grant_expiry, before.grantor.grant_expiry.max(t + 3_200));
                    assert!(l.grantor.awaiting_reply);
                    let fill = e.frame_at(t).leases[0].grantor_fill;
                    assert_eq!(fill.num, fill.den);
                    seen[2] += 1;
                }
                EventKind::MessageDelivered { kind: MsgKind::RenewReply, .. } => {
                    assert_eq!(l.grantor.grant_expiry, t + 1_600);
                    assert!(!l.grantor.awaiting_reply);
                    seen[3] += 1;
                }
                _ => {}
            }
        }
    }
    assert_eq!(seen[0], 1);
    assert!(seen[1] >= 5 && seen[2] >= 5 && seen[3] >= 5);
}

/// A first renew that comes after the guard window has closed starts nothing.
#[test]
fn a_late_activation_is_ignored() {
    let s = Scenario::new(2)
        .seed(3)
        .duration(10_000)
        .params(LeaseParams { t_guard: 300, t_lease: 1_500, t_delta: 100, renew_interval: 600 })
        .lease(0, 1)
        .command(100, Command::Initiate(LeaseId { grantor: 0, grantee: 1 }));
    let mut e = engine(s);
    let events = e.advance_to(10_000);
    assert!(!events.iter().any(|ev| matches!(
        ev.kind,
        EventKind::GranteeLease { status: LeaseStatus::Active, .. }
    )));
}

/// A node that crashes before it answers never sends the answer.
#[test]
fn a_crashed_node_does_not_answer() {
    let lease = LeaseId { grantor: 0, grantee: 1 };
    let s = Scenario::new(2)
        .seed(3)
        .duration(5_000)
        .lease(0, 1)
        .command(100, Command::Initiate(lease));
    let mut e = engine(s);
    let mut t = 100;
    loop {
        let events = e.advance_to(t);
        if events
            .iter()
            .any(|ev| matches!(ev.kind, EventKind::MessageDelivered { kind: MsgKind::Guard, .. }))
        {
            break;
        }
        t += 1;
    }
    e.command(Command::FailNode(1));
    let events = e.advance_to(5_000);
    assert!(!events.iter().any(|ev| matches!(ev.kind, EventKind::MessageSent { from: 1, .. })));
    // The grantor gives the guard up after a whole guard window.
    assert_eq!(e.leases()[0].grantor.status, LeaseStatus::Inactive);
}

/// Revoking stops the renews at once; the acknowledgement ends the grant.
#[test]
fn a_revocation_ends_both_sides() {
    let mut e = engine(Demo::OneToOneRevoked.scenario());
    let before = e.advance_to(1_919).len();
    assert!(before > 0);
    let promised = e.leases()[0].grantor.grant_expiry;
    e.advance_to(1_920);
    assert_eq!(e.leases()[0].grantor.grant_expiry, promised);
    let events = e.advance_to(10_000);
    assert!(!events.iter().any(|ev| matches!(
        ev.kind,
        EventKind::MessageSent { kind: MsgKind::Renew, .. }
    )));
    let dropped = events
        .iter()
        .position(|ev| matches!(
            ev.kind,
            EventKind::GranteeLease { status: LeaseStatus::Expired, .. }
        ))
        .unwrap();
    let ended = events
        .iter()
        .position(|ev| matches!(
            ev.kind,
            EventKind::GrantorLease { status: LeaseStatus::Expired, .. }
        ))
        .unwrap();
    assert!(dropped < ended);
    assert!(events[ended].at < promised);
}

/// A write whose replies are all lost is abandoned, and the leases it tore down come
/// back.
#[test]
fn a_stuck_write_is_abandoned() {
    let s = leader_leases()
        .writes(None, true)
        .kind_drop(MsgKind::WriteReply, Prob::always())
        .command(2_000, Command::Write);
    let mut e = engine(s);
    e.advance_to(3_000);
    assert!(e.leases().iter().all(|l| l.grantee.status != LeaseStatus::Active));
    let events = e.advance_to(8_000);
    assert!(!events.iter().any(|ev| matches!(ev.kind, EventKind::WriteCommitted { .. })));
    assert!(e.leases().iter().all(|l| l.grantee.status == LeaseStatus::Active));
    assert!(e.leases().iter().all(|l| !l.grantor.reguard_on_thaw));
}
