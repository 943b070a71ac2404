//! The promise of a lease and what is held of it.

use lease_sim::clock::{Clock, Drift, Time};
use lease_sim::dist::{Dist, NormalDraw};
use lease_sim::engine::Engine;
use lease_sim::event::{Command, EventKind, LeaseId, LeaseStatus, MsgKind};
use lease_sim::prob::Prob;
use lease_sim::rounding::UNIT;
use lease_sim::scenario::{LinkConfig, Scenario};

type Sampler = fn(NormalDraw) -> Time;

fn flat(_: NormalDraw) -> Time {
    7
}

fn engine(scenario: Scenario) -> Engine<Sampler> {
    assert!(scenario.is_valid());
    Engine::new(scenario, flat as Sampler)
}

/// The exact fraction that a tick-rate multiplier is.
fn rate(x: f64) -> Drift {
    let mut mantissa = x;
    let mut shift: u32 = 0;
    while mantissa.fract() != 0.0 {
        mantissa *= 2.0;
        shift += 1;
    }
    Drift { mantissa: mantissa as i64, shift }
}

/// Node 0 grants to node 1 over links that take `delay`.
fn pair(delay: Dist, grantor: Clock, grantee: Clock) -> Scenario {
    let link = |from: usize, to: usize| LinkConfig { delay, ..LinkConfig::new(from, to) };
    Scenario::new(2)
        .seed(1)
        .duration(20_000)
        .node(0, |n| {
            n.clock = grantor;
            n.initiate_chance = Prob { num: UNIT };
        })
        .node(1, |n| n.clock = grantee)
        .link(link(0, 1))
        .link(link(1, 0))
        .lease(0, 1)
}

/// Advances to the end, and sees to it that in global time no hold outlasts its
/// promise; returns how often something was held.
fn watch(scenario: Scenario, grantor: Clock, grantee: Clock) -> usize {
    let mut e = engine(scenario);
    let mut held = 0;
    for t in (0..20_000).step_by(7) {
        e.advance_to(t);
        let l = e.leases()[0];
        if l.grantee.status == LeaseStatus::Active {
            held += 1;
            let until = grantor.global_for_local(l.grantor.grant_expiry);
            let hold = grantee.global_for_local(l.grantee.hold_expiry);
            assert!(until >= hold, "at {t}: promised until {until}, held until {hold}");
        }
    }
    held
}

#[test]
fn expiries_are_ordered_in_global_time() {
    let default = LinkConfig::new(0, 1).delay;
    let perfect = Clock::perfect();
    assert!(watch(pair(default, perfect, perfect), perfect, perfect) > 1_000);
    for (offset, drift) in [(500, 1.05), (-3_000, 1.0), (9, 0.94)] {
        let grantee = Clock::new(offset, rate(drift));
        assert!(watch(pair(default, perfect, grantee), perfect, grantee) > 1_000);
    }
}

#[test]
fn slow_messages_and_revocations_do_not_break_the_promise() {
    let id = LeaseId { grantor: 0, grantee: 1 };
    let perfect = Clock::perfect();
    let grantee = Clock::new(500, rate(1.05));
    for delay in [1, 300, 600] {
        let scenario = pair(Dist::Fixed(delay), perfect, grantee)
            .command(3_100, Command::Revoke(id))
            .command(7_777, Command::Revoke(id))
            .command(12_340, Command::FailNode(0))
            .command(13_000, Command::RecoverNode(0))
            .writes(Some(5_000), true);
        assert!(watch(scenario, perfect, grantee) > 100, "delay {delay}");
    }
}

/// A lease that is granted once is safe although its messages take anything up to
/// more than a lease.
#[test]
fn one_grant_is_safe_whatever_the_delays() {
    let id = LeaseId { grantor: 0, grantee: 1 };
    let perfect = Clock::perfect();
    let mut held = 0;
    for seed in 0..120u64 {
        let grantee = Clock::new(500, rate(if seed % 2 == 0 { 1.05 } else { 0.95 }));
        let scenario = pair(Dist::Uniform { lo: 1, hi: 2_000 }, perfect, grantee)
            .seed(seed)
            .node(0, |n| n.initiate_chance = Prob { num: 0 })
            .command(100, Command::Initiate(id))
            .command(3_000 + 40 * seed as Time, Command::Revoke(id))
            .command(3_500 + 40 * seed as Time, Command::Revoke(id))
            .command(6_000, Command::FailNode(1))
            .command(6_200, Command::RecoverNode(1));
        held += watch(scenario, perfect, grantee);
    }
    assert!(held > 0);
}

/// The grantee's clock runs fast, so that its guard window is over, and seen to be
/// over, before the renew that is to start the lease arrives.
#[test]
fn a_first_renew_after_the_window_is_ignored_for_good() {
    let fast = Clock::new(0, rate(1.25));
    let scenario = pair(Dist::Fixed(100), Clock::perfect(), fast)
        .node(1, |n| n.response_delay = Dist::Fixed(1_050));
    let mut e = engine(scenario);
    let mut events = e.advance_to(1_340);
    // Guard at 100, window until 1220, seen to be over by the poll at 1250.
    let l = e.leases()[0];
    assert_eq!(l.grantee.status, LeaseStatus::Expired);
    assert_eq!(l.grantor.status, LeaseStatus::Active);
    let before = l.grantee;
    let late = e.advance_to(1_350);
    assert!(late.iter().any(|ev| ev.at == 1_350
        && ev.kind == EventKind::MessageDelivered { from: 0, to: 1, kind: MsgKind::Renew }));
    assert_eq!(e.leases()[0].grantee, before);
    events.extend(late);
    events.extend(e.advance_to(20_000));
    assert!(!events.iter().any(|ev| matches!(
        ev.kind,
        EventKind::GranteeLease { status: LeaseStatus::Active, .. }
            | EventKind::MessageSent { kind: MsgKind::RenewReply, .. }
    )));
    assert!(
        events
            .iter()
            .filter(|ev| matches!(
                ev.kind,
                EventKind::GranteeLease { status: LeaseStatus::Guarding, .. }
            ))
            .count()
            > 1
    );
}
