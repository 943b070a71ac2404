//! Leases that nothing disturbs, and revokes that nobody asked for.

use lease_sim::demos::Demo;
use lease_sim::dist::NormalDraw;
use lease_sim::prob::Prob;
use lease_sim::rounding::UNIT;
use lease_sim::{
    Command, Engine, EventKind, LeaseId, LeaseStatus, LinkConfig, MsgKind, Scenario, Time,
};

type Sampler = fn(NormalDraw) -> Time;

fn flat(_: NormalDraw) -> Time {
    7
}

fn engine(scenario: Scenario) -> Engine<Sampler> {
    assert!(scenario.is_valid());
    Engine::new(scenario, flat as Sampler)
}

/// Every node grants to every other.
fn everyone(n: usize, seed: u64) -> Scenario {
    Scenario::new(n)
        .seed(seed)
        .duration(20_000)
        .all_nodes(|node| node.initiate_chance = Prob { num: UNIT })
        .all_to_all()
}

/// Runs to the end; returns how many leases went down on either side, among those
/// that `pick` chooses, after the grantee first had them, and how many came up at all.
fn falls(scenario: Scenario, pick: fn(LeaseId) -> bool) -> (usize, usize) {
    let end = scenario.duration;
    let mut e = engine(scenario);
    let mut seen = vec![false; e.leases().len()];
    let mut fallen = 0;
    for t in (0..=end).step_by(5) {
        e.advance_to(t);
        for (i, l) in e.leases().iter().enumerate() {
            if !pick(l.id) {
                continue;
            }
            let held = l.grantee.status == LeaseStatus::Active;
            if seen[i] && !(held && l.grantor.status == LeaseStatus::Active) {
                fallen += 1;
            }
            if held {
                seen[i] = true;
            }
        }
    }
    (fallen, seen.iter().filter(|s| **s).count())
}

fn revokes_sent(scenario: Scenario) -> usize {
    let end = scenario.duration;
    engine(scenario)
        .advance_to(end)
        .iter()
        .filter(|ev| matches!(ev.kind, EventKind::MessageSent { kind: MsgKind::Revoke, .. }))
        .count()
}

#[test]
fn a_healthy_lease_stays_up() {
    for seed in 0..8 {
        assert_eq!(falls(everyone(3, seed), |_| true), (0, 6), "seed {seed}");
    }
}

#[test]
fn writes_that_do_not_disrupt_leave_a_healthy_lease_up() {
    assert_eq!(falls(everyone(3, 1).writes(Some(900), false), |_| true), (0, 6));
}

#[test]
fn the_trouble_of_others_leaves_a_healthy_lease_up() {
    let scenario = everyone(3, 4)
        .link(LinkConfig { partitioned: true, ..LinkConfig::new(0, 2) })
        .command(6_000, Command::FailNode(2))
        .command(9_000, Command::RecoverNode(2))
        .command(12_000, Command::Revoke(LeaseId { grantor: 1, grantee: 2 }));
    let (fallen, up) = falls(scenario.clone(), |id| id.grantor != 2 && id.grantee != 2);
    assert_eq!((fallen, up), (0, 2));
    assert!(falls(scenario, |_| true).0 > 0);
}

/// Whatever is in the way, a lease that was up does come down.
#[test]
fn each_disturbance_takes_a_lease_down() {
    let id = LeaseId { grantor: 0, grantee: 1 };
    let pair = || {
        Scenario::new(2)
            .seed(3)
            .duration(20_000)
            .node(0, |n| n.initiate_chance = Prob { num: UNIT })
            .lease(0, 1)
    };
    assert_eq!(falls(pair(), |_| true), (0, 1));
    let disturbed = [
        pair().command(9_000, Command::Revoke(id)),
        pair().command(9_000, Command::FailNode(0)),
        pair().command(9_000, Command::FailNode(1)),
        pair().kind_drop_from(MsgKind::Renew, Prob { num: UNIT }, 9_000),
        pair().kind_drop_from(MsgKind::RenewReply, Prob { num: UNIT }, 9_000),
    ];
    for scenario in disturbed {
        let (fallen, up) = falls(scenario, |_| true);
        assert!(fallen > 0 && up == 1);
    }
}

#[test]
fn no_revoke_without_a_command() {
    for seed in 0..4 {
        let scenario = everyone(3, seed)
            .all_nodes(|n| n.fail_chance = Prob { num: UNIT / 8 })
            .writes(Some(1_500), true)
            .command(5_000, Command::FailNode(1))
            .command(7_000, Command::Initiate(LeaseId { grantor: 0, grantee: 2 }));
        assert_eq!(revokes_sent(scenario), 0, "seed {seed}");
    }
}

#[test]
fn every_revoke_takes_a_command() {
    let id = LeaseId { grantor: 0, grantee: 1 };
    let mut scenario = everyone(2, 5);
    for k in 0..6 {
        scenario = scenario.command(3_000 + 2 * k, Command::Revoke(id));
    }
    let sent = revokes_sent(scenario);
    assert!((1..=6).contains(&sent), "{sent}");
}

#[test]
fn demos_revoke_as_often_as_they_say() {
    for demo in [
        Demo::OneToOneSuccess,
        Demo::OneToOneGuardReplyLost,
        Demo::OneToOneRevoked,
        Demo::OneToOneRenewRepliesLost,
        Demo::LeaseManagerHandover,
        Demo::LeaderLeases,
        Demo::QuorumLeases,
        Demo::QuorumLeasesWriteDisruption,
        Demo::RosterLeases,
    ] {
        let scenario = demo.scenario();
        let told =
            scenario.commands.iter().filter(|(_, c)| matches!(c, Command::Revoke(_))).count();
        assert!(revokes_sent(scenario) <= told);
    }
    assert_eq!(revokes_sent(Demo::OneToOneRevoked.scenario()), 1);
}
