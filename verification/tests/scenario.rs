use lease_sim::event::{Command, LeaseId};
use lease_sim::prob::Prob;
use lease_sim::rounding::UNIT;
use lease_sim::scenario::{LinkConfig, Scenario};

/// A per-step probability.
fn chance(p: f64) -> Prob {
    Prob { num: (p.clamp(0.0, 1.0) * UNIT as f64).ceil() as u64 }
}

/// A probability of loss.
fn loss(p: f64) -> Prob {
    Prob { num: UNIT - ((1.0 - p.clamp(0.0, 1.0)) * UNIT as f64) as u64 }
}

#[test]
fn builder_assembles_scenario() {
    let s = Scenario::new(3)
        .seed(7)
        .duration(5000)
        .node(0, |n| n.initiate_chance = chance(0.5))
        .link(LinkConfig {
            drop_chance: loss(0.1),
            ..LinkConfig::new(0, 1)
        })
        .lease(0, 1)
        .lease(0, 2);

    assert_eq!(s.node_count(), 3);
    assert_eq!(s.seed, 7);
    assert_eq!(s.duration, 5000);
    assert_eq!(s.nodes[0].initiate_chance, chance(0.5));
    assert_eq!(s.leases.len(), 2);
    assert_eq!(s.link_config(0, 1).drop_chance, loss(0.1));
}

#[test]
fn unset_link_falls_back_to_default() {
    let s = Scenario::new(2);
    let l = s.link_config(0, 1);
    assert_eq!(l.from, 0);
    assert_eq!(l.to, 1);
    assert!(!l.partitioned);
}

#[test]
fn patterns_declare_expected_lease_counts() {
    // Leader: every non-leader grants to the leader (self-grant implicit).
    assert_eq!(Scenario::new(5).all_to_one(2).leases.len(), 4);
    // Quorum: |holders| * (n - 1) leases, self-grants skipped.
    assert_eq!(Scenario::new(5).all_to_many(&[1, 3]).leases.len(), 8);
    // Roster: every ordered distinct pair, n * (n - 1).
    assert_eq!(Scenario::new(4).all_to_all().leases.len(), 12);
}

#[test]
fn command_is_recorded_with_time() {
    let id = LeaseId {
        grantor: 0,
        grantee: 1,
    };
    let s = Scenario::new(2).command(500, Command::Initiate(id));
    assert_eq!(s.commands, vec![(500, Command::Initiate(id))]);
}

#[test]
fn link_override_replaces_existing() {
    let s = Scenario::new(2)
        .link(LinkConfig {
            drop_chance: loss(0.2),
            ..LinkConfig::new(0, 1)
        })
        .link(LinkConfig {
            drop_chance: loss(0.5),
            ..LinkConfig::new(0, 1)
        });
    assert_eq!(s.links.len(), 1);
    assert_eq!(s.link_config(0, 1).drop_chance, loss(0.5));
}
