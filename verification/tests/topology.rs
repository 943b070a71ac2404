//! Topology tests.

use lease_sim::demos::{leader_leases, roster_leases};
use lease_sim::event::LeaseId;
use lease_sim::topology::{majority, Topology};

fn lease(grantor: usize, grantee: usize) -> LeaseId {
    LeaseId { grantor, grantee }
}

#[test]
fn majority_is_more_than_half() {
    assert_eq!(majority(0), 1);
    assert_eq!(majority(1), 1);
    assert_eq!(majority(2), 2);
    assert_eq!(majority(4), 3);
    assert_eq!(majority(5), 3);
    assert_eq!(majority(9), 5);
}

#[test]
fn two_majorities_of_five_share_a_node() {
    let m = majority(5);
    for a in 0u32..32 {
        for b in 0u32..32 {
            if a.count_ones() as usize >= m && b.count_ones() as usize >= m {
                assert_ne!(a & b, 0);
            }
        }
    }
}

#[test]
fn topology_collects_ids_as_sets() {
    let t = Topology::new(4, &[2, 0, 2], &[3, 3, 1]);
    assert_eq!(t.n, 4);
    assert_eq!(t.grantors.iter().copied().collect::<Vec<usize>>(), vec![0, 2]);
    assert_eq!(t.grantees.iter().copied().collect::<Vec<usize>>(), vec![1, 3]);
}

#[test]
fn pairs_come_by_grantor_then_grantee() {
    let t = Topology::new(3, &[2, 0, 7], &[1, 0]);
    assert_eq!(t.pairs(), vec![lease(0, 1), lease(2, 0), lease(2, 1)]);
}

#[test]
fn a_self_lease_or_an_out_of_range_one_is_no_lease() {
    assert!(!Topology::new(2, &[0], &[0]).has_leases());
    assert!(!Topology::new(2, &[0], &[5]).has_leases());
    assert!(!Topology::new(2, &[], &[1]).has_leases());
    assert!(!Topology::new(0, &[0], &[1]).has_leases());
    assert!(Topology::new(2, &[0], &[0, 1]).has_leases());
}

#[test]
fn the_leader_is_the_smallest_grantee() {
    assert_eq!(Topology::new(5, &[0], &[3, 1]).leader(), Some(1));
    assert_eq!(Topology::new(5, &[0], &[]).leader(), None);
    assert_eq!(Topology::new(2, &[0], &[4]).leader(), None);
}

#[test]
fn counts_of_a_mixed_topology() {
    // 0 and 1 grant; 1 and 2 hold.
    let t = Topology::new(4, &[0, 1], &[1, 2]);
    assert_eq!(t.bar_counts(), vec![(2, 0), (1, 1), (0, 2), (0, 0)]);
    assert_eq!(t.self_grant(), vec![0, 1, 0, 0]);
    assert_eq!(t.max_grants(), vec![0, 2, 2, 0]);
}

#[test]
fn counts_match_the_listed_leases() {
    let t = Topology::new(5, &[0, 1, 4], &[1, 2, 3]);
    let pairs = t.pairs();
    for (node, (out, inc)) in t.bar_counts().into_iter().enumerate() {
        assert_eq!(out, pairs.iter().filter(|l| l.grantor == node).count());
        assert_eq!(inc, pairs.iter().filter(|l| l.grantee == node).count());
    }
}

#[test]
fn the_shape_of_a_scenario_is_read_from_its_leases() {
    let leader = Topology::from_scenario(&leader_leases());
    assert_eq!(leader, Topology::new(5, &[1, 2, 3, 4], &[0]));
    let roster = Topology::from_scenario(&roster_leases());
    assert_eq!(roster, Topology::new(5, &[0, 1, 2, 3, 4], &[0, 1, 2, 3, 4]));
    assert_eq!(roster.pairs().len(), 20);
}
