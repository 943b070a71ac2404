//! Grant history tests.

use lease_sim::event::LeaseStatus;
use lease_sim::frame::{Fraction, Frame, LeaseBar};
use lease_sim::grants::{
    grant_bars, grant_count, grant_runs, node_timers, GrantRun, TimerBar, TimerRole,
};
use lease_sim::topology::Topology;

fn bar(grantor: usize, grantee: usize, status: LeaseStatus) -> LeaseBar {
    LeaseBar {
        grantor,
        grantee,
        grantor_status: LeaseStatus::Guarding,
        grantee_status: status,
        grantor_fill: Fraction { num: 1, den: 4 },
        grantee_fill: Fraction { num: 3, den: 4 },
    }
}

fn frame(leases: Vec<LeaseBar>) -> Frame {
    Frame { at: 0, nodes: vec![], messages: vec![], leases }
}

/// A frame in which node 1 holds `k` of three grants.
fn holding(k: usize) -> Frame {
    let status = |i: usize| if i < k { LeaseStatus::Active } else { LeaseStatus::Expired };
    frame((0..3).map(|i| bar(i + 2, 1, status(i))).collect())
}

fn run(frames: usize, grants: usize) -> GrantRun {
    GrantRun { frames, grants }
}

#[test]
fn only_active_grants_to_the_node_count() {
    let f = frame(vec![
        bar(0, 1, LeaseStatus::Active),
        bar(2, 1, LeaseStatus::Guarding),
        bar(1, 2, LeaseStatus::Active),
        bar(3, 1, LeaseStatus::Active),
    ]);
    assert_eq!(grant_count(&f, 1), 2);
    assert_eq!(grant_count(&f, 2), 1);
    assert_eq!(grant_count(&f, 0), 0);
}

#[test]
fn timers_list_granted_leases_before_held_ones() {
    let f = frame(vec![bar(0, 1, LeaseStatus::Active), bar(1, 2, LeaseStatus::Expired)]);
    assert_eq!(
        node_timers(&f, 1),
        vec![
            TimerBar {
                other: 2,
                role: TimerRole::Grantor,
                status: LeaseStatus::Guarding,
                fill: Fraction { num: 1, den: 4 },
            },
            TimerBar {
                other: 0,
                role: TimerRole::Grantee,
                status: LeaseStatus::Active,
                fill: Fraction { num: 3, den: 4 },
            },
        ]
    );
    assert_eq!(node_timers(&f, 3), vec![]);
}

#[test]
fn history_before_the_first_frame_is_the_self_grant() {
    assert_eq!(grant_runs(&[], 1, 0), vec![run(1, 0)]);
    assert_eq!(grant_runs(&[], 1, 1), vec![run(1, 1)]);
}

#[test]
fn history_runs_end_where_the_count_changes() {
    let frames: Vec<Frame> = [0, 0, 2, 2, 2, 1, 2].into_iter().map(holding).collect();
    assert_eq!(
        grant_runs(&frames, 1, 0),
        vec![run(2, 0), run(3, 2), run(1, 1), run(1, 2)]
    );
    assert_eq!(
        grant_runs(&frames, 1, 1),
        vec![run(2, 1), run(3, 3), run(1, 2), run(1, 3)]
    );
}

#[test]
fn history_spells_out_the_counts() {
    let counts = [3, 3, 1, 0, 0, 0, 2, 2, 3];
    let frames: Vec<Frame> = counts.into_iter().map(holding).collect();
    let runs = grant_runs(&frames, 1, 0);
    let mut spelled: Vec<usize> = vec![];
    for r in &runs {
        for _ in 0..r.frames {
            spelled.push(r.grants);
        }
    }
    assert_eq!(spelled, counts.to_vec());
    for pair in runs.windows(2) {
        assert_ne!(pair[0].grants, pair[1].grants);
    }
}

#[test]
fn one_bar_per_node() {
    let t = Topology::new(3, &[1, 2], &[1]);
    let frames = vec![holding(1), holding(1)];
    assert_eq!(
        grant_bars(&t, &frames),
        vec![vec![run(2, 0)], vec![run(2, 2)], vec![run(2, 0)]]
    );
}
