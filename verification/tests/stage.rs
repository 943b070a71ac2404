//! Canvas tests.

use lease_sim::event::{LeaseId, LeaseStatus, MsgKind};
use lease_sim::frame::{Fraction, Frame, LeaseBar};
use lease_sim::grants::TimerRole;
use lease_sim::run::RunPhase;
use lease_sim::stage::{
    figure_status, grant_rows, ledge_class, ledge_marker, msg_class, msg_glyph, msg_is_reply,
    playground_status, plural, role_words, run_controls, stack_cols, stack_rows, stage,
    status_word, timer_class, Glyph, RunButton, Share,
};
use lease_sim::topology::Topology;

fn bar(grantor: usize, grantee: usize, status: LeaseStatus) -> LeaseBar {
    LeaseBar {
        grantor,
        grantee,
        grantor_status: status,
        grantee_status: status,
        grantor_fill: Fraction { num: 1, den: 2 },
        grantee_fill: Fraction { num: 2, den: 3 },
    }
}

fn frame(leases: Vec<LeaseBar>) -> Frame {
    Frame { at: 9, nodes: vec![], messages: vec![], leases }
}

#[test]
fn the_idle_canvas_shows_the_static_topology() {
    let t = Topology::new(3, &[0, 1], &[1, 2]);
    let s = stage(&t, None);
    assert_eq!(s.edges, t.pairs());
    assert!(s.lease_edges.is_empty());
    let classes: Vec<&str> = s.nodes.iter().map(|n| n.class()).collect();
    assert_eq!(
        classes,
        vec!["pg-node is-grantor", "pg-node is-grantor is-grantee", "pg-node is-grantee"]
    );
    let leaders: Vec<bool> = s.nodes.iter().map(|n| n.leader).collect();
    assert_eq!(leaders, vec![false, true, false]);
    // Node 1 grants to itself, one of the two grants it can hold.
    let auras: Vec<Share> = s.nodes.iter().map(|n| n.aura).collect();
    assert_eq!(
        auras,
        vec![Share { num: 0, den: 1 }, Share { num: 1, den: 2 }, Share { num: 0, den: 2 }]
    );
    assert!(s.nodes.iter().all(|n| n.timers.is_empty()));
    assert_eq!((s.nodes[1].out, s.nodes[1].inc), (1, 1));
}

#[test]
fn the_live_canvas_shows_the_frame() {
    let t = Topology::new(3, &[1, 2], &[0]);
    let f = frame(vec![
        bar(1, 0, LeaseStatus::Active),
        bar(2, 0, LeaseStatus::Guarding),
        bar(5, 0, LeaseStatus::Expired),
    ]);
    let s = stage(&t, Some(&f));
    assert_eq!(
        s.edges,
        vec![LeaseId { grantor: 1, grantee: 0 }, LeaseId { grantor: 2, grantee: 0 }]
    );
    // The lease of a node that is not on the canvas has no edge.
    assert_eq!(s.lease_edges.len(), 2);
    assert_eq!(s.lease_edges[1].grantor, 2);
    assert_eq!(s.lease_edges[1].status, LeaseStatus::Guarding);
    assert_eq!(s.lease_edges[1].fill, Fraction { num: 2, den: 3 });
    // One active grant and the node itself: a majority of three.
    assert!(s.nodes[0].majority);
    assert_eq!(s.nodes[0].class(), "pg-node is-grantee is-majority");
    assert!(!s.nodes[1].majority);
    assert_eq!(s.nodes[0].aura, Share { num: 1, den: 2 });
    let roles: Vec<TimerRole> = s.nodes[0].timers.iter().map(|t| t.role).collect();
    assert_eq!(roles, vec![TimerRole::Grantee; 3]);
    assert_eq!(s.nodes[2].timers.len(), 1);
    assert_eq!(s.nodes[2].timers[0].role, TimerRole::Grantor);
}

#[test]
fn timers_fill_the_stack() {
    let t = Topology::new(4, &[0, 1, 2], &[0, 3]);
    let f = frame(
        t.pairs().into_iter().map(|l| bar(l.grantor, l.grantee, LeaseStatus::Active)).collect(),
    );
    for n in &stage(&t, Some(&f)).nodes {
        assert_eq!(n.timers.len(), n.out + n.inc);
    }
}

#[test]
fn a_full_aura_is_not_exceeded() {
    let t = Topology::new(2, &[0], &[1]);
    let f = frame(vec![bar(0, 1, LeaseStatus::Active), bar(0, 1, LeaseStatus::Active)]);
    assert_eq!(stage(&t, Some(&f)).nodes[1].aura, Share { num: 1, den: 1 });
}

#[test]
fn grant_rows_can_be_limited_to_grantees() {
    let t = Topology::new(4, &[0], &[3, 1, 8]);
    assert_eq!(grant_rows(&t, false), vec![0, 1, 2, 3]);
    assert_eq!(grant_rows(&t, true), vec![1, 3]);
}

#[test]
fn stacks_have_a_column_per_role() {
    assert_eq!((stack_rows(2, 5), stack_cols(2, 5)), (5, 2));
    assert_eq!((stack_rows(3, 0), stack_cols(3, 0)), (3, 1));
    assert_eq!((stack_rows(0, 4), stack_cols(0, 4)), (4, 1));
    assert_eq!((stack_rows(0, 0), stack_cols(0, 0)), (0, 0));
}

#[test]
fn run_controls_follow_the_phase() {
    let c = run_controls(RunPhase::Idle, true, 0, true);
    assert_eq!((c.button, c.play_disabled), (RunButton::Play, false));
    assert_eq!((c.scrubbable, c.slider_max, c.restartable), (false, 0, false));
    let c = run_controls(RunPhase::Generating, true, 8, false);
    assert_eq!((c.button, c.scrubbable, c.restartable), (RunButton::Pause, false, true));
    assert_eq!(c.slider_max, 7);
    let c = run_controls(RunPhase::Paused, true, 8, false);
    assert_eq!((c.button, c.scrubbable), (RunButton::Resume, true));
    let c = run_controls(RunPhase::Stopped, true, 8, false);
    assert_eq!((c.button, c.play_disabled, c.scrubbable), (RunButton::Play, false, true));
    // A canvas that locks after stopping has to be restarted.
    assert!(run_controls(RunPhase::Stopped, true, 8, true).play_disabled);
    assert!(run_controls(RunPhase::Idle, false, 0, false).play_disabled);
}

#[test]
fn status_words_follow_the_phase() {
    assert_eq!(playground_status(RunPhase::Generating, true), "sim running");
    assert_eq!(playground_status(RunPhase::Paused, true), "run stopped");
    assert_eq!(playground_status(RunPhase::Stopped, true), "✗ ticks limit");
    assert_eq!(playground_status(RunPhase::Idle, true), "press Play");
    assert_eq!(playground_status(RunPhase::Idle, false), "select a grantor & grantee");
    assert_eq!(figure_status(RunPhase::Generating), "sim running");
    assert_eq!(figure_status(RunPhase::Paused), "run stopped");
    assert_eq!(figure_status(RunPhase::Stopped), "run complete");
    assert_eq!(figure_status(RunPhase::Idle), "press Play");
}

#[test]
fn words_and_classes() {
    assert_eq!((plural(0), plural(1), plural(2)), ("s", "", "s"));
    assert_eq!(ledge_marker(LeaseStatus::Active), "url(#pg-arrow-active)");
    assert_eq!(ledge_marker(LeaseStatus::Guarding), "url(#pg-arrow-guarding)");
    assert_eq!(ledge_marker(LeaseStatus::Expired), "url(#pg-arrow-idle)");
    assert_eq!(ledge_class(LeaseStatus::Active), "pg-ledge is-active");
    assert_eq!(ledge_class(LeaseStatus::Guarding), "pg-ledge is-guarding");
    assert_eq!(ledge_class(LeaseStatus::Inactive), "pg-ledge is-idle");
    assert_eq!(timer_class(LeaseStatus::Active), "pg-timer-fill");
    assert_eq!(timer_class(LeaseStatus::Guarding), "pg-timer-fill is-guarding");
    assert_eq!(timer_class(LeaseStatus::Expired), "pg-timer-fill is-inactive");
    assert_eq!(role_words(TimerRole::Grantor), "grantor to");
    assert_eq!(role_words(TimerRole::Grantee), "grantee of");
    assert_eq!(status_word(LeaseStatus::Active), "active");
    assert_eq!(status_word(LeaseStatus::Guarding), "guarding");
    assert_eq!(status_word(LeaseStatus::Expired), "expired");
    assert_eq!(status_word(LeaseStatus::Inactive), "idle");
}

#[test]
fn messages_are_marked_by_phase_and_direction() {
    let kinds = [
        (MsgKind::Guard, "pg-msg is-guard", false, Glyph::Shield),
        (MsgKind::GuardReply, "pg-msg is-guard is-reply", true, Glyph::Shield),
        (MsgKind::Renew, "pg-msg is-renew", false, Glyph::Cycle),
        (MsgKind::RenewReply, "pg-msg is-renew is-reply", true, Glyph::Cycle),
        (MsgKind::Revoke, "pg-msg is-revoke", false, Glyph::Prohibition),
        (MsgKind::RevokeReply, "pg-msg is-revoke is-reply", true, Glyph::Prohibition),
        (MsgKind::Write, "pg-msg is-write", false, Glyph::Pencil),
        (MsgKind::WriteReply, "pg-msg is-write is-reply", true, Glyph::Pencil),
        (MsgKind::Commit, "pg-msg is-commit", false, Glyph::Check),
    ];
    for (kind, class, reply, glyph) in kinds {
        assert_eq!(msg_class(kind), class);
        assert_eq!(msg_is_reply(kind), reply);
        assert_eq!(msg_glyph(kind), glyph);
    }
}
