//! What the events of a run say of its messages.

use lease_sim::clock::Time;
use lease_sim::demos::{one_to_one_renew_replies_lost, Demo};
use lease_sim::dist::NormalDraw;
use lease_sim::engine::Engine;
use lease_sim::event::{Command, Event, EventKind, LeaseId, LeaseStatus, MsgFate, MsgKind, NodeId};
use lease_sim::frame::MsgShape;
use lease_sim::prob::Prob;
use lease_sim::rounding::{HALF_UNIT, UNIT};
use lease_sim::scenario::{LinkConfig, Scenario};

type Sampler = fn(NormalDraw) -> Time;

fn flat(_: NormalDraw) -> Time {
    7
}

fn engine(scenario: Scenario) -> Engine<Sampler> {
    assert!(scenario.is_valid());
    Engine::new(scenario, flat as Sampler)
}

/// A roster of five with losses, writes and crashes.
fn busy(seed: u64) -> Scenario {
    Scenario::new(5)
        .seed(seed)
        .duration(30_000)
        .all_nodes(|n| {
            n.initiate_chance = Prob { num: HALF_UNIT };
            n.fail_chance = Prob { num: UNIT / 500 };
            n.recover_chance = Prob { num: UNIT / 20 };
        })
        .kind_drop(MsgKind::Renew, Prob { num: UNIT / 10 })
        .kind_drop(MsgKind::GuardReply, Prob { num: UNIT / 10 })
        .writes(Some(2_000), true)
        .all_to_all()
}

fn scenarios() -> Vec<Scenario> {
    let mut all: Vec<Scenario> = [
        Demo::OneToOneSuccess,
        Demo::OneToOneGuardReplyLost,
        Demo::OneToOneRevoked,
        Demo::OneToOneRenewRepliesLost,
        Demo::LeaseManagerHandover,
        Demo::LeaderLeases,
        Demo::QuorumLeases,
        Demo::QuorumLeasesWriteDisruption,
        Demo::RosterLeases,
    ]
    .into_iter()
    .map(|d| d.scenario())
    .collect();
    all.push(busy(1));
    all.push(busy(2));
    all
}

/// The end of a message: when, between whom, what, and whether it was delivered.
type End = (Time, NodeId, NodeId, usize, bool);

fn announced(ev: &Event) -> Option<End> {
    match ev.kind {
        EventKind::MessageSent { from, to, kind, sent, arrival, fate } => {
            assert_eq!(ev.at, sent);
            assert!(arrival >= sent + 1);
            Some((arrival, from, to, kind.index(), fate == MsgFate::Delivered))
        }
        _ => None,
    }
}

fn concluded(ev: &Event) -> Option<End> {
    match ev.kind {
        EventKind::MessageDelivered { from, to, kind } => {
            Some((ev.at, from, to, kind.index(), true))
        }
        EventKind::MessageDropped { from, to, kind } => {
            Some((ev.at, from, to, kind.index(), false))
        }
        _ => None,
    }
}

#[test]
fn every_message_ends_once_at_its_arrival() {
    for scenario in scenarios() {
        let mut e = engine(scenario);
        let mut events: Vec<Event> = vec![];
        for t in [500, 777, 778, 4_000, 3_000, 9_999] {
            events.extend(e.advance_to(t));
            let mut due: Vec<End> =
                events.iter().filter_map(announced).filter(|end| end.0 <= e.now()).collect();
            let mut over: Vec<End> = events.iter().filter_map(concluded).collect();
            due.sort_unstable();
            over.sort_unstable();
            assert_eq!(due, over);
        }
        assert!(events.iter().any(|ev| announced(ev).is_some()));
    }
}

#[test]
fn commands_leave_no_message_unaccounted() {
    let mut e = engine(Demo::LeaderLeases.scenario());
    let mut events = e.advance_to(2_000);
    e.command(Command::Revoke(LeaseId { grantor: 0, grantee: 1 }));
    e.command(Command::FailNode(2));
    events.extend(e.advance_to(6_000));
    let mut due: Vec<End> =
        events.iter().filter_map(announced).filter(|end| end.0 <= e.now()).collect();
    let mut over: Vec<End> = events.iter().filter_map(concluded).collect();
    due.sort_unstable();
    over.sort_unstable();
    assert_eq!(due, over);
}

#[test]
fn a_frame_shows_the_sends_that_have_not_arrived() {
    for scenario in scenarios() {
        let mut e = engine(scenario);
        let mut events: Vec<Event> = vec![];
        let mut most = 0;
        for t in (0..6_000).step_by(37) {
            events.extend(e.advance_to(t));
            let shown = e.frame_at(t).messages;
            let sent: Vec<(NodeId, NodeId, MsgKind, MsgFate, Time, Time)> = events
                .iter()
                .filter_map(|ev| match ev.kind {
                    EventKind::MessageSent { from, to, kind, sent, arrival, fate }
                        if sent <= t && t < arrival =>
                    {
                        Some((from, to, kind, fate, t - sent, arrival - sent))
                    }
                    _ => None,
                })
                .collect();
            assert_eq!(shown.len(), sent.len());
            for (m, s) in shown.iter().zip(&sent) {
                let MsgShape { from, to, kind, fate, progress } = *m;
                assert_eq!((from, to, kind, fate), (s.0, s.1, s.2, s.3));
                assert_eq!(progress.num as i128 * s.5 as i128, s.4 as i128 * progress.den as i128);
                assert!(progress.num < progress.den);
            }
            most = most.max(shown.len());
        }
        assert!(most > 0);
    }
}

fn is_renew(ev: &Event, id: LeaseId) -> bool {
    matches!(
        ev.kind,
        EventKind::MessageSent { from, to, kind: MsgKind::Renew, .. }
            if from == id.grantor && to == id.grantee
    )
}

fn is_answer(ev: &Event, id: LeaseId) -> bool {
    matches!(
        ev.kind,
        EventKind::MessageDelivered { from, to, kind: MsgKind::RenewReply | MsgKind::GuardReply }
            if from == id.grantee && to == id.grantor
    )
}

#[test]
fn between_two_renews_an_answer_came() {
    for scenario in scenarios() {
        let leases = scenario.leases.clone();
        let mut e = engine(scenario);
        let mut events = e.advance_to(4_000);
        events.extend(e.advance_to(20_000));
        for id in leases {
            let mut open = false;
            for ev in &events {
                if is_renew(ev, id) {
                    assert!(!open, "{id:?} at {}", ev.at);
                    open = true;
                } else if is_answer(ev, id) {
                    open = false;
                }
            }
        }
    }
}

#[test]
fn a_renew_without_an_answer_is_the_last() {
    let id = LeaseId { grantor: 0, grantee: 1 };
    let mut e = engine(one_to_one_renew_replies_lost());
    let events = e.advance_to(20_000);
    let last = events
        .iter()
        .rposition(|ev| {
            matches!(
                ev.kind,
                EventKind::MessageDelivered { to: 0, kind: MsgKind::RenewReply, .. }
            )
        })
        .expect("a reply came through");
    assert_eq!(events[last..].iter().filter(|ev| is_renew(ev, id)).count(), 1);
}

/// What a renew that is too late, or that a revocation overtook, may not do.
#[test]
fn a_lapsed_side_takes_no_renew() {
    let id = LeaseId { grantor: 0, grantee: 1 };
    let mut overtaken = 0;
    for seed in 0..150u64 {
        let link = |from: NodeId, to: NodeId| LinkConfig {
            delay: lease_sim::dist::Dist::Uniform { lo: 1, hi: 400 },
            ..LinkConfig::new(from, to)
        };
        let scenario = Scenario::new(2)
            .seed(seed)
            .duration(8_000)
            .node(0, |n| n.initiate_chance = Prob { num: UNIT })
            .link(link(0, 1))
            .link(link(1, 0))
            .lease(0, 1)
            .command(2_000 + 10 * seed as Time, Command::Revoke(id));
        let mut e = engine(scenario);
        let mut shut = false;
        for ev in e.advance_to(8_000) {
            match ev.kind {
                EventKind::MessageDelivered { kind: MsgKind::Guard, .. } => shut = false,
                EventKind::GranteeLease { status: LeaseStatus::Expired, .. } => shut = true,
                EventKind::GranteeLease { status: LeaseStatus::Active, .. } => assert!(!shut),
                EventKind::MessageDelivered { kind: MsgKind::Renew, .. } => {
                    if shut {
                        overtaken += 1;
                    }
                }
                _ => {}
            }
        }
    }
    assert!(overtaken > 0);
}
