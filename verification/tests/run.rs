//! Recorded-run tests.

use lease_sim::clock::Time;
use lease_sim::demos::Demo;
use lease_sim::dist::NormalDraw;
use lease_sim::engine::Engine;
use lease_sim::event::{Event, EventKind, LeaseId, LeaseStatus, MsgFate, MsgKind};
use lease_sim::frame::{Fraction, Frame};
use lease_sim::milestone::Milestone;
use lease_sim::run::{generate_frames, RunPhase, SimRun, StopWhen, FF_MULT, FRAME_TICKS};
use lease_sim::scenario::Scenario;
use lease_sim::topology::Topology;

type Sampler = fn(NormalDraw) -> Time;

fn flat(_: NormalDraw) -> Time {
    0
}

fn started(stop: StopWhen) -> SimRun<Sampler> {
    let mut run = SimRun::new();
    run.start(Demo::OneToOneSuccess.scenario(), stop, flat as Sampler);
    run
}

/// All that a frame shows, as text.
fn text(frame: &Frame) -> String {
    format!("{frame:?}")
}

fn third_reply(after: Time) -> StopWhen {
    StopWhen::OnNthEvent { n: 3, pred: Milestone::GrantorGotRenewReply, after, cap: 13_000 }
}

/// The time of the third `RenewReply` to reach the grantor.
fn third_reply_at() -> Time {
    let mut engine = Engine::new(Demo::OneToOneSuccess.scenario(), flat as Sampler);
    let events = engine.advance_to(13_000);
    let replies: Vec<&Event> =
        events.iter().filter(|ev| Milestone::GrantorGotRenewReply.is_met_by(ev)).collect();
    replies[2].at
}

#[test]
fn a_new_run_is_idle() {
    let run: SimRun<Sampler> = SimRun::new();
    assert_eq!(run.phase(), RunPhase::Idle);
    assert_eq!(run.rec_len(), 0);
    assert_eq!(run.cursor(), 0);
    assert!(run.frame().is_none());
    assert_eq!(run.now_ticks(), 0);
    assert_eq!(run.end_ticks(), 0);
    assert_eq!(run.cursor_frac(), Fraction { num: 0, den: 1 });
    assert!(!run.fast_forward());
}

#[test]
fn each_repaint_records_one_frame_and_shows_it() {
    let mut run = started(StopWhen::AtTick(300));
    for k in 0..5 {
        run.repaint();
        assert_eq!(run.rec_len(), k + 1);
        assert_eq!(run.cursor(), k);
        assert_eq!(run.frame().map(|f| f.at), Some(FRAME_TICKS * k as Time));
        assert_eq!(run.now_ticks(), FRAME_TICKS * k as Time);
    }
    assert_eq!(run.phase(), RunPhase::Generating);
}

#[test]
fn fast_forward_records_three_frames_per_repaint() {
    let mut run = started(StopWhen::AtTick(300));
    run.toggle_fast_forward();
    run.repaint();
    assert_eq!(run.rec_len(), FF_MULT);
    assert_eq!(run.cursor(), FF_MULT - 1);
    run.toggle_fast_forward();
    run.repaint();
    assert_eq!(run.rec_len(), FF_MULT + 1);
}

#[test]
fn a_run_stops_at_the_last_frame_up_to_its_tick() {
    for (cap, last) in [(0, 0), (-5, 0), (1, 0), (3, 3), (4, 3), (10, 9), (30, 30)] {
        let mut run = started(StopWhen::AtTick(cap));
        for _ in 0..40 {
            run.repaint();
        }
        assert_eq!(run.phase(), RunPhase::Stopped);
        assert_eq!(run.end_ticks(), last, "cap {cap}");
        assert_eq!(run.rec_len() as Time, last / FRAME_TICKS + 1);
    }
}

#[test]
fn fast_forward_records_what_three_repaints_record() {
    let mut fast = started(StopWhen::AtTick(900));
    let mut slow = started(StopWhen::AtTick(900));
    fast.toggle_fast_forward();
    while fast.phase() != RunPhase::Stopped {
        fast.repaint();
        for _ in 0..FF_MULT {
            slow.repaint();
        }
        assert_eq!(fast.rec_len(), slow.rec_len());
        assert_eq!(fast.frame().map(text), slow.frame().map(text));
    }
    assert_eq!(slow.phase(), RunPhase::Stopped);
}

#[test]
fn fast_forward_does_not_run_past_the_stop() {
    let mut run = started(StopWhen::AtTick(9));
    run.toggle_fast_forward();
    run.repaint();
    assert_eq!(run.phase(), RunPhase::Generating);
    run.repaint();
    assert_eq!(run.phase(), RunPhase::Stopped);
    assert_eq!(run.rec_len(), 4);
    run.repaint();
    assert_eq!(run.rec_len(), 4);
}

#[test]
fn pausing_halts_and_resuming_continues() {
    let mut run = started(StopWhen::AtTick(300));
    run.repaint();
    run.repaint();
    run.pause();
    assert_eq!(run.phase(), RunPhase::Paused);
    run.repaint();
    assert_eq!(run.rec_len(), 2);
    run.set_cursor(0);
    assert_eq!(run.now_ticks(), 0);
    run.resume();
    assert_eq!(run.phase(), RunPhase::Generating);
    run.repaint();
    assert_eq!(run.rec_len(), 3);
    assert_eq!(run.cursor(), 2);
}

#[test]
fn pausing_and_resuming_do_nothing_in_other_phases() {
    let mut run: SimRun<Sampler> = SimRun::new();
    run.pause();
    assert_eq!(run.phase(), RunPhase::Idle);
    run.resume();
    assert_eq!(run.phase(), RunPhase::Idle);
    let mut run = started(StopWhen::AtTick(0));
    run.resume();
    assert_eq!(run.phase(), RunPhase::Generating);
    run.repaint();
    run.pause();
    assert_eq!(run.phase(), RunPhase::Stopped);
    run.resume();
    assert_eq!(run.phase(), RunPhase::Stopped);
}

#[test]
fn the_cursor_is_cut_to_the_recorded_range() {
    let mut run = started(StopWhen::AtTick(12));
    for _ in 0..10 {
        run.repaint();
    }
    assert_eq!(run.rec_len(), 5);
    run.set_cursor(100);
    assert_eq!(run.cursor(), 4);
    assert_eq!(run.now_ticks(), 12);
    run.set_cursor(1);
    assert_eq!(run.cursor(), 1);
    assert_eq!(run.cursor_frac(), Fraction { num: 1, den: 4 });
    assert_eq!(run.end_ticks(), 12);
}

#[test]
fn reset_throws_the_run_away_but_keeps_fast_forward() {
    let mut run = started(StopWhen::AtTick(300));
    run.toggle_fast_forward();
    run.repaint();
    run.reset();
    assert_eq!(run.phase(), RunPhase::Idle);
    assert_eq!(run.rec_len(), 0);
    assert!(run.fast_forward());
}

#[test]
fn starting_again_begins_from_tick_zero() {
    let mut run = started(StopWhen::AtTick(300));
    run.repaint();
    run.repaint();
    run.start(Demo::LeaderLeases.scenario(), StopWhen::AtTick(6), flat as Sampler);
    assert_eq!(run.phase(), RunPhase::Generating);
    assert_eq!(run.rec_len(), 0);
    run.repaint();
    assert_eq!(run.frame().map(|f| (f.at, f.nodes.len())), Some((0, 5)));
}

#[test]
fn a_milestone_without_lead_out_stops_on_its_frame() {
    let frames = generate_frames(Demo::OneToOneSuccess.scenario(), third_reply(0), flat as Sampler);
    let last = frames[frames.len() - 1].at;
    let at = third_reply_at();
    assert!(at <= last && last < at + FRAME_TICKS, "stopped at {last}, reply at {at}");
}

#[test]
fn a_lead_out_keeps_the_aftermath_on_screen() {
    let soon = generate_frames(Demo::OneToOneSuccess.scenario(), third_reply(0), flat as Sampler);
    let late = generate_frames(Demo::OneToOneSuccess.scenario(), third_reply(150), flat as Sampler);
    assert_eq!(late.len(), soon.len() + 50);
}

#[test]
fn the_cap_cuts_a_lead_out_short() {
    let at = third_reply_at();
    let cap = at + 30;
    let stop =
        StopWhen::OnNthEvent { n: 3, pred: Milestone::GrantorGotRenewReply, after: 5_000, cap };
    let frames = generate_frames(Demo::OneToOneSuccess.scenario(), stop, flat as Sampler);
    let last = frames[frames.len() - 1].at;
    assert!(last <= cap && cap < last + FRAME_TICKS);
}

#[test]
fn a_milestone_that_never_comes_stops_at_the_cap() {
    let stop = StopWhen::OnNthEvent { n: 1, pred: Milestone::WriteCommitted, after: 0, cap: 1_000 };
    let frames = generate_frames(Demo::OneToOneSuccess.scenario(), stop, flat as Sampler);
    assert_eq!(frames[frames.len() - 1].at, 999);
}

#[test]
fn no_frame_is_past_the_cap() {
    let frames = generate_frames(Scenario::new(2), StopWhen::AtTick(10), flat as Sampler);
    assert_eq!(frames.iter().map(|f| f.at).collect::<Vec<Time>>(), vec![0, 3, 6, 9]);
}

#[test]
fn a_lead_out_between_frames_ends_at_the_frame_after() {
    let soon = generate_frames(Demo::OneToOneSuccess.scenario(), third_reply(0), flat as Sampler);
    let late = generate_frames(Demo::OneToOneSuccess.scenario(), third_reply(8), flat as Sampler);
    assert_eq!(late.len(), soon.len() + 3);
    // The aftermath is on screen to the end of the lead-out, and no frame longer.
    let deadline = soon[soon.len() - 1].at + 8;
    assert!(late[late.len() - 1].at >= deadline);
    assert!(late[late.len() - 2].at < deadline);
}

#[test]
fn live_and_offline_runs_record_the_same_frames() {
    let offline = generate_frames(Demo::OneToOneSuccess.scenario(), third_reply(30), flat as Sampler);
    let mut run = started(third_reply(30));
    let mut k = 0;
    while run.phase() != RunPhase::Stopped {
        run.repaint();
        // Disturb the run every now and then.
        if k % 7 == 0 {
            run.pause();
            run.set_cursor(k / 2);
            run.repaint();
            run.resume();
        }
        if k % 11 == 0 {
            run.toggle_fast_forward();
        }
        k += 1;
    }
    assert_eq!(run.rec_len(), offline.len());
    for (i, frame) in offline.iter().enumerate() {
        run.set_cursor(i);
        assert_eq!(run.frame().map(text), Some(text(frame)));
    }
}

#[test]
fn repaints_keep_what_was_recorded() {
    let mut run = started(StopWhen::AtTick(3_000));
    let mut seen: Vec<String> = vec![];
    for _ in 0..50 {
        run.repaint();
        seen.push(run.frame().map(text).unwrap_or_default());
    }
    for (i, shown) in seen.iter().enumerate() {
        run.set_cursor(i);
        assert_eq!(run.frame().map(text).as_ref(), Some(shown));
    }
}

#[test]
fn grant_bars_cover_the_recorded_frames() {
    let mut run = started(StopWhen::AtTick(1_500));
    while run.phase() != RunPhase::Stopped {
        run.repaint();
    }
    let topology = Topology::from_scenario(&Demo::OneToOneSuccess.scenario());
    let bars = run.grant_bars(&topology);
    assert_eq!(bars.len(), 2);
    for bar in &bars {
        assert_eq!(bar.iter().map(|r| r.frames).sum::<usize>(), run.rec_len());
    }
    // The grantor holds nothing; the grantee comes to hold one grant.
    assert_eq!(bars[0].len(), 1);
    assert_eq!(bars[1].iter().map(|r| r.grants).collect::<Vec<usize>>(), vec![0, 1]);
}

#[test]
fn stop_conditions_know_their_cap() {
    assert_eq!(StopWhen::AtTick(17).cap(), 17);
    assert_eq!(third_reply(0).cap(), 13_000);
    let scenario = Demo::OneToOneSuccess.scenario();
    assert!(StopWhen::AtTick(-1).ends_within(&scenario));
    assert!(third_reply(0).ends_within(&scenario));
    assert!(StopWhen::AtTick(19_998).ends_within(&scenario));
    assert!(StopWhen::AtTick(20_000).ends_within(&scenario));
    assert!(!StopWhen::AtTick(20_001).ends_within(&scenario));
    assert!(!StopWhen::AtTick(i64::MAX).ends_within(&scenario));
}

#[test]
fn milestones_tell_events_apart() {
    let delivered = |from: usize, to: usize, kind: MsgKind| Event {
        at: 5,
        kind: EventKind::MessageDelivered { from, to, kind },
    };
    let lease = LeaseId { grantor: 0, grantee: 1 };
    let granted = |status: LeaseStatus| Event {
        at: 5,
        kind: EventKind::GrantorLease { lease, status },
    };
    let held = |status: LeaseStatus| Event {
        at: 5,
        kind: EventKind::GranteeLease { lease, status },
    };
    let sent = Event {
        at: 5,
        kind: EventKind::MessageSent {
            from: 3,
            to: 0,
            kind: MsgKind::RenewReply,
            sent: 5,
            arrival: 9,
            fate: MsgFate::Delivered,
        },
    };
    let m = Milestone::GrantorGotRenewReply;
    assert!(m.is_met_by(&delivered(1, 0, MsgKind::RenewReply)));
    assert!(!m.is_met_by(&delivered(0, 1, MsgKind::RenewReply)));
    assert!(!m.is_met_by(&delivered(1, 0, MsgKind::GuardReply)));
    assert!(!m.is_met_by(&sent));
    let m = Milestone::GranteeLeaseExpired;
    assert!(m.is_met_by(&held(LeaseStatus::Expired)));
    assert!(!m.is_met_by(&held(LeaseStatus::Active)));
    assert!(!m.is_met_by(&granted(LeaseStatus::Expired)));
    let m = Milestone::GrantorGotRevokeReply;
    assert!(m.is_met_by(&delivered(1, 0, MsgKind::RevokeReply)));
    assert!(!m.is_met_by(&delivered(1, 2, MsgKind::RevokeReply)));
    let m = Milestone::EitherLeaseExpired;
    assert!(m.is_met_by(&granted(LeaseStatus::Expired)));
    assert!(m.is_met_by(&held(LeaseStatus::Expired)));
    assert!(!m.is_met_by(&held(LeaseStatus::Guarding)));
    let m = Milestone::Node3RenewReply;
    assert!(m.is_met_by(&delivered(3, 0, MsgKind::RenewReply)));
    assert!(!m.is_met_by(&delivered(2, 0, MsgKind::RenewReply)));
    let m = Milestone::RenewReachedLeader;
    assert!(m.is_met_by(&delivered(4, 0, MsgKind::Renew)));
    assert!(!m.is_met_by(&delivered(4, 2, MsgKind::Renew)));
    let m = Milestone::RenewReachedHolder;
    assert!(m.is_met_by(&delivered(4, 0, MsgKind::Renew)));
    assert!(m.is_met_by(&delivered(4, 2, MsgKind::Renew)));
    assert!(!m.is_met_by(&delivered(4, 1, MsgKind::Renew)));
    let m = Milestone::WriteCommitted;
    assert!(m.is_met_by(&Event { at: 1, kind: EventKind::WriteCommitted { leader: 2 } }));
    assert!(!m.is_met_by(&Event { at: 1, kind: EventKind::WriteStarted { leader: 2 } }));
    let m = Milestone::AnyRenewDelivered;
    assert!(m.is_met_by(&delivered(4, 1, MsgKind::Renew)));
    assert!(!m.is_met_by(&delivered(4, 1, MsgKind::RenewReply)));
    let events = [
        delivered(4, 1, MsgKind::Renew),
        sent,
        delivered(0, 1, MsgKind::Renew),
    ];
    assert_eq!(Milestone::AnyRenewDelivered.count(&events), 2);
    assert_eq!(Milestone::RenewReachedLeader.count(&events), 0);
}
