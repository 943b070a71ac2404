use lease_sim::clock::Time;
use lease_sim::demos::{
    lease_manager_handover, leader_leases, one_to_one_guard_reply_lost,
    one_to_one_renew_replies_lost, one_to_one_revoked, one_to_one_success, quorum_leases,
    quorum_leases_write_disruption, roster_leases,
};
use lease_sim::dist::NormalDraw;
use lease_sim::engine::Engine;
use lease_sim::event::{EventKind, LeaseStatus, MsgKind};
use lease_sim::frame::Fraction;
use lease_sim::rounding::UNIT;
use lease_sim::scenario::Scenario;
use std::collections::BTreeMap;

/// Box-Muller: the tick nearest to a Gaussian sample.
fn normal_ticks(d: NormalDraw) -> Time {
    let unit = UNIT as f64;
    let u1 = (d.u1 as f64 / unit).max(f64::MIN_POSITIVE);
    let u2 = d.u2 as f64 / unit;
    let z = (-2.0 * u1.ln()).sqrt() * (core::f64::consts::TAU * u2).cos();
    (f64::from_bits(d.mean) + f64::from_bits(d.std) * z).round() as Time
}

fn value(f: Fraction) -> f64 {
    f.num as f64 / f.den as f64
}

type Sampler = fn(NormalDraw) -> Time;

fn engine(scenario: Scenario) -> Engine<Sampler> {
    assert!(scenario.is_valid());
    Engine::new(scenario, normal_ticks as Sampler)
}

/// Grantee's held status for lease `grantor -> grantee` at the engine's
/// current frame time.
fn grantee_status(eng: &Engine<Sampler>, t: Time) -> LeaseStatus {
    eng.frame_at(t).leases[0].grantee_status
}

#[test]
fn one_to_one_success_establishes_and_stays_active() {
    let mut eng = engine(one_to_one_success());

    // Before the scripted initiate the lease is idle.
    eng.advance_to(200);
    assert_eq!(grantee_status(&eng, 200), LeaseStatus::Inactive);

    // It establishes within a couple of round-trips of the t=300 guard.
    eng.advance_to(1500);
    assert_eq!(grantee_status(&eng, 1500), LeaseStatus::Active);

    // And, with no message loss, it stays active through steady renewals —
    // including the tick the walkthrough canvas stops at (13_000) and beyond.
    for t in [3000, 6000, 12000, 13000, 19000] {
        eng.advance_to(t);
        assert_eq!(
            grantee_status(&eng, t),
            LeaseStatus::Active,
            "lease should still be held at t={t}"
        );
    }
}

#[test]
fn one_to_one_success_grantor_stays_active_too() {
    // The grantor side (what colors the OUT bar) must also hold: no stale-
    // renew give-up on a perfectly reliable link.
    let mut eng = engine(one_to_one_success());
    for t in [1500, 6000, 13000] {
        eng.advance_to(t);
        assert_eq!(
            eng.frame_at(t).leases[0].grantor_status,
            LeaseStatus::Active,
            "grantor should still grant at t={t}"
        );
    }
}

#[test]
fn one_to_one_success_reaches_third_renew_reply() {
    // The walkthrough canvas stops when the grantor receives its 3rd
    // `RenewReply` (a `MsgKind::RenewReply` delivered *to* node 0). Confirm
    // that event actually occurs within the scenario's duration, the lease is
    // active by then, and it lands comfortably before the stochastic run's end.
    let mut eng = engine(one_to_one_success());
    let events = eng.advance_to(20_000);
    let mut nth_reply_at: Option<Time> = None;
    let mut seen = 0;
    for ev in &events {
        if let EventKind::MessageDelivered {
            to: 0,
            kind: MsgKind::RenewReply,
            ..
        } = ev.kind
        {
            seen += 1;
            if seen == 3 {
                nth_reply_at = Some(ev.at);
                break;
            }
        }
    }
    let at = nth_reply_at.expect("grantor should receive a 3rd RenewReply");
    // Renews go out every ~600 ticks after activation (~1000), each replied a
    // round-trip later, so the 3rd reply lands well within the 13k-tick cap.
    assert!(at < 6_000, "3rd RenewReply came late, at t={at}");
    eng.advance_to(at);
    assert_eq!(
        eng.frame_at(at).leases[0].grantee_status,
        LeaseStatus::Active,
        "lease should be active by the 3rd RenewReply"
    );
}

#[test]
fn one_to_one_guard_reply_lost_drops_ack_then_grantor_gives_up() {
    // The grantee acks the guard, but every `GuardReply` is dropped. Confirm:
    // a `GuardReply` from node 1 is actually dropped, and (with no
    // re-initiation) the grantor never activates — it returns to idle after
    // its guard window lapses and stays there.
    let mut eng = engine(one_to_one_guard_reply_lost());
    let events = eng.advance_to(20_000);

    let drop_at = events.iter().find_map(|ev| match ev.kind {
        EventKind::MessageDropped {
            from: 1,
            kind: MsgKind::GuardReply,
            ..
        } => Some(ev.at),
        _ => None,
    });
    let drop_at = drop_at.expect("the grantee's GuardReply should be dropped");
    // The guard goes out at t=300, reaches the grantee a message-delay later,
    // and its ack is dropped on the way back — so the drop lands within a
    // couple of message delays of the guard.
    assert!(drop_at < 1_200, "GuardReply drop came late, at t={drop_at}");

    // Never activates on either side, at any point in the run.
    for t in [drop_at, drop_at + 600, 3_000, 10_000, 20_000] {
        let f = eng.frame_at(t);
        assert_ne!(
            f.leases[0].grantor_status,
            LeaseStatus::Active,
            "grantor must never activate (t={t})"
        );
        assert_ne!(
            f.leases[0].grantee_status,
            LeaseStatus::Active,
            "grantee must never activate (t={t})"
        );
    }

    // And once its guard window lapses the grantor is idle again (not stuck
    // guarding) — a fresh guard could start, but nothing re-initiates it.
    let f = eng.frame_at(3_000);
    assert_ne!(
        f.leases[0].grantor_status,
        LeaseStatus::Guarding,
        "grantor should not stay stuck in the guard phase"
    );
}

#[test]
fn one_to_one_guard_reply_lost_both_guards_expire_grantee_last() {
    // The walkthrough canvas stops "when both guard timers expire" — the later
    // of the grantor's guard-window lapse (no event) and the grantee's
    // guard-window lapse (emits a grantee `Expired`). Confirm the grantee's
    // guard `Expired` event fires, and that by then the grantor is already out
    // of its guard (so this really is the *last* of the two to expire).
    let mut eng = engine(one_to_one_guard_reply_lost());
    let events = eng.advance_to(20_000);

    let grantee_expired_at = events.iter().find_map(|ev| match ev.kind {
        EventKind::GranteeLease {
            status: LeaseStatus::Expired,
            ..
        } => Some(ev.at),
        _ => None,
    });
    let at = grantee_expired_at.expect("grantee's guard window should lapse to Expired");
    // Guard window is `t_guard - t_delta = 1400`; receipt is a message-delay
    // after the t=300 guard, so the lapse lands roughly t≈1.5–2k.
    assert!(
        (1_000..3_000).contains(&at),
        "grantee guard expiry landed oddly, at t={at}"
    );

    // The grantor gave up first: its guard window (`t_guard - t_delta = 1400`)
    // runs from the earlier t=300 send, so it lapses (~t=1700) before the
    // grantee's does — by the grantee's expiry it is no longer guarding, so the
    // grantee is the last to expire.
    let f = eng.frame_at(at);
    assert_ne!(
        f.leases[0].grantor_status,
        LeaseStatus::Guarding,
        "grantor should already be out of its guard by the grantee's expiry"
    );
}

#[test]
fn one_to_one_revoked_establishes_renews_then_revoke_is_acked() {
    // Establishes, exchanges exactly two renews, then the t=1920 revoke drops
    // the grantee's hold and it acks with a `RevokeReply`. Confirm: active
    // before the revoke, exactly two renews sent (no stray 3rd), a grantee
    // `Expired` at the revoke, and a `RevokeReply` delivered back to the grantor.
    // Active and holding just before the scripted revoke (sampled on its own
    // engine — `advance_to` only moves forward, so we can't rewind after the
    // full run below).
    {
        let mut probe = engine(one_to_one_revoked());
        probe.advance_to(1_900);
        assert_eq!(
            probe.frame_at(1_900).leases[0].grantee_status,
            LeaseStatus::Active,
            "lease should be active before the revoke"
        );
    }

    let mut eng = engine(one_to_one_revoked());
    let events = eng.advance_to(20_000);

    // Exactly two renews are sent — the grantor revokes (t=1920) before the
    // 3rd would fall due (~1950), so no stray renew goes out alongside it.
    let renews_sent = events
        .iter()
        .filter(|ev| {
            matches!(
                ev.kind,
                EventKind::MessageSent {
                    from: 0,
                    kind: MsgKind::Renew,
                    ..
                }
            )
        })
        .count();
    assert_eq!(renews_sent, 2, "grantor should send exactly two renews");

    // The revoke ack round-trips back to the grantor.
    let ack_at = events.iter().find_map(|ev| match ev.kind {
        EventKind::MessageDelivered {
            to: 0,
            kind: MsgKind::RevokeReply,
            ..
        } => Some(ev.at),
        _ => None,
    });
    let ack_at = ack_at.expect("grantor should receive a RevokeReply");
    assert!(
        (2_000..3_000).contains(&ack_at),
        "revoke ack landed oddly, at t={ack_at}"
    );
    // The grantee dropped its hold once revoked.
    assert_eq!(
        eng.frame_at(ack_at).leases[0].grantee_status,
        LeaseStatus::Expired,
        "grantee should have dropped its hold by the revoke ack"
    );
    // On the ack the grantor leaves the granting state (rather than waiting for
    // its padded `D'` to lapse) — so its OUT timer bar grays out at that moment.
    let grantor_expired_at = events.iter().find_map(|ev| match ev.kind {
        EventKind::GrantorLease {
            status: LeaseStatus::Expired,
            ..
        } => Some(ev.at),
        _ => None,
    });
    assert_eq!(
        grantor_expired_at,
        Some(ack_at),
        "grantor should expire exactly when the revoke ack arrives"
    );
}

#[test]
fn one_to_one_renew_replies_lost_both_sides_expire() {
    // Establishes and renews once, then all renew acks are dropped from t=1300.
    // The grantor stops hearing back and eventually both sides expire. Confirm
    // exactly one grantor `Expired` and one grantee `Expired` fire, and capture
    // the later of the two (when "both timers have expired").
    // It did establish first (one renew reply got through before t=1300) —
    // sampled on its own engine since `advance_to` only moves forward.
    {
        let mut probe = engine(one_to_one_renew_replies_lost());
        probe.advance_to(1_200);
        assert_eq!(
            probe.frame_at(1_200).leases[0].grantee_status,
            LeaseStatus::Active,
            "lease should have established before renew acks go silent"
        );
    }

    let mut eng = engine(one_to_one_renew_replies_lost());
    let events = eng.advance_to(20_000);

    let grantor_expired = events.iter().find_map(|ev| match ev.kind {
        EventKind::GrantorLease {
            status: LeaseStatus::Expired,
            ..
        } => Some(ev.at),
        _ => None,
    });
    let grantee_expired = events.iter().find_map(|ev| match ev.kind {
        EventKind::GranteeLease {
            status: LeaseStatus::Expired,
            ..
        } => Some(ev.at),
        _ => None,
    });
    let g0 = grantor_expired.expect("grantor should expire when acks go silent");
    let g1 = grantee_expired.expect("grantee should expire when renews stop");
    // Both land within a few lease lifetimes; the run captures the later one.
    let both = g0.max(g1);
    assert!(both < 8_000, "both-expired landed late, at t={both}");
    assert_ne!(
        eng.frame_at(both).leases[0].grantee_status,
        LeaseStatus::Active
    );
    assert_ne!(
        eng.frame_at(both).leases[0].grantor_status,
        LeaseStatus::Active
    );
}

#[test]
fn one_to_one_renew_replies_lost_grantor_stops_after_unacked_renew() {
    // One renew in flight: the grantor sends a renew only after the previous
    // one is acked. Here the first renew is acked but every reply after that is
    // dropped, so the grantor sends *exactly one* un-acked renew and then goes
    // silent (rather than streaming renews on a fixed cadence until the
    // reply-timeout). Count the renews sent after the last delivered reply.
    let mut eng = engine(one_to_one_renew_replies_lost());
    let events = eng.advance_to(20_000);

    let last_reply_at = events
        .iter()
        .filter_map(|ev| match ev.kind {
            EventKind::MessageDelivered {
                to: 0,
                kind: MsgKind::RenewReply,
                ..
            } => Some(ev.at),
            _ => None,
        })
        .next_back()
        .expect("at least one renew reply gets through");

    let renews_after_last_reply = events
        .iter()
        .filter(|ev| {
            matches!(
                ev.kind,
                EventKind::MessageSent {
                    from: 0,
                    kind: MsgKind::Renew,
                    ..
                }
            ) && ev.at > last_reply_at
        })
        .count();
    assert_eq!(
        renews_after_last_reply, 1,
        "grantor should send exactly one un-acked renew, then stop (sent {renews_after_last_reply})"
    );
}

#[test]
fn one_to_one_renew_replies_lost_grantor_bar_tracks_expiry() {
    // Regression: the grantor's countdown bar reads its real `D'`
    // (`grant_expiry`) normalized by the span `D'` is provisioned over, so it
    // is *always draining* — never pegged flat-full — and reaches 0 exactly at
    // expiry. This guards two past bugs: (a) a stale separate display timer that
    // emptied thousands of ticks before gray-out, and (b) normalizing the
    // over-provisioned `D'` by only `t_lease`, which pegged the bar at 1.0 until
    // `local` came within a span of `D'`.
    let grantor_expired_at = {
        let mut e = engine(one_to_one_renew_replies_lost());
        e.advance_to(20_000)
            .iter()
            .find_map(|ev| match ev.kind {
                EventKind::GrantorLease {
                    status: LeaseStatus::Expired,
                    ..
                } => Some(ev.at),
                _ => None,
            })
            .expect("grantor expires")
    };

    let sample = |t: Time| {
        let mut e = engine(one_to_one_renew_replies_lost());
        e.advance_to(t);
        value(e.frame_at(t).leases[0].grantor_fill)
    };

    // Never pegged flat-full while healthy: two samples a little apart within
    // the same renew interval must differ (the bar is draining, not clamped).
    // Both are past the last confirming renew reply, so nothing re-arms between.
    let a = sample(4_000);
    let b = sample(4_250);
    assert!(
        a < 1.0 && b < a,
        "bar should be draining, not pegged: {a} -> {b}"
    );

    // Drain lines up with the real `D'` gray-out: still clearly filled a lease
    // span before expiry (the bar drains over the ~`t_guard + t_lease + 2·t_delta`
    // grant span, so a `t_lease` before the end it's roughly a third full), and
    // near-empty just before it — not bottomed out thousands of ticks early.
    assert!(
        sample(grantor_expired_at - 1_400) > 0.3,
        "bar should still be clearly filled one span before expiry"
    );
    assert!(
        sample(grantor_expired_at - 50) < 0.1,
        "bar should be nearly empty just before expiry"
    );
}

/// Grantee's held status for lease `0 -> h` at the engine's current frame.
fn held_status(eng: &Engine<Sampler>, h: usize, t: Time) -> LeaseStatus {
    let f = eng.frame_at(t);
    f.leases
        .iter()
        .find(|b| b.grantor == 0 && b.grantee == h)
        .expect("lease 0->h declared")
        .grantee_status
}

#[test]
fn lease_manager_handover_scripts_hit_their_milestones() {
    // The scripted ticks depend on the run's timing, so pin the two data-driven
    // ones: the revoke of 1 must land *after* node 1's 2nd renew reply, and the
    // guard of 3 must land *after* node 1's revoke ack reaches the grantor.
    let mut eng = engine(lease_manager_handover());
    let events = eng.advance_to(20_000);

    // Node 1's renew replies delivered to the grantor, in order.
    let n1_renew_replies: Vec<Time> = events
        .iter()
        .filter_map(|ev| match ev.kind {
            EventKind::MessageDelivered {
                from: 1,
                to: 0,
                kind: MsgKind::RenewReply,
            } => Some(ev.at),
            _ => None,
        })
        .collect();
    assert!(
        n1_renew_replies.len() >= 2,
        "node 1 should exchange >=2 renews before the handover"
    );
    // The Revoke(0->1) is scripted at t=1900; it must follow the 2nd reply.
    assert!(
        n1_renew_replies[1] < 1_900,
        "revoke should fire after node 1's 2nd renew reply (2nd at {})",
        n1_renew_replies[1]
    );

    // Node 1's revoke ack reaches the grantor, and the guard of 3 (t=2500)
    // follows it.
    let revoke_ack_at = events
        .iter()
        .find_map(|ev| match ev.kind {
            EventKind::MessageDelivered {
                from: 1,
                to: 0,
                kind: MsgKind::RevokeReply,
            } => Some(ev.at),
            _ => None,
        })
        .expect("grantor should receive node 1's revoke ack");
    assert!(
        revoke_ack_at < 2_500,
        "guarding 3 should start after 1's revoke ack (ack at {revoke_ack_at})"
    );
    let guard3_at = events
        .iter()
        .find_map(|ev| match ev.kind {
            EventKind::MessageSent {
                from: 0,
                to: 3,
                kind: MsgKind::Guard,
                ..
            } => Some(ev.at),
            _ => None,
        })
        .expect("grantor should guard node 3");
    assert!(guard3_at >= revoke_ack_at, "guard 3 after the revoke ack");
}

#[test]
fn lease_manager_handover_two_holds_then_one_two_three() {
    // Snapshot the three grantees' held status at key moments (fresh engines,
    // since `advance_to` only moves forward):
    let held = |h: usize, t: Time| {
        let mut e = engine(lease_manager_handover());
        e.advance_to(t);
        held_status(&e, h, t)
    };

    // Early: 1 and 2 hold, 3 is idle.
    assert_eq!(held(1, 1_500), LeaseStatus::Active, "1 held early");
    assert_eq!(held(2, 1_500), LeaseStatus::Active, "2 held early");
    assert_eq!(held(3, 1_500), LeaseStatus::Inactive, "3 idle early");

    // After the handover settles: 1 dropped, 2 still held (never interrupted),
    // 3 now held.
    assert_ne!(
        held(1, 3_500),
        LeaseStatus::Active,
        "1 dropped after handover"
    );
    assert_eq!(
        held(2, 3_500),
        LeaseStatus::Active,
        "2 rides on, still held"
    );
    assert_eq!(
        held(3, 3_500),
        LeaseStatus::Active,
        "3 established after handover"
    );
}

#[test]
fn lease_manager_handover_node2_never_interrupted() {
    // Node 2's grant is never revoked, so it stays continuously held from the
    // moment it activates through the whole handover — no gap.
    // Sampled densely across the handover window on fresh engines.
    for t in (1_000..=4_000).step_by(250) {
        let mut e = engine(lease_manager_handover());
        e.advance_to(t);
        assert_eq!(
            held_status(&e, 2, t),
            LeaseStatus::Active,
            "node 2 should stay held throughout the handover (t={t})"
        );
    }
}

#[test]
fn leader_leases_all_followers_grant_the_leader() {
    // 5 nodes, all-to-one: each follower's `(g -> 0)` grant should activate,
    // so the leader holds all four — a majority (3 of 5, counting itself).
    let mut eng = engine(leader_leases());
    eng.advance_to(1_500);
    let f = eng.frame_at(1_500);
    let held = f
        .leases
        .iter()
        .filter(|b| b.grantee == 0 && b.grantee_status == LeaseStatus::Active)
        .count();
    assert_eq!(held, 4, "leader should hold all four follower grants");
}

#[test]
fn leader_leases_every_follower_renews_at_least_thrice() {
    // The canvas stops on the 12th `Renew` to reach the leader (4 grantors × 3).
    // Confirm that milestone lands where expected and that by it every follower
    // has renewed the leader at least three times.
    let mut eng = engine(leader_leases());
    let events = eng.advance_to(20_000);

    let mut per_follower: BTreeMap<usize, usize> = BTreeMap::new();
    let mut twelfth_at = None;
    let mut total = 0;
    for ev in &events {
        if let EventKind::MessageDelivered {
            from,
            to: 0,
            kind: MsgKind::Renew,
        } = ev.kind
        {
            *per_follower.entry(from).or_default() += 1;
            total += 1;
            if total == 12 {
                twelfth_at = Some(ev.at);
                break;
            }
        }
    }
    let at = twelfth_at.expect("leader should receive a 12th renew");
    assert!(at < 4_000, "12th renew to leader came late, at t={at}");
    // Every one of the 4 followers has renewed the leader >= 3 times by then.
    assert_eq!(per_follower.len(), 4, "all four followers renew the leader");
    assert!(
        per_follower.values().all(|&c| c >= 3),
        "every follower should have renewed the leader >=3 times: {per_follower:?}"
    );
}

#[test]
fn quorum_leases_both_holders_establish_a_majority() {
    // Two holders (0 and 2), each granted by the other four → each holds all
    // four grants (a majority of 5, counting itself).
    let mut eng = engine(quorum_leases());
    eng.advance_to(1_500);
    let f = eng.frame_at(1_500);
    for h in [0usize, 2] {
        let held = f
            .leases
            .iter()
            .filter(|b| b.grantee == h && b.grantee_status == LeaseStatus::Active)
            .count();
        assert_eq!(held, 4, "holder {h} should hold all four grants");
    }
}

#[test]
fn quorum_leases_both_holders_renew_thrice_by_24th() {
    // The canvas stops on the 24th `Renew` to reach a holder (2 holders × 4
    // grantors × 3 rounds). By then *both* holders must have been renewed >= 3
    // times by every one of their four grantors.
    let mut eng = engine(quorum_leases());
    let events = eng.advance_to(20_000);

    // per holder -> per grantor renew count, tallied up to the 24th overall.
    let mut per_holder: BTreeMap<usize, BTreeMap<usize, usize>> = BTreeMap::new();
    let mut total = 0;
    let mut twenty_fourth_at = None;
    for ev in &events {
        if let EventKind::MessageDelivered {
            from,
            to,
            kind: MsgKind::Renew,
        } = ev.kind
        {
            if to != 0 && to != 2 {
                continue;
            }
            *per_holder.entry(to).or_default().entry(from).or_default() += 1;
            total += 1;
            if total == 24 {
                twenty_fourth_at = Some(ev.at);
                break;
            }
        }
    }
    let at = twenty_fourth_at.expect("holders should receive a 24th renew");
    assert!(at < 4_000, "24th renew to a holder came late, at t={at}");
    for h in [0usize, 2] {
        let per = per_holder.get(&h).expect("holder renewed");
        assert_eq!(per.len(), 4, "holder {h} renewed by all four grantors");
        assert!(
            per.values().all(|&c| c >= 3),
            "holder {h} should be renewed >=3 times by each grantor: {per:?}"
        );
    }
}

#[test]
fn quorum_write_disruption_tears_down_then_re_establishes() {
    // The write at t=2000 tears every held lease down (both holders lose all
    // their grants), then the cluster re-establishes: by well after the commit
    // both holders again hold all four grants.
    // Before the write: both holders hold their majority (sampled on its own
    // engine — advance_to only moves forward).
    let held_at = |t: Time, h: usize| {
        let mut e = engine(quorum_leases_write_disruption());
        e.advance_to(t);
        e.frame_at(t)
            .leases
            .iter()
            .filter(|b| b.grantee == h && b.grantee_status == LeaseStatus::Active)
            .count()
    };
    assert_eq!(
        held_at(1_900, 0),
        4,
        "holder 0 established before the write"
    );
    assert_eq!(
        held_at(1_900, 2),
        4,
        "holder 2 established before the write"
    );

    // Once the write has swept the cluster (its `Write`s delivered ~t=2200),
    // both holders are torn down (0 grants held).
    assert_eq!(held_at(2_300, 0), 0, "holder 0 suspended by the write");
    assert_eq!(held_at(2_300, 2), 0, "holder 2 suspended by the write");

    // Well after the commit, both holders have re-established their majority.
    assert_eq!(held_at(6_000, 0), 4, "holder 0 re-established after commit");
    assert_eq!(held_at(6_000, 2), 4, "holder 2 re-established after commit");
}

#[test]
fn quorum_write_disruption_recovery_is_commit_driven_via_guard() {
    // Recovery is deterministic and guard-based: after the commit, fresh
    // `Guard` messages re-open every torn-down grant (no reliance on stochastic
    // re-initiation). Confirm guards fire *after* the commit and both holders
    // then renew three full rounds again.
    let mut eng = engine(quorum_leases_write_disruption());
    let events = eng.advance_to(14_000);

    let commit_at = events
        .iter()
        .find_map(|ev| match ev.kind {
            EventKind::WriteCommitted { .. } => Some(ev.at),
            _ => None,
        })
        .expect("the write commits");
    // `>=` because the leader commits locally and re-guards its own grant in
    // the same tick as the commit; peers re-guard on the `Commit` they receive.
    let guards_at_or_after_commit = events
        .iter()
        .filter(|ev| {
            matches!(
                ev.kind,
                EventKind::MessageSent {
                    kind: MsgKind::Guard,
                    ..
                }
            ) && ev.at >= commit_at
        })
        .count();
    assert!(
        guards_at_or_after_commit >= 8,
        "every torn-down grant should re-guard after the commit (saw {guards_at_or_after_commit})"
    );

    // Both holders complete 3 post-commit renew rounds from all four grantors.
    let mut post: BTreeMap<usize, BTreeMap<usize, usize>> = BTreeMap::new();
    let mut committed = false;
    let mut milestone = None;
    for ev in &events {
        match ev.kind {
            EventKind::WriteCommitted { .. } => committed = true,
            EventKind::MessageDelivered {
                from,
                to,
                kind: MsgKind::Renew,
            } if committed && (to == 0 || to == 2) => {
                *post.entry(to).or_default().entry(from).or_default() += 1;
                let done = [0usize, 2].iter().all(|h| {
                    post.get(h)
                        .is_some_and(|m| m.len() == 4 && m.values().all(|&c| c >= 3))
                });
                if done && milestone.is_none() {
                    milestone = Some(ev.at);
                }
            }
            _ => {}
        }
    }
    let at = milestone.expect("both holders should re-renew 3 rounds post-commit");
    assert!(
        at < 8_000,
        "post-commit 3-round milestone came late, at t={at}"
    );
}

#[test]
fn roster_leases_full_mesh_renews_three_rounds() {
    // 5 nodes all-to-all → 20 leases. The canvas stops on the 60th `Renew`
    // delivered (20 leases × 3 rounds). Confirm all 20 leases exist, every one
    // has renewed >= 3 times by that milestone, and it lands where expected.
    let mut eng = engine(roster_leases());
    let events = eng.advance_to(20_000);

    let mut per_lease: BTreeMap<(usize, usize), usize> = BTreeMap::new();
    let mut total = 0;
    let mut sixtieth_at = None;
    for ev in &events {
        if let EventKind::MessageDelivered {
            from,
            to,
            kind: MsgKind::Renew,
        } = ev.kind
        {
            *per_lease.entry((from, to)).or_default() += 1;
            total += 1;
            if total == 60 {
                sixtieth_at = Some(ev.at);
                break;
            }
        }
    }
    let at = sixtieth_at.expect("mesh should deliver a 60th renew");
    assert!(at < 4_000, "60th renew came late, at t={at}");
    assert_eq!(per_lease.len(), 20, "all 20 ordered-pair leases renew");
    assert!(
        per_lease.values().all(|&c| c >= 3),
        "every lease should have renewed >=3 times: {per_lease:?}"
    );
}

#[test]
fn roster_leases_every_node_holds_a_majority() {
    // Each node is a grantee of the other four, so once the mesh establishes it
    // holds all four grants — a majority (3 of 5, counting itself) → a stable
    // roster at every node.
    let mut eng = engine(roster_leases());
    eng.advance_to(1_500);
    let f = eng.frame_at(1_500);
    for node in 0..5 {
        let held = f
            .leases
            .iter()
            .filter(|b| b.grantee == node && b.grantee_status == LeaseStatus::Active)
            .count();
        assert_eq!(held, 4, "node {node} should hold all four grants");
    }
}
