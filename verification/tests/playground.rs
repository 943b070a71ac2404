//! Playground tests.

use lease_sim::clock::Time;
use lease_sim::dist::NormalDraw;
use lease_sim::event::{LeaseId, MsgKind};
use lease_sim::playground::{
    all_selected, build_scenario, seed_of, toggle_all, toggle_id, FailRate, Playground, Preset,
    WriteEvery, MAX_TICKS,
};
use lease_sim::prob::Prob;
use lease_sim::rounding::{HALF_UNIT, UNIT};
use lease_sim::run::RunPhase;
use lease_sim::topology::Topology;
use std::collections::BTreeSet;

type Sampler = fn(NormalDraw) -> Time;

fn flat(_: NormalDraw) -> Time {
    0
}

fn set(ids: &[usize]) -> BTreeSet<usize> {
    ids.iter().copied().collect()
}

/// A playground with a run in progress.
fn playing() -> Playground<Sampler> {
    let mut p = Playground::new();
    p.play(1, flat as Sampler);
    p.repaint();
    assert_eq!(p.run().phase(), RunPhase::Generating);
    p
}

#[test]
fn rates_are_the_labelled_probabilities() {
    let rates = [
        (FailRate::Off, 0.0, "Off"),
        (FailRate::Tiny, 0.01, "1%"),
        (FailRate::Low, 0.10, "10%"),
        (FailRate::Mid, 0.30, "30%"),
        (FailRate::All, 1.0, "100%"),
    ];
    for (rate, p, label) in rates {
        let num = UNIT - ((1.0 - p) * UNIT as f64) as u64;
        assert_eq!(rate.prob(), Prob { num }, "{label}");
        assert_eq!(rate.label(), label);
    }
}

#[test]
fn write_cadences_are_as_labelled() {
    assert_eq!((WriteEvery::Never.interval(), WriteEvery::Never.label()), (None, "Never"));
    assert_eq!((WriteEvery::Slow.interval(), WriteEvery::Slow.label()), (Some(3000), "3000 ticks"));
    assert_eq!((WriteEvery::Mid.interval(), WriteEvery::Mid.label()), (Some(1000), "1000 ticks"));
    assert_eq!((WriteEvery::Fast.interval(), WriteEvery::Fast.label()), (Some(300), "300 ticks"));
}

#[test]
fn presets_expand_to_their_shapes() {
    assert_eq!(Preset::OneToOne.expand(), (2, vec![0], vec![1]));
    assert_eq!(Preset::LeaseManager.expand(), (4, vec![0], vec![1, 2, 3]));
    assert_eq!(Preset::Leader.expand(), (5, vec![0, 1, 2, 3, 4], vec![0]));
    assert_eq!(Preset::Quorum.expand(), (5, vec![0, 1, 2, 3, 4], vec![1, 3]));
    assert_eq!(Preset::Roster.expand(), (5, vec![0, 1, 2, 3, 4], vec![0, 1, 2, 3, 4]));
    assert_eq!(
        Preset::Quorum.switches(),
        (FailRate::Tiny, FailRate::Tiny, WriteEvery::Slow, true)
    );
    assert_eq!(
        Preset::OneToOne.switches(),
        (FailRate::Tiny, FailRate::Tiny, WriteEvery::Never, false)
    );
    assert_eq!(Preset::LeaseManager.label(), "Lease Manager");
    assert_eq!(Preset::OneToOne.label(), "One-to-One");
    assert_eq!(Preset::Leader.label(), "Leader Leases");
    assert_eq!(Preset::Quorum.label(), "Quorum Leases");
    assert_eq!(Preset::Roster.label(), "Roster Leases");
}

#[test]
fn scenarios_are_built_from_the_knobs() {
    let t = Topology::new(3, &[2, 0], &[0, 1, 9]);
    let s = build_scenario(
        &t,
        FailRate::All,
        FailRate::Low,
        FailRate::Mid,
        FailRate::Off,
        WriteEvery::Fast,
        true,
        77,
    );
    assert_eq!(s.seed, 77);
    assert_eq!(s.duration, MAX_TICKS);
    assert_eq!(s.nodes.len(), 3);
    for n in &s.nodes {
        assert_eq!(n.initiate_chance, Prob { num: HALF_UNIT });
        assert_eq!(n.fail_chance, Prob { num: 0 });
    }
    assert_eq!(s.kind_drop[MsgKind::Guard.index()], FailRate::All.prob());
    assert_eq!(s.kind_drop[MsgKind::GuardReply.index()], FailRate::Low.prob());
    assert_eq!(s.kind_drop[MsgKind::Renew.index()], FailRate::Mid.prob());
    assert_eq!(s.kind_drop[MsgKind::RenewReply.index()], Prob { num: 0 });
    assert_eq!(s.kind_drop[MsgKind::Revoke.index()], Prob { num: 0 });
    assert_eq!(s.write_interval, Some(300));
    assert!(s.write_disruptive);
    assert_eq!(
        s.leases,
        vec![
            LeaseId { grantor: 0, grantee: 1 },
            LeaseId { grantor: 2, grantee: 0 },
            LeaseId { grantor: 2, grantee: 1 },
        ]
    );
    assert!(s.commands.is_empty() && s.links.is_empty());
    assert!(s.is_valid());
}

#[test]
fn built_scenarios_keep_the_shape() {
    for p in [Preset::OneToOne, Preset::LeaseManager, Preset::Leader, Preset::Quorum, Preset::Roster] {
        let mut bench: Playground<Sampler> = Playground::new();
        bench.apply_preset(p);
        assert!(bench.runnable());
        let t = bench.knobs().topology();
        let back = Topology::from_scenario(&bench.knobs().scenario(5));
        assert_eq!(t.pairs(), back.pairs());
    }
}

#[test]
fn toggling_an_id_twice_restores_the_selection() {
    let mut s = set(&[1, 3]);
    toggle_id(&mut s, 2);
    assert_eq!(s, set(&[1, 2, 3]));
    toggle_id(&mut s, 2);
    assert_eq!(s, set(&[1, 3]));
    toggle_id(&mut s, 3);
    assert_eq!(s, set(&[1]));
}

#[test]
fn toggling_all_fills_then_clears() {
    let mut s = set(&[1]);
    assert!(!all_selected(&s, 3));
    toggle_all(&mut s, 3);
    assert_eq!(s, set(&[0, 1, 2]));
    assert!(all_selected(&s, 3));
    toggle_all(&mut s, 3);
    assert_eq!(s, set(&[]));
    // More than all is not all.
    let mut s = set(&[0, 1, 2]);
    assert!(!all_selected(&s, 2));
    assert!(!all_selected(&s, 4));
    toggle_all(&mut s, 2);
    assert_eq!(s, set(&[0, 1]));
    assert!(all_selected(&set(&[]), 0));
    assert!(!all_selected(&set(&[0, 2]), 2));
}

#[test]
fn the_playground_opens_one_to_one() {
    let p: Playground<Sampler> = Playground::new();
    let k = p.knobs();
    assert_eq!(k.node_count, 2);
    assert_eq!((k.grantors.clone(), k.grantees.clone()), (set(&[0]), set(&[1])));
    assert_eq!(k.preset, Some(Preset::OneToOne));
    assert_eq!((k.guard_fail, k.guard_reply_fail), (FailRate::Tiny, FailRate::Tiny));
    assert_eq!((k.renew_fail, k.renew_reply_fail), (FailRate::Tiny, FailRate::Tiny));
    assert_eq!((k.write_every, k.write_disruptive), (WriteEvery::Never, false));
    assert_eq!(p.run().phase(), RunPhase::Idle);
    assert!(p.runnable());
}

#[test]
fn resizing_stays_within_bounds_and_drops_lost_ids() {
    let mut p = playing();
    p.apply_preset(Preset::Roster);
    p.set_node_count(3);
    assert_eq!(p.knobs().node_count, 3);
    assert_eq!(p.knobs().grantors, set(&[0, 1, 2]));
    assert_eq!(p.knobs().grantees, set(&[0, 1, 2]));
    assert_eq!(p.knobs().preset, None);
    p.set_node_count(0);
    assert_eq!(p.knobs().node_count, 2);
    p.set_node_count(100);
    assert_eq!(p.knobs().node_count, 9);
    assert_eq!(p.knobs().grantors, set(&[0, 1]));
}

#[test]
fn editing_the_shape_discards_the_run_and_the_preset() {
    let mut p = playing();
    p.toggle_grantor(1);
    assert_eq!(p.run().phase(), RunPhase::Idle);
    assert_eq!(p.knobs().preset, None);
    assert_eq!(p.knobs().grantors, set(&[0, 1]));
    let mut p = playing();
    p.toggle_grantee(1);
    assert_eq!(p.run().rec_len(), 0);
    assert!(!p.runnable());
    let mut p = playing();
    p.toggle_all_grantors();
    assert_eq!(p.knobs().grantors, set(&[0, 1]));
    assert_eq!(p.run().phase(), RunPhase::Idle);
    let mut p = playing();
    p.toggle_all_grantees();
    p.toggle_all_grantees();
    assert_eq!(p.knobs().grantees, set(&[]));
    assert_eq!(p.run().phase(), RunPhase::Idle);
}

#[test]
fn load_switches_discard_the_run_but_keep_the_preset() {
    let mut p = playing();
    p.set_guard_fail(FailRate::All);
    assert_eq!(p.run().phase(), RunPhase::Idle);
    p.set_guard_reply_fail(FailRate::Low);
    p.set_renew_fail(FailRate::Mid);
    p.set_renew_reply_fail(FailRate::Off);
    p.set_write_every(WriteEvery::Mid);
    p.set_write_disruptive(true);
    let k = p.knobs();
    assert_eq!(k.preset, Some(Preset::OneToOne));
    assert_eq!((k.guard_fail, k.guard_reply_fail), (FailRate::All, FailRate::Low));
    assert_eq!((k.renew_fail, k.renew_reply_fail), (FailRate::Mid, FailRate::Off));
    assert_eq!((k.write_every, k.write_disruptive), (WriteEvery::Mid, true));
    // A preset resets the switches, reply drops included.
    p.apply_preset(Preset::Quorum);
    let k = p.knobs();
    assert_eq!((k.guard_fail, k.guard_reply_fail), (FailRate::Tiny, FailRate::Tiny));
    assert_eq!((k.write_every, k.write_disruptive), (WriteEvery::Slow, true));
}

#[test]
fn play_without_a_lease_does_nothing() {
    let mut p: Playground<Sampler> = Playground::new();
    p.toggle_grantor(0);
    p.play(3, flat as Sampler);
    assert_eq!(p.run().phase(), RunPhase::Idle);
}

#[test]
fn the_run_is_driven_through_the_playground() {
    let mut p = playing();
    p.pause();
    assert_eq!(p.run().phase(), RunPhase::Paused);
    p.scrub(0);
    assert_eq!(p.run().cursor(), 0);
    p.resume();
    p.toggle_fast_forward();
    p.repaint();
    assert_eq!(p.run().rec_len(), 4);
    p.restart();
    assert_eq!(p.run().phase(), RunPhase::Idle);
    assert!(p.run().fast_forward());
}

#[test]
fn the_same_seed_replays_the_same_run() {
    let history = |seed: u64| {
        let mut p: Playground<Sampler> = Playground::new();
        p.apply_preset(Preset::Roster);
        p.set_guard_fail(FailRate::Mid);
        p.play(seed, flat as Sampler);
        for _ in 0..600 {
            p.repaint();
        }
        format!("{:?}", p.run().grant_bars(&p.knobs().topology()))
    };
    assert_eq!(history(11), history(11));
    assert_ne!(history(11), history(12));
}

#[test]
fn seeds_are_made_of_two_halves() {
    assert_eq!(seed_of(0, 7), 7);
    assert_eq!(seed_of(1, 0), 1 << 32);
    assert_eq!(seed_of(u32::MAX, u32::MAX), u64::MAX);
    assert_eq!(seed_of(0xdead_beef, 0x0bad_cafe), 0xdead_beef_0bad_cafe);
}
