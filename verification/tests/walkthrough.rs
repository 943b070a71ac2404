//! Walkthrough canvas tests.

use lease_sim::clock::Time;
use lease_sim::content::{Block, RecapRow, Section, Widget};
use lease_sim::demos::Demo;
use lease_sim::dist::NormalDraw;
use lease_sim::frame::Fraction;
use lease_sim::milestone::Milestone;
use lease_sim::run::{generate_frames, RunPhase, SimRun, StopWhen};
use lease_sim::text::same_text;
use lease_sim::topology::Topology;
use lease_sim::walkthrough::{lookup, LEAD_OUT};

type Sampler = fn(NormalDraw) -> Time;

fn flat(_: NormalDraw) -> Time {
    0
}

const NAMES: [(&str, Demo); 9] = [
    ("one-to-one-success", Demo::OneToOneSuccess),
    ("one-to-one-guard-reply-lost", Demo::OneToOneGuardReplyLost),
    ("one-to-one-revoked", Demo::OneToOneRevoked),
    ("one-to-one-renew-replies-lost", Demo::OneToOneRenewRepliesLost),
    ("lease-manager-handover", Demo::LeaseManagerHandover),
    ("leader-leases", Demo::LeaderLeases),
    ("quorum-leases", Demo::QuorumLeases),
    ("quorum-leases-write-disruption", Demo::QuorumLeasesWriteDisruption),
    ("roster-leases", Demo::RosterLeases),
];

#[test]
fn every_figure_is_found_under_its_name() {
    for (name, demo) in NAMES {
        let spec = lookup(name);
        assert_eq!(spec.map(|s| s.demo), Some(demo), "{name}");
    }
}

#[test]
fn unknown_figures_are_not_found() {
    for name in ["", "roster", "roster-leases ", "Roster-leases", "one-to-one"] {
        assert!(lookup(name).is_none(), "{name}");
    }
}

#[test]
fn figures_carry_their_titles_and_stops() {
    let spec = lookup("one-to-one-success").unwrap();
    assert_eq!(spec.title, "Lease established and kept alive");
    assert_eq!(
        spec.stop,
        StopWhen::OnNthEvent {
            n: 3,
            pred: Milestone::GrantorGotRenewReply,
            after: 0,
            cap: 13_000,
        }
    );
    assert_eq!(spec.fit_pad, Fraction { num: 0, den: 100 });
    let spec = lookup("roster-leases").unwrap();
    assert_eq!(spec.title, "All-to-all leasing on a roster metadata");
    assert_eq!(
        spec.stop,
        StopWhen::OnNthEvent {
            n: 60,
            pred: Milestone::AnyRenewDelivered,
            after: LEAD_OUT,
            cap: 8_000,
        }
    );
    assert_eq!(spec.fit_pad, Fraction { num: 5, den: 100 });
    assert_eq!(
        lookup("quorum-leases-write-disruption").unwrap().stop,
        StopWhen::OnNthEvent { n: 1, pred: Milestone::WriteCommitted, after: 2_300, cap: 9_000 }
    );
    assert_eq!(
        lookup("one-to-one-guard-reply-lost").unwrap().title,
        "Guard msg/reply missing, not established"
    );
    assert_eq!(lookup("one-to-one-revoked").unwrap().title, "Proactively revoked by grantor");
    assert_eq!(
        lookup("one-to-one-renew-replies-lost").unwrap().title,
        "Failure on the link, lease expires"
    );
    assert_eq!(
        lookup("lease-manager-handover").unwrap().title,
        "Manager hands grants to 1,2 then 2,3"
    );
    assert_eq!(lookup("leader-leases").unwrap().title, "Every node leases their believed leader");
    assert_eq!(lookup("quorum-leases").unwrap().title, "A chosen subset of nodes hold read leases");
    assert_eq!(
        lookup("quorum-leases-write-disruption").unwrap().title,
        "Write folds lease logic and disrupts read leases"
    );
}

/// Every milestone comes, so that no figure has to be cut off at its cap.
#[test]
fn every_figure_stops_before_its_cap() {
    for (name, demo) in NAMES {
        let spec = lookup(name).unwrap();
        let frames = generate_frames(demo.scenario(), spec.stop, flat as Sampler);
        let last = frames[frames.len() - 1].at;
        assert!(last < spec.stop.cap(), "{name} ended at {last}");
    }
}

#[test]
fn figures_stop_about_where_they_should() {
    let ends = [
        ("one-to-one-revoked", 2_500),
        ("one-to-one-renew-replies-lost", 4_700),
        ("lease-manager-handover", 4_100),
        ("leader-leases", 2_300),
        ("quorum-leases", 2_400),
        ("roster-leases", 2_300),
    ];
    for (name, at) in ends {
        let spec = lookup(name).unwrap();
        let frames = generate_frames(spec.demo.scenario(), spec.stop, flat as Sampler);
        let last = frames[frames.len() - 1].at;
        let off = last - LEAD_OUT - at;
        assert!(-250 <= off && off <= 250, "{name} ended at {last}");
    }
}

#[test]
fn playing_a_figure_starts_its_run() {
    let spec = lookup("leader-leases").unwrap();
    let mut run: SimRun<Sampler> = SimRun::new();
    spec.play(&mut run, flat as Sampler);
    assert_eq!(run.phase(), RunPhase::Generating);
    run.repaint();
    assert_eq!(run.frame().map(|f| f.nodes.len()), Some(5));
    assert_eq!(spec.topology(), Topology::new(5, &[1, 2, 3, 4], &[0]));
}

#[test]
fn text_is_compared_character_by_character() {
    assert!(same_text("", ""));
    assert!(same_text("Δ-lease", "Δ-lease"));
    assert!(!same_text("lease", "leasf"));
    assert!(!same_text("lease", "leases"));
    assert!(!same_text("Lease", "lease"));
}

const ROWS: [RecapRow; 2] = [
    RecapRow { label: "local reads", seen: "quorum", new: false },
    RecapRow { label: "roster", seen: "Bodega", new: true },
];

fn section(kind: &'static str, lead: &'static str, pair: Option<(&'static str, &'static str)>) -> Section {
    Section {
        id: "x",
        kind,
        step: "01",
        pattern: "one-to-one",
        title: "X",
        tradeoff: pair,
        recap_lead: lead,
        recap: &ROWS,
        blocks: &[],
    }
}

#[test]
fn algorithm_sections_are_numbered() {
    assert!(section("algo", "", None).is_numbered());
    assert!(!section("intro", "", None).is_numbered());
    assert!(!section("", "", None).is_numbered());
}

#[test]
fn blocks_become_widgets() {
    let s = section("algo", "Lead", Some(("fast", "fragile")));
    assert!(matches!(s.widget(&Block::Html("<p>hi</p>")), Widget::Prose("<p>hi</p>")));
    assert!(matches!(s.widget(&Block::Figure("roster-leases")), Widget::Canvas("roster-leases")));
    assert!(matches!(s.widget(&Block::Tradeoff), Widget::ProCon("fast", "fragile")));
    assert!(matches!(
        s.widget(&Block::Recap),
        Widget::Table { lead: Some("Lead"), rows } if rows.len() == 2
    ));
    let bare = section("intro", "", None);
    assert!(matches!(bare.widget(&Block::Tradeoff), Widget::Blank));
    assert!(matches!(bare.widget(&Block::Recap), Widget::Table { lead: None, .. }));
    assert_eq!(ROWS[0].class(), "");
    assert_eq!(ROWS[1].class(), "recap-new");
}
