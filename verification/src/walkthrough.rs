//! The walkthrough's scenario canvases.
//!
//! Each figure in the walkthrough names a scenario; this module maps that name to
//! a [`ScenarioSpec`] — a short title, the deterministic demo to run, and the
//! condition at which the run stops on its own. Unlike the playground (fresh
//! random seed per Play, plays until the tick cap), a scenario replays the *same*
//! seeded run every time and stops at its own predetermined point — a
//! self-contained illustration of one idea.

use crate::clock::Time;
use crate::demos::Demo;
use crate::dist::{sampled, samples_within, NormalDraw};
use crate::frame::Fraction;
use crate::milestone::Milestone;
use crate::run::{SimRun, StopWhen};
use crate::scenario::LIMIT;
use crate::text::same_text;
use crate::topology::{shape_of, Topology};
use vstd::prelude::*;

verus! {

/// Ticks the run keeps playing past its milestone event before halting, so the
/// stopping frame can be read rather than snapping away the instant it lands.
pub const LEAD_OUT: Time = 150;

/// A hardcoded scenario canvas: a title, the deterministic scenario to replay,
/// and the condition at which its run stops on its own.
#[derive(Debug, Clone, Copy)]
pub struct ScenarioSpec {
    /// Short label shown at the top-left of the canvas.
    pub title: &'static str,
    /// The deterministic (fixed-seed) scenario to run.
    pub demo: Demo,
    /// When the run stops — an event milestone or a tick — always tick-capped.
    pub stop: StopWhen,
    /// Extra vertical breathing room (each end) for the fit-height canvas. 0 for
    /// most; a busy all-to-all mesh (roster) sets a little so its off-axis timer
    /// stacks aren't clipped.
    pub fit_pad: Fraction,
}

/// The name by which a figure asks for a demo.
pub open spec fn figure_name(d: Demo) -> Seq<char> {
    match d {
        Demo::OneToOneSuccess => "one-to-one-success"@,
        Demo::OneToOneGuardReplyLost => "one-to-one-guard-reply-lost"@,
        Demo::OneToOneRevoked => "one-to-one-revoked"@,
        Demo::OneToOneRenewRepliesLost => "one-to-one-renew-replies-lost"@,
        Demo::LeaseManagerHandover => "lease-manager-handover"@,
        Demo::LeaderLeases => "leader-leases"@,
        Demo::QuorumLeases => "quorum-leases"@,
        Demo::QuorumLeasesWriteDisruption => "quorum-leases-write-disruption"@,
        Demo::RosterLeases => "roster-leases"@,
    }
}

/// The title over a demo's canvas.
pub open spec fn figure_title(d: Demo) -> Seq<char> {
    match d {
        Demo::OneToOneSuccess => "Lease established and kept alive"@,
        Demo::OneToOneGuardReplyLost => "Guard msg/reply missing, not established"@,
        Demo::OneToOneRevoked => "Proactively revoked by grantor"@,
        Demo::OneToOneRenewRepliesLost => "Failure on the link, lease expires"@,
        Demo::LeaseManagerHandover => "Manager hands grants to 1,2 then 2,3"@,
        Demo::LeaderLeases => "Every node leases their believed leader"@,
        Demo::QuorumLeases => "A chosen subset of nodes hold read leases"@,
        Demo::QuorumLeasesWriteDisruption => "Write folds lease logic and disrupts read leases"@,
        Demo::RosterLeases => "All-to-all leasing on a roster metadata"@,
    }
}

/// When a demo's run stops: the milestone, how often it must come, the lead-out
/// and the cap.
pub open spec fn figure_stop(d: Demo) -> StopWhen {
    match d {
        Demo::OneToOneSuccess => StopWhen::OnNthEvent {
            n: 3,
            pred: Milestone::GrantorGotRenewReply,
            after: 0,
            cap: 13_000,
        },
        Demo::OneToOneGuardReplyLost => StopWhen::OnNthEvent {
            n: 1,
            pred: Milestone::GranteeLeaseExpired,
            after: LEAD_OUT,
            cap: 4_000,
        },
        Demo::OneToOneRevoked => StopWhen::OnNthEvent {
            n: 1,
            pred: Milestone::GrantorGotRevokeReply,
            after: LEAD_OUT,
            cap: 5_000,
        },
        Demo::OneToOneRenewRepliesLost => StopWhen::OnNthEvent {
            n: 2,
            pred: Milestone::EitherLeaseExpired,
            after: LEAD_OUT,
            cap: 9_000,
        },
        Demo::LeaseManagerHandover => StopWhen::OnNthEvent {
            n: 2,
            pred: Milestone::Node3RenewReply,
            after: LEAD_OUT,
            cap: 8_000,
        },
        Demo::LeaderLeases => StopWhen::OnNthEvent {
            n: 12,
            pred: Milestone::RenewReachedLeader,
            after: LEAD_OUT,
            cap: 8_000,
        },
        Demo::QuorumLeases => StopWhen::OnNthEvent {
            n: 24,
            pred: Milestone::RenewReachedHolder,
            after: LEAD_OUT,
            cap: 8_000,
        },
        Demo::QuorumLeasesWriteDisruption => StopWhen::OnNthEvent {
            n: 1,
            pred: Milestone::WriteCommitted,
            after: 2_300,
            cap: 9_000,
        },
        Demo::RosterLeases => StopWhen::OnNthEvent {
            n: 60,
            pred: Milestone::AnyRenewDelivered,
            after: LEAD_OUT,
            cap: 8_000,
        },
    }
}

/// The breathing room of a demo's canvas.
pub open spec fn figure_pad(d: Demo) -> Fraction {
    match d {
        // The all-to-all mesh's off-axis nodes carry tall pushed-out timer
        // stacks; a little extra room keeps them from clipping the box.
        Demo::RosterLeases => Fraction { num: 5, den: 100 },
        _ => Fraction { num: 0, den: 100 },
    }
}

impl ScenarioSpec {
    /// The canvas is the one of its demo.
    pub open spec fn wf(&self) -> bool {
        &&& self.title@ == figure_title(self.demo)
        &&& self.stop == figure_stop(self.demo)
        &&& self.fit_pad == figure_pad(self.demo)
    }

    /// The static topology, derived from the scenario (single source of truth).
    pub fn topology(&self) -> (r: Topology)
        ensures
            r@ == shape_of(self.demo.config()),
    {
        let scenario = self.demo.scenario();
        Topology::from_scenario(&scenario)
    }

    /// Play: begin a fresh run of the fixed scenario.
    pub fn play<F: Fn(NormalDraw) -> Time>(&self, run: &mut SimRun<F>, normal: F)
        requires
            self.wf(),
            samples_within(normal, LIMIT as int),
        ensures
            final(run).wf(),
            final(run)@ == old(run)@.started(self.demo.config(), sampled(normal), self.stop),
    {
        proof {
            law_figures_end_in_time(self.demo);
        }
        run.start(self.demo.scenario(), self.stop, normal);
    }
}

/// Resolve a figure's name to its scenario spec. Unknown names return `None`, so
/// the figure falls back to the plain placeholder.
pub fn lookup(name: &str) -> (r: Option<ScenarioSpec>)
    ensures
        match r {
            Some(spec) => spec.wf() && figure_name(spec.demo) == name@,
            None => forall|d: Demo| figure_name(d) != name@,
        },
{
    let no_pad = Fraction { num: 0, den: 100 };
    if same_text(name, "one-to-one-success") {
        // Stop once the grantor has received its 3rd renew reply — the lease
        // is established and visibly holding through a few renew rounds.
        // Capped at 13k ticks as a safety net (the 3rd reply lands well under
        // that on the reliable link).
        Some(
            ScenarioSpec {
                title: "Lease established and kept alive",
                demo: Demo::OneToOneSuccess,
                stop: StopWhen::OnNthEvent {
                    n: 3,
                    pred: Milestone::GrantorGotRenewReply,
                    after: 0,
                    cap: 13_000,
                },
                fit_pad: no_pad,
            },
        )
    } else if same_text(name, "one-to-one-guard-reply-lost") {
        // The grantee acks the guard but that reply is dropped. Stop the moment
        // both guard timers have expired — i.e. when the grantee's guard window
        // lapses (its `Expired`), which trails the grantor's own guard give-up
        // (anchored at the earlier `Guard` send). By then neither side
        // established; a short lead-out lets the expiry read before halting.
        // Capped at 4k as a safety net.
        Some(
            ScenarioSpec {
                title: "Guard msg/reply missing, not established",
                demo: Demo::OneToOneGuardReplyLost,
                stop: StopWhen::OnNthEvent {
                    n: 1,
                    pred: Milestone::GranteeLeaseExpired,
                    after: LEAD_OUT,
                    cap: 4_000,
                },
                fit_pad: no_pad,
            },
        )
    } else if same_text(name, "one-to-one-revoked") {
        // Establishes, exchanges two renews, then the grantor revokes; the
        // grantee drops its hold and acks. Stop when that revoke ack reaches
        // the grantor. Capped at 5k as a safety net (the ack lands ~2.5k).
        Some(
            ScenarioSpec {
                title: "Proactively revoked by grantor",
                demo: Demo::OneToOneRevoked,
                stop: StopWhen::OnNthEvent {
                    n: 1,
                    pred: Milestone::GrantorGotRevokeReply,
                    after: LEAD_OUT,
                    cap: 5_000,
                },
                fit_pad: no_pad,
            },
        )
    } else if same_text(name, "one-to-one-renew-replies-lost") {
        // Establishes and renews once, then all renew acks are dropped. The
        // grantor gives up renewing and both sides lapse. Stop when both have
        // expired (the 2nd of the two `Expired` events). Capped at 9k as a
        // safety net (both-expired lands ~4.7k).
        Some(
            ScenarioSpec {
                title: "Failure on the link, lease expires",
                demo: Demo::OneToOneRenewRepliesLost,
                stop: StopWhen::OnNthEvent {
                    n: 2,
                    pred: Milestone::EitherLeaseExpired,
                    after: LEAD_OUT,
                    cap: 9_000,
                },
                fit_pad: no_pad,
            },
        )
    } else if same_text(name, "lease-manager-handover") {
        // Grants to 1 and 2, then hands 1's slot to 3 (revoke 1, keep 2, guard
        // 3). Stop once node 3 — the newly-guarded grantee — has renewed twice,
        // so the handover is visibly complete and steady. Capped at 8k (node
        // 3's 2nd renew reply lands ~4.1k).
        Some(
            ScenarioSpec {
                title: "Manager hands grants to 1,2 then 2,3",
                demo: Demo::LeaseManagerHandover,
                stop: StopWhen::OnNthEvent {
                    n: 2,
                    pred: Milestone::Node3RenewReply,
                    after: LEAD_OUT,
                    cap: 8_000,
                },
                fit_pad: no_pad,
            },
        )
    } else if same_text(name, "leader-leases") {
        // 5 nodes, all-to-one: followers 1..4 each grant to leader 0. Stop once
        // the leader has been renewed by all followers through 3 rounds each —
        // the 12th `Renew` to reach it (4 grantors × 3), by which point every
        // follower has renewed three times. Capped at 8k (the 12th lands ~2.3k).
        Some(
            ScenarioSpec {
                title: "Every node leases their believed leader",
                demo: Demo::LeaderLeases,
                stop: StopWhen::OnNthEvent {
                    n: 12,
                    pred: Milestone::RenewReachedLeader,
                    after: LEAD_OUT,
                    cap: 8_000,
                },
                fit_pad: no_pad,
            },
        )
    } else if same_text(name, "quorum-leases") {
        // 5 nodes, all-to-many: holders 0 and 2 are each granted by the other
        // four; no writes. Stop once both holders have exchanged three renews
        // with everyone — the 24th `Renew` to reach a holder (2 holders × 4
        // grantors × 3), when the slower holder crosses its 3rd round. Capped
        // at 8k (the 24th lands ~2.4k).
        Some(
            ScenarioSpec {
                title: "A chosen subset of nodes hold read leases",
                demo: Demo::QuorumLeases,
                stop: StopWhen::OnNthEvent {
                    n: 24,
                    pred: Milestone::RenewReachedHolder,
                    after: LEAD_OUT,
                    cap: 8_000,
                },
                fit_pad: no_pad,
            },
        )
    } else if same_text(name, "quorum-leases-write-disruption") {
        // Same two-holder setup, then a disruptive write at t=2000 tears every
        // lease down; on commit the cluster re-establishes (re-guards) and
        // resumes renewing. Stop a lead-out past the commit — long enough for
        // both holders to re-establish and exchange ~3 renew rounds again
        // (commit ~2.5k, three fresh rounds done ~4.7k). Capped at 9k.
        Some(
            ScenarioSpec {
                title: "Write folds lease logic and disrupts read leases",
                demo: Demo::QuorumLeasesWriteDisruption,
                stop: StopWhen::OnNthEvent {
                    n: 1,
                    pred: Milestone::WriteCommitted,
                    after: 2_300,
                    cap: 9_000,
                },
                fit_pad: no_pad,
            },
        )
    } else if same_text(name, "roster-leases") {
        // 5 nodes, all-to-all: 20 leases (every ordered pair). Stop once every
        // lease has renewed at least three rounds — the 60th `Renew` delivered
        // (20 leases × 3), when the last lease crosses its 3rd round. Capped at
        // 8k (the 60th lands ~2.3k).
        Some(
            ScenarioSpec {
                title: "All-to-all leasing on a roster metadata",
                demo: Demo::RosterLeases,
                stop: StopWhen::OnNthEvent {
                    n: 60,
                    pred: Milestone::AnyRenewDelivered,
                    after: LEAD_OUT,
                    cap: 8_000,
                },
                fit_pad: Fraction { num: 5, den: 100 },
            },
        )
    } else {
        None
    }
}

/// The length of a demo's name, and two of its characters.
spec fn mark(d: Demo) -> (nat, char, char) {
    match d {
        Demo::OneToOneSuccess => (18, 'o', 's'),
        Demo::OneToOneGuardReplyLost => (27, 'o', 'g'),
        Demo::OneToOneRevoked => (18, 'o', 'r'),
        Demo::OneToOneRenewRepliesLost => (29, 'o', 'r'),
        Demo::LeaseManagerHandover => (22, 'l', 'e'),
        Demo::LeaderLeases => (13, 'l', 'e'),
        Demo::QuorumLeases => (13, 'q', 'e'),
        Demo::QuorumLeasesWriteDisruption => (30, 'q', 'e'),
        Demo::RosterLeases => (13, 'r', 'e'),
    }
}

proof fn lemma_mark(d: Demo)
    ensures
        mark(d) == (figure_name(d).len(), figure_name(d)[0], figure_name(d)[11]),
{
    match d {
        Demo::OneToOneSuccess => reveal_strlit("one-to-one-success"),
        Demo::OneToOneGuardReplyLost => reveal_strlit("one-to-one-guard-reply-lost"),
        Demo::OneToOneRevoked => reveal_strlit("one-to-one-revoked"),
        Demo::OneToOneRenewRepliesLost => reveal_strlit("one-to-one-renew-replies-lost"),
        Demo::LeaseManagerHandover => reveal_strlit("lease-manager-handover"),
        Demo::LeaderLeases => reveal_strlit("leader-leases"),
        Demo::QuorumLeases => reveal_strlit("quorum-leases"),
        Demo::QuorumLeasesWriteDisruption => reveal_strlit("quorum-leases-write-disruption"),
        Demo::RosterLeases => reveal_strlit("roster-leases"),
    }
}

/// No two demos go by the same name.
pub proof fn law_names_tell_demos_apart(a: Demo, b: Demo)
    requires
        figure_name(a) == figure_name(b),
    ensures
        a == b,
{
    lemma_mark(a);
    lemma_mark(b);
}

/// Every figure's run stops within the duration of its scenario.
pub proof fn law_figures_end_in_time(d: Demo)
    ensures
        0 <= figure_stop(d).last_tick() <= d.config().duration,
{
}

} // verus!
