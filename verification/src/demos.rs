//! Ready-made demo scenarios for the walkthrough figures.
//!
//! Each function returns a fully-configured [`Scenario`] with a *fixed seed*, so
//! the run is fully reproducible: the walkthrough canvases replay an identical
//! run every time (unlike the playground, which draws a fresh seed per Play).
//!
//! These are curated, deterministic *illustrations* of the one-to-one primitive:
//! guarding is driven by a scripted [`Command::Initiate`] at a known tick (not the
//! stochastic per-poll `initiate_chance`), so establishment happens at a stable
//! time regardless of seed.

use crate::clock::Time;
use crate::event::{Command, LeaseId, MsgKind, NodeId};
use crate::prob::Prob;
use crate::rounding::UNIT;
use crate::scenario::{
    grants_to, grants_to_each, law_grants_to, law_roster, lemma_default_node_valid, roster, Config,
    Scenario,
};
use vstd::prelude::*;

verus! {

/// The lease `g -> h`.
pub open spec fn lease_between(g: NodeId, h: NodeId) -> LeaseId {
    LeaseId { grantor: g, grantee: h }
}

/// An [`Command::Initiate`] at tick `at` for each of the leases, in order.
pub open spec fn guards_at(leases: Seq<LeaseId>, at: Time) -> Seq<(Time, Command)> {
    leases.map_values(|l: LeaseId| (at, Command::Initiate(l)))
}

/// A pattern of leases among `n` default nodes, all guarded at tick 300.
pub open spec fn pattern(n: nat, seed: u64, leases: Seq<LeaseId>) -> Config {
    Config { seed, leases, commands: guards_at(leases, 300), ..Config::fresh(n) }
}

/// The leases of the two quorum holders (grantees), nodes 0 and 2, among 5 nodes.
pub open spec fn quorum_pattern() -> Seq<LeaseId> {
    grants_to(0, 5) + grants_to(2, 5)
}

/// The ready-made demos.
#[derive(Debug, Clone, Copy, PartialEq, Eq, Structural)]
pub enum Demo {
    /// [`one_to_one_success`].
    OneToOneSuccess,
    /// [`one_to_one_guard_reply_lost`].
    OneToOneGuardReplyLost,
    /// [`one_to_one_revoked`].
    OneToOneRevoked,
    /// [`one_to_one_renew_replies_lost`].
    OneToOneRenewRepliesLost,
    /// [`lease_manager_handover`].
    LeaseManagerHandover,
    /// [`leader_leases`].
    LeaderLeases,
    /// [`quorum_leases`].
    QuorumLeases,
    /// [`quorum_leases_write_disruption`].
    QuorumLeasesWriteDisruption,
    /// [`roster_leases`].
    RosterLeases,
}

impl Demo {
    /// What the demo is made of.
    pub open spec fn config(self) -> Config {
        match self {
            Demo::OneToOneSuccess => Config {
                seed: 0x0170_0170,
                leases: seq![lease_between(0, 1)],
                commands: seq![(300i64, Command::Initiate(lease_between(0, 1)))],
                ..Config::fresh(2)
            },
            Demo::OneToOneGuardReplyLost => Config {
                seed: 0x6a17_d500,
                leases: seq![lease_between(0, 1)],
                kind_drop: Config::fresh(2).kind_drop.update(
                    MsgKind::GuardReply.ordinal(),
                    Prob { num: UNIT },
                ),
                commands: seq![(300i64, Command::Initiate(lease_between(0, 1)))],
                ..Config::fresh(2)
            },
            Demo::OneToOneRevoked => Config {
                seed: 0x0270_0270,
                leases: seq![lease_between(0, 1)],
                commands: seq![
                    (300i64, Command::Initiate(lease_between(0, 1))),
                    (1920i64, Command::Revoke(lease_between(0, 1))),
                ],
                ..Config::fresh(2)
            },
            Demo::OneToOneRenewRepliesLost => Config {
                seed: 0x0370_0370,
                leases: seq![lease_between(0, 1)],
                kind_drop: Config::fresh(2).kind_drop.update(
                    MsgKind::RenewReply.ordinal(),
                    Prob { num: UNIT },
                ),
                kind_drop_from: Config::fresh(2).kind_drop_from.update(
                    MsgKind::RenewReply.ordinal(),
                    1300,
                ),
                commands: seq![(300i64, Command::Initiate(lease_between(0, 1)))],
                ..Config::fresh(2)
            },
            Demo::LeaseManagerHandover => Config {
                seed: 0x0432_0432,
                leases: seq![lease_between(0, 1), lease_between(0, 2), lease_between(0, 3)],
                commands: seq![
                    (300i64, Command::Initiate(lease_between(0, 1))),
                    (300i64, Command::Initiate(lease_between(0, 2))),
                    (1900i64, Command::Revoke(lease_between(0, 1))),
                    (2500i64, Command::Initiate(lease_between(0, 3))),
                ],
                ..Config::fresh(4)
            },
            Demo::LeaderLeases => pattern(5, 0x0510_0510, grants_to(0, 5)),
            Demo::QuorumLeases => pattern(5, 0x0520_0520, quorum_pattern()),
            Demo::QuorumLeasesWriteDisruption => Config {
                commands: guards_at(quorum_pattern(), 300).push((2000i64, Command::Write)),
                write_disruptive: true,
                ..pattern(5, 0x0521_0521, quorum_pattern())
            },
            Demo::RosterLeases => pattern(5, 0x0530_0530, roster(5, 5)),
        }
    }

    /// The demo's scenario.
    pub fn scenario(self) -> (r: Scenario)
        ensures
            r@ == self.config(),
            r@.valid(),
    {
        match self {
            Demo::OneToOneSuccess => one_to_one_success(),
            Demo::OneToOneGuardReplyLost => one_to_one_guard_reply_lost(),
            Demo::OneToOneRevoked => one_to_one_revoked(),
            Demo::OneToOneRenewRepliesLost => one_to_one_renew_replies_lost(),
            Demo::LeaseManagerHandover => lease_manager_handover(),
            Demo::LeaderLeases => leader_leases(),
            Demo::QuorumLeases => quorum_leases(),
            Demo::QuorumLeasesWriteDisruption => quorum_leases_write_disruption(),
            Demo::RosterLeases => roster_leases(),
        }
    }
}

/// Script a `Command::Initiate` at tick `at` for every lease the scenario
/// declares, so the whole pattern establishes deterministically at a stable time
/// rather than via staggered stochastic initiation.
fn guard_all(s: Scenario, at: Time) -> (r: Scenario)
    ensures
        r@ == (Config { commands: s@.commands + guards_at(s@.leases, at), ..s@ }),
{
    let n: usize = s.leases.len();
    let mut r = s;
    let mut i: usize = 0;
    assert(r@.commands =~= s@.commands + guards_at(s@.leases.take(0), at));
    while i < n
        invariant
            i <= n,
            n == s@.leases.len(),
            r@ == (Config {
                commands: s@.commands + guards_at(s@.leases.take(i as int), at),
                ..s@
            }),
        decreases n - i,
    {
        let l: LeaseId = r.leases[i];
        r = r.command(at, Command::Initiate(l));
        assert(r@.commands =~= s@.commands + guards_at(s@.leases.take(i + 1), at));
        i = i + 1;
    }
    assert(s@.leases.take(n as int) =~= s@.leases);
    r
}

/// The canonical happy-path one-to-one lease: node 0 grants to node 1 over a
/// reliable link, guarding once and then renewing steadily forever. No drops, no
/// writes, no failures — the base primitive working exactly as intended.
pub fn one_to_one_success() -> (r: Scenario)
    ensures
        r@ == Demo::OneToOneSuccess.config(),
        r@.valid(),
{
    proof {
        lemma_default_node_valid(20_000);
    }
    let r = Scenario::new(2)  // fixed: deterministic, reproducible run
        .seed(0x0170_0170).duration(20_000).lease(0, 1)
    // Guard at a known tick instead of relying on random initiation, so the
    // lease always establishes at the same time.
    .command(300, Command::Initiate(LeaseId { grantor: 0, grantee: 1 }));
    assert(r@.leases =~= seq![lease_between(0, 1)]);
    assert(r@.commands =~= seq![(300i64, Command::Initiate(lease_between(0, 1)))]);
    r
}

/// The guard phase failing: node 0 opens a guard, node 1 receives it and acks,
/// but that `GuardReply` is lost. The grantor hears nothing, so once its guard
/// window (`t_guard - t_delta`) lapses it abandons the attempt and falls back to
/// idle — the lease never establishes. With no re-initiation (`initiate_chance`
/// stays 0) there is exactly one attempt, so it's a single clean illustration of
/// a dropped guard ack stranding establishment.
pub fn one_to_one_guard_reply_lost() -> (r: Scenario)
    ensures
        r@ == Demo::OneToOneGuardReplyLost.config(),
        r@.valid(),
{
    proof {
        lemma_default_node_valid(20_000);
    }
    let r = Scenario::new(2).seed(0x6a17_d500).duration(20_000).lease(0, 1)
    // Every guard ack is lost, so the one guard attempt below never completes.
    .kind_drop(MsgKind::GuardReply, Prob::always()).command(
        300,
        Command::Initiate(LeaseId { grantor: 0, grantee: 1 }),
    );
    assert(r@.leases =~= seq![lease_between(0, 1)]);
    assert(r@.commands =~= seq![(300i64, Command::Initiate(lease_between(0, 1)))]);
    r
}

/// A lease established, kept alive through a couple of renews, then *proactively
/// revoked*: node 0 guards (t=300), activates, exchanges two renew rounds, then a
/// scripted `Revoke` tells node 1 to drop the lease. The grantee expires its hold
/// and acks with a `RevokeReply`. Illustrates the grantor-initiated end of a lease
/// (vs. passive expiry).
pub fn one_to_one_revoked() -> (r: Scenario)
    ensures
        r@ == Demo::OneToOneRevoked.config(),
        r@.valid(),
{
    proof {
        lemma_default_node_valid(20_000);
    }
    let id = LeaseId { grantor: 0, grantee: 1 };
    let r = Scenario::new(2).seed(0x0270_0270).duration(20_000).lease(0, 1).command(
        300,
        Command::Initiate(id),
    )
    // Revoke at t=1920: after the 2nd renew's reply has round-tripped back
    // (~t=1895) but before the 3rd renew falls due (~t=1950). Revoking clears
    // `intended`, so that 3rd renew is never sent — the grantor goes straight
    // from "two renews exchanged" to revoking, with no stray renew alongside.
    .command(1920, Command::Revoke(id));
    assert(r@.leases =~= seq![lease_between(0, 1)]);
    assert(r@.commands =~= seq![
        (300i64, Command::Initiate(lease_between(0, 1))),
        (1920i64, Command::Revoke(lease_between(0, 1))),
    ]);
    r
}

/// A lease established, then *passively expiring* because the grantee's renew acks
/// stop arriving. Node 0 guards (t=300), activates, and exchanges one renew round;
/// from t=1300 every `RenewReply` is dropped. The grantor keeps renewing but hears
/// nothing back, so after its renew-reply timeout it gives up renewing; the grantee
/// then stops receiving renews and its hold lapses. Both sides expire — the failure
/// mode where silence, not a revoke, ends the lease.
pub fn one_to_one_renew_replies_lost() -> (r: Scenario)
    ensures
        r@ == Demo::OneToOneRenewRepliesLost.config(),
        r@.valid(),
{
    proof {
        lemma_default_node_valid(20_000);
    }
    let r = Scenario::new(2).seed(0x0370_0370).duration(20_000).lease(0, 1)
    // Let the first renew ack (~t=1000) through, then drop every `RenewReply`
    // from t=1300 on — so the lease establishes and renews once before the
    // acks go silent.
    .kind_drop_from(MsgKind::RenewReply, Prob::always(), 1300).command(
        300,
        Command::Initiate(LeaseId { grantor: 0, grantee: 1 }),
    );
    assert(r@.leases =~= seq![lease_between(0, 1)]);
    assert(r@.commands =~= seq![(300i64, Command::Initiate(lease_between(0, 1)))]);
    r
}

/// The lease-manager pattern with a *handover*: node 0 is a manager granting to
/// potential grantees 1, 2, 3, but never to all at once. It first grants to 1 and
/// 2; after a couple of renew rounds with node 1 it hands that slot to node 3 —
/// revoking 1 (2 is untouched and keeps renewing) and, once 1's revoke is
/// acknowledged, guarding 3. Illustrates independent per-grantee lease lifecycles
/// under one grantor: one lease revoked and re-placed while another rides on.
///
/// The tick script below is derived from the deterministic (fixed-seed) run — see
/// the `lease_manager_handover_*` tests, which pin the milestones it targets.
pub fn lease_manager_handover() -> (r: Scenario)
    ensures
        r@ == Demo::LeaseManagerHandover.config(),
        r@.valid(),
{
    proof {
        lemma_default_node_valid(20_000);
    }
    let to_1 = LeaseId { grantor: 0, grantee: 1 };
    let to_2 = LeaseId { grantor: 0, grantee: 2 };
    let to_3 = LeaseId { grantor: 0, grantee: 3 };
    let r = Scenario::new(4).seed(0x0432_0432).duration(20_000).lease(0, 1).lease(0, 2).lease(0, 3)
    // Grant to 1 and 2 up front.
    .command(300, Command::Initiate(to_1)).command(300, Command::Initiate(to_2))
    // After two renew rounds with node 1 (~t=1900), hand its slot to 3: revoke
    // 1 (2 keeps renewing, untouched). Guarding 3 waits for 1's revoke ack, so
    // it's a second scripted step at the tick that ack lands (~t=2500).
    .command(1900, Command::Revoke(to_1)).command(2500, Command::Initiate(to_3));
    assert(r@.leases =~= seq![lease_between(0, 1), lease_between(0, 2), lease_between(0, 3)]);
    assert(r@.commands =~= seq![
        (300i64, Command::Initiate(lease_between(0, 1))),
        (300i64, Command::Initiate(lease_between(0, 2))),
        (1900i64, Command::Revoke(lease_between(0, 1))),
        (2500i64, Command::Initiate(lease_between(0, 3))),
    ]);
    r
}

proof fn lemma_pattern_valid(n: nat, seed: u64, leases: Seq<LeaseId>)
    requires
        forall|i: int|
            0 <= i < leases.len() ==> (#[trigger] leases[i]).grantor < n && leases[i].grantee < n,
    ensures
        pattern(n, seed, leases).valid(),
{
    lemma_default_node_valid(20_000);
}

proof fn lemma_grants_to_in_range(holder: NodeId, n: int)
    requires
        0 <= n <= usize::MAX,
        holder < n,
    ensures
        forall|i: int|
            0 <= i < grants_to(holder, n).len() ==> (#[trigger] grants_to(holder, n)[i]).grantor < n
                && grants_to(holder, n)[i].grantee < n,
{
    law_grants_to(holder, n);
    let s = grants_to(holder, n);
    assert forall|i: int| 0 <= i < s.len() implies (#[trigger] s[i]).grantor < n && s[i].grantee
        < n by {
        assert(s.contains(s[i]));
    }
}

/// Classic all-to-one leader leases with 5 nodes: every follower (1..5) grants to
/// the leader (node 0), which counts its own implicit self-grant. Each `(g → 0)`
/// lease is an independent one-to-one primitive; once the leader holds a majority
/// it is the stable leader (can read locally). All four guards are scripted at a
/// known tick so establishment is deterministic (not stochastic per-poll), then
/// the leader is renewed by all, steadily, on a reliable link.
pub fn leader_leases() -> (r: Scenario)
    ensures
        r@ == Demo::LeaderLeases.config(),
        r@.valid(),
{
    proof {
        lemma_grants_to_in_range(0, 5);
        lemma_pattern_valid(5, 0x0510_0510, grants_to(0, 5));
    }
    let s = Scenario::new(5).seed(0x0510_0510).duration(20_000).all_to_one(0);
    assert(s@.leases =~= grants_to(0, 5));
    // Guard all four follower→leader leases up front, so the leader's majority
    // establishes at a stable time.
    let r = guard_all(s, 300);
    assert(r@.commands =~= guards_at(grants_to(0, 5), 300));
    r
}

/// A 5-node all-to-many quorum-lease scenario with holders 0 and 2, each granted
/// by every other node, and every grantor→holder guard scripted at t=300 so both
/// holders' majorities establish deterministically. `seed` picks the reproducible
/// run; the caller layers on write configuration.
fn quorum_base(seed: u64) -> (r: Scenario)
    ensures
        r@ == pattern(5, seed, quorum_pattern()),
        r@.valid(),
{
    let holders: [NodeId; 2] = [0, 2];
    let s = Scenario::new(5).seed(seed).duration(20_000).all_to_many(&holders);
    proof {
        reveal_with_fuel(grants_to_each, 3);
        assert(s@.leases =~= quorum_pattern());
        lemma_grants_to_in_range(0, 5);
        lemma_grants_to_in_range(2, 5);
        lemma_pattern_valid(5, seed, quorum_pattern());
    }
    let r = guard_all(s, 300);
    assert(r@.commands =~= guards_at(quorum_pattern(), 300));
    r
}

/// All-to-many quorum read leases with 5 nodes: two holders (grantees) 0 and 2,
/// each granted by every other node (`all_to_many(&[0, 2])`). No writes — the
/// steady read-lease state, before any write disruption. Each `(g → h)` lease is
/// an independent one-to-one primitive; a holder reads locally once a majority
/// grants it. All eight guards are scripted up front so establishment is
/// deterministic, then both holders are renewed by all, steadily.
pub fn quorum_leases() -> (r: Scenario)
    ensures
        r@ == Demo::QuorumLeases.config(),
        r@.valid(),
{
    quorum_base(0x0520_0520)
}

/// Quorum read leases *disrupted by a write*: the same two-holder setup as
/// [`quorum_leases`], but a single **disruptive** write is served by the leader
/// (smallest-id holder, node 0) at t=2000. The write is the revocation — every
/// node tears down the leases it takes part in (reads it holds *and* grants it
/// makes) and freezes until the commit, then re-establishes from scratch,
/// re-guarding. Illustrates the quorum-lease write coupling: a write to a leased
/// object suspends local reads and forces a fresh guard round before they resume.
pub fn quorum_leases_write_disruption() -> (r: Scenario)
    ensures
        r@ == Demo::QuorumLeasesWriteDisruption.config(),
        r@.valid(),
{
    // No periodic cadence; a single scripted disruptive write at t=2000, by
    // which point both holders have established and renewed a few rounds. On
    // its commit every torn-down grant re-guards deterministically (commit-
    // driven recovery — no `initiate_chance` needed), so the whole run is
    // reproducible.
    quorum_base(0x0521_0521).writes(None, true).command(2000, Command::Write)
}

/// All-to-all roster leases with 5 nodes: every ordered distinct pair gets a lease
/// (`all_to_all` → 20 leases), so each node is both grantor to and grantee of all
/// four peers. The lease says only "we agree on the roster"; a node holds a stable
/// roster once a majority grant it. Every grantor→grantee guard is scripted up
/// front so the full mesh establishes deterministically, then all 20 leases renew
/// steadily on a reliable link.
pub fn roster_leases() -> (r: Scenario)
    ensures
        r@ == Demo::RosterLeases.config(),
        r@.valid(),
{
    let s = Scenario::new(5).seed(0x0530_0530).duration(20_000).all_to_all();
    proof {
        assert(s@.leases =~= roster(5, 5));
        law_roster(5, 5);
        let leases = roster(5, 5);
        assert forall|i: int| 0 <= i < leases.len() implies (#[trigger] leases[i]).grantor < 5
            && leases[i].grantee < 5 by {
            assert(leases.contains(leases[i]));
        }
        lemma_pattern_valid(5, 0x0530_0530, leases);
    }
    // Guard every ordered pair up front, so the whole mesh establishes at a stable
    // time rather than via staggered stochastic initiation.
    let r = guard_all(s, 300);
    assert(r@.commands =~= guards_at(roster(5, 5), 300));
    r
}

} // verus!
