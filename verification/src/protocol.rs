//! The rules of the one-to-one lease protocol, message by message.

use crate::event::{Command, EventKind, LeaseStatus, MsgFate, MsgKind, NodeId};
use crate::moves::{
    is_guard, is_quiet, is_renewal, is_retreat, is_write_move, keep_apply, keep_poll,
    keep_receive_write, keep_write_tick, kept_by_moves, moves,
};
use crate::progress::sized;
use crate::safety::{lemma_begin_guard_effect, lemma_send_renew_effect};
use crate::sim::{max_of, min_of, Sim};
use crate::timeline::Scheduled;
use crate::upkeep::{lemma_emit, lemma_lease_position, lemma_parties, lemma_popped, message_ok};
use vstd::prelude::*;

verus! {

/// A guard opens the acceptance window `A' = A + t_guard - t_delta` at the grantee.
pub proof fn law_guard_opens_the_window(s: Sim, i: usize)
    requires
        s.ok(),
        i < s.leases.len(),
    ensures
        ({
            let (l, m) = (s.leases[i as int], s.on_guard(i).leases[i as int]);
            &&& m.grantee.status == LeaseStatus::Guarding
            &&& m.grantee.guard_deadline == s.local(l.id.grantee) + s.params().guard_len()
            &&& m.grantor == l.grantor
        }),
{
    reveal(Sim::on_guard);
    reveal(Sim::reply_after_delay);
    lemma_parties(s, i as int);
}

/// A first renew that reaches the grantee when its window has closed (`C >= A'`) is
/// ignored, whether or not the grantee has noticed yet that the window lapsed: the
/// lease does not start, and no reply is owed.
pub proof fn law_late_activation_is_ignored(s: Sim, i: usize)
    requires
        i < s.leases.len(),
        s.leases[i as int].grantee.status != LeaseStatus::Active,
        s.local(s.leases[i as int].id.grantee) >= s.leases[i as int].grantee.guard_deadline,
    ensures
        s.on_renew(i) == s,
{
    reveal(Sim::on_renew);
}

/// A side that is neither guarding nor holding takes no renew at all, such as one
/// that comes after the hold lapsed, or one that a revocation overtook.
pub proof fn law_lapsed_side_takes_no_renew(s: Sim, i: usize)
    requires
        i < s.leases.len(),
        !s.leases[i as int].holding(),
    ensures
        s.on_renew(i) == s,
{
    reveal(Sim::on_renew);
}

/// The next item delivers a guard of lease `i`.
pub open spec fn delivers_guard(s: Sim, i: int) -> bool {
    s.queue[0].item matches Scheduled::Arrival { kind, tag, fate, .. } && kind == MsgKind::Guard
        && tag == i && fate == MsgFate::Delivered
}

/// Whatever else happens in a step of a run, only a fresh guard leads a side that is
/// neither guarding nor holding to a hold again; and it opens a window first.
pub proof fn law_only_a_guard_reopens(s: Sim, i: int)
    requires
        s.ok(),
        sized(s),
        s.queue.len() > 0,
        s.queue[0].at <= s.cfg.duration,
        0 <= i < s.leases.len(),
        !s.leases[i].holding(),
    ensures
        s.step().leases[i].grantee.status != LeaseStatus::Active,
        s.step().leases[i].grantee.status == LeaseStatus::Guarding ==> delivers_guard(s, i),
{
    lemma_popped(s);
    let a = s.popped();
    let prop = |x: Sim| i < x.leases.len() && !x.leases[i].holding();
    assert(kept_by_moves(prop, true)) by {
        assert forall|x: Sim, y: Sim|
            x.ok() && y.ok() && prop(x) && #[trigger] moves(x, y, true) implies prop(y) by {
            if is_quiet(x, y) || is_write_move(x, y) {
            } else if is_retreat(x, y) {
                assert(y.leases[i].id == x.leases[i].id);
            } else if exists|j: usize| is_guard(x, y, j) {
                let j = choose|j: usize| is_guard(x, y, j);
                lemma_begin_guard_effect(x, j);
            } else {
                let j = choose|j: usize| is_renewal(x, y, j);
                lemma_send_renew_effect(x, j);
            }
        }
    }
    assert(prop(a));
    match s.queue[0].item {
        Scheduled::Poll { node } => {
            keep_poll(prop, true, a, node);
            assert(prop(a.poll(node)));
        },
        Scheduled::WriteTick => {
            keep_write_tick(prop, true, a);
            assert(prop(a.write_tick()));
        },
        Scheduled::Command(cmd) => {
            if let Command::Revoke(id) = cmd {
                reveal(Sim::apply);
                reveal(Sim::begin_revoke);
                reveal(Sim::send);
                lemma_lease_position(a.leases, id, 0);
            } else {
                keep_apply(prop, true, a, cmd);
                assert(prop(a.apply(cmd)));
            }
        },
        Scheduled::Send { from, to, kind, tag } => {
            reveal(Sim::send);
        },
        Scheduled::Arrival { from, to, kind, tag, fate } => {
            reveal(Sim::arrive);
            let ev = EventKind::MessageDelivered { from, to, kind };
            lemma_emit(a, ev);
            let q = a.emit(ev);
            if fate == MsgFate::Delivered && a.nodes[to as int].up {
                if kind.is_write_path() {
                    assert(prop(q));
                    keep_receive_write(prop, true, q, from, to, kind, tag);
                    assert(prop(q.receive(from, to, kind, tag)));
                } else {
                    reveal(Sim::on_guard);
                    reveal(Sim::on_guard_reply);
                    reveal(Sim::send_renew);
                    reveal(Sim::on_renew);
                    reveal(Sim::on_renew_reply);
                    reveal(Sim::on_revoke);
                    reveal(Sim::on_revoke_reply);
                    reveal(Sim::reply_after_delay);
                    reveal(Sim::send);
                }
            }
        },
    }
}

/// A renew that the grantee takes makes it hold the lease until
/// `C' = C + t_lease - t_delta`.
pub proof fn law_renew_extends_the_hold(s: Sim, i: usize)
    requires
        s.ok(),
        i < s.leases.len(),
        s.accepts_renew(i as int),
    ensures
        ({
            let (l, m) = (s.leases[i as int], s.on_renew(i).leases[i as int]);
            &&& m.grantee.status == LeaseStatus::Active
            &&& m.grantee.hold_expiry == s.local(l.id.grantee) + s.params().hold_len()
            &&& m.grantor == l.grantor
        }),
{
    reveal(Sim::on_renew);
    reveal(Sim::reply_after_delay);
    lemma_parties(s, i as int);
}

/// Sending a renew extends the promise `D'` to the pessimistic no-reply bound, and
/// never shortens it; a reply is then awaited.
pub proof fn law_send_extends_the_promise(s: Sim, i: usize)
    requires
        s.ok(),
        i < s.leases.len(),
    ensures
        ({
            let (l, m) = (s.leases[i as int], s.send_renew(i).leases[i as int]);
            &&& m.grantor.grant_expiry == max_of(
                l.grantor.grant_expiry as int,
                s.local(l.id.grantor) + s.params().grant_len(),
            )
            &&& m.grantor.awaiting_reply
            &&& m.grantee == l.grantee
        }),
{
    lemma_parties(s, i as int);
    lemma_send_renew_effect(s, i);
}

/// A reply to a renew shortens the promise of an active grantor to
/// `D' = D + t_lease + t_delta`, and never extends it; the next renew may go out.
pub proof fn law_reply_tightens_the_promise(s: Sim, i: usize)
    requires
        s.ok(),
        i < s.leases.len(),
        s.leases[i as int].grantor.status == LeaseStatus::Active,
    ensures
        ({
            let (l, m) = (s.leases[i as int], s.on_renew_reply(i).leases[i as int]);
            &&& m.grantor.grant_expiry == min_of(
                l.grantor.grant_expiry as int,
                s.local(l.id.grantor) + s.params().confirmed_len(),
            )
            &&& !m.grantor.awaiting_reply
            &&& m.grantor.status == LeaseStatus::Active
            &&& m.grantee == l.grantee
        }),
{
    reveal(Sim::on_renew_reply);
    lemma_parties(s, i as int);
}

/// The lease starts on the first renew, not on the guard: the grantor grants from
/// the moment it sends it, on the reply to its guard.
pub proof fn law_guard_reply_starts_the_lease(s: Sim, i: usize)
    requires
        s.ok(),
        i < s.leases.len(),
        s.leases[i as int].grantor.status == LeaseStatus::Guarding,
    ensures
        ({
            let m = s.on_guard_reply(i).leases[i as int];
            &&& m.grantor.status == LeaseStatus::Active
            &&& m.grantor.awaiting_reply
            &&& m.grantor.grant_expiry >= s.local(m.id.grantor) + s.params().grant_len()
        }),
{
    reveal(Sim::on_guard_reply);
    lemma_parties(s, i as int);
    let l = s.leases[i as int];
    let d = s.local(l.id.grantor) as i64;
    let g = crate::sim::GrantorState {
        status: LeaseStatus::Active,
        last_reply: d,
        next_renew_due: d,
        ..l.grantor
    };
    let ev = EventKind::GrantorLease { lease: l.id, status: LeaseStatus::Active };
    assert(crate::upkeep::grantor_ok(l.grantor));
    crate::upkeep::lemma_with_grantor(s, i as int, g);
    let a = s.with_grantor(i as int, g);
    crate::upkeep::lemma_emit(a, ev);
    law_send_extends_the_promise(a.emit(ev), i);
    lemma_send_renew_effect(a.emit(ev), i);
}

/// While a reply is awaited, no further renew is due: a lost reply stops the renews
/// rather than piling them up.
pub proof fn law_no_renew_while_one_is_out(s: Sim, node: NodeId, i: int)
    requires
        0 <= i < s.leases.len(),
        s.leases[i].grantor.awaiting_reply,
    ensures
        !s.renew_due(node, i),
{
}

/// A revocation that reaches the grantee ends its hold at once.
pub proof fn law_revoke_drops_the_hold(s: Sim, i: usize)
    requires
        s.ok(),
        i < s.leases.len(),
    ensures
        !s.on_revoke(i).leases[i as int].holding(),
{
    reveal(Sim::on_revoke);
    reveal(Sim::reply_after_delay);
}

/// The acknowledgement of a revocation ends the grantor's side at once, without
/// waiting for `D'` to lapse; `D'` itself is not touched.
pub proof fn law_revoke_ack_ends_the_grant(s: Sim, i: usize)
    requires
        i < s.leases.len(),
    ensures
        !s.on_revoke_reply(i).leases[i as int].granting(),
        s.on_revoke_reply(i).leases[i as int].grantor.grant_expiry
            == s.leases[i as int].grantor.grant_expiry,
        s.on_revoke_reply(i).leases[i as int].grantee == s.leases[i as int].grantee,
{
    reveal(Sim::on_revoke_reply);
}

/// Revoking stops the renews but leaves the promise `D'` as it is, so that it holds
/// whether or not the grantee is reached.
pub proof fn law_revoke_keeps_the_promise(s: Sim, node: NodeId, i: usize)
    requires
        s.ok(),
        i < s.leases.len(),
    ensures
        s.begin_revoke(i).leases[i as int].grantor.grant_expiry
            == s.leases[i as int].grantor.grant_expiry,
        s.begin_revoke(i).leases[i as int].grantor.status == s.leases[i as int].grantor.status,
        !s.begin_revoke(i).renew_due(node, i as int),
{
    reveal(Sim::begin_revoke);
    reveal(Sim::send);
}

/// Opening a guard makes no promise yet: `D'` is as it was.
pub proof fn law_guard_makes_no_promise(s: Sim, i: usize)
    requires
        s.ok(),
        i < s.leases.len(),
    ensures
        ({
            let (l, m) = (s.leases[i as int], s.begin_guard(i).leases[i as int]);
            &&& m.grantor.status == LeaseStatus::Guarding
            &&& m.grantor.grant_expiry == l.grantor.grant_expiry
            &&& m.grantor.guard_since == s.local(l.id.grantor)
            &&& m.grantee == l.grantee
        }),
{
    lemma_parties(s, i as int);
    lemma_begin_guard_effect(s, i);
}

/// A node that is down sends nothing, not even the reply it was about to send when
/// it crashed, and acts on nothing that reaches it.
pub proof fn law_down_node_does_nothing(
    s: Sim,
    node: NodeId,
    other: NodeId,
    kind: MsgKind,
    tag: usize,
)
    requires
        node < s.nodes.len(),
        !s.nodes[node as int].up,
    ensures
        s.try_send(node, other, kind, tag) == s,
        s.arrive(other, node, kind, tag, MsgFate::Delivered) == s.emit(
            EventKind::MessageDelivered { from: other, to: node, kind },
        ),
{
    reveal(Sim::arrive);
}

/// A message is never delivered in the tick it was sent in, and a lost one is only
/// reported as lost.
pub proof fn law_messages_take_time(
    s: Sim,
    from: NodeId,
    to: NodeId,
    kind: MsgKind,
    tag: usize,
)
    requires
        s.ok(),
        message_ok(s.cfg, from, to, kind, tag),
    ensures
        s.arrival_of(from, to) > s.now,
        s.arrive(from, to, kind, tag, MsgFate::Dropped) == s.emit(
            EventKind::MessageDropped { from, to, kind },
        ),
{
    reveal(Sim::arrive);
}

} // verus!
