//! The engine's timeline: items scheduled for a global time, kept in the order
//! in which they take effect.

use crate::clock::Time;
use crate::event::{Command, MsgFate, MsgKind, NodeId};
use vstd::prelude::*;

verus! {

/// An item scheduled on the engine's internal timeline. A message carries a
/// `tag`: the index of the lease it is about or, on the write path (which is
/// not about a single lease), the id of the write.
#[derive(Debug, Clone, Copy, PartialEq, Eq, Structural)]
pub enum Scheduled {
    /// A node wakes up to act.
    Poll { node: NodeId },
    /// A message leaves its sender, after any processing delay. Deferring the
    /// send (rather than sending inline) models reply latency and lets a node
    /// that crashes mid-processing correctly never emit the reply.
    Send { from: NodeId, to: NodeId, kind: MsgKind, tag: usize },
    /// A message reaches its destination. `fate` decides delivery vs. drop; the
    /// item is scheduled either way so the event stream stays time-ordered.
    Arrival { from: NodeId, to: NodeId, kind: MsgKind, tag: usize, fate: MsgFate },
    /// An external driving command takes effect.
    Command(Command),
    /// The leader wakes to (maybe) serve a write request. Rescheduled each time
    /// at `write_interval` ± jitter.
    WriteTick,
}

/// An item and the global time at which it takes effect.
#[derive(Debug, Clone, Copy, PartialEq, Eq, Structural)]
pub struct Timed {
    pub at: Time,
    pub item: Scheduled,
}

/// Entries are in ascending order of time.
pub open spec fn in_time_order(queue: Seq<Timed>) -> bool {
    forall|i: int, j: int| 0 <= i <= j < queue.len() ==> queue[i].at <= queue[j].at
}

/// Where an entry for time `at` belongs: behind everything that is not later,
/// so that items of the same time keep the order they were scheduled in.
pub open spec fn slot(queue: Seq<Timed>, at: Time) -> int
    decreases queue.len(),
{
    if queue.len() == 0 {
        0
    } else if queue.last().at <= at {
        queue.len() as int
    } else {
        slot(queue.drop_last(), at)
    }
}

/// The timeline with one more entry.
pub open spec fn enqueue(queue: Seq<Timed>, entry: Timed) -> Seq<Timed> {
    queue.insert(slot(queue, entry.at), entry)
}

/// What [`slot`] finds in an ordered timeline.
pub proof fn lemma_slot(queue: Seq<Timed>, at: Time)
    requires
        in_time_order(queue),
    ensures
        0 <= slot(queue, at) <= queue.len(),
        forall|i: int| 0 <= i < slot(queue, at) ==> (#[trigger] queue[i]).at <= at,
        forall|i: int| slot(queue, at) <= i < queue.len() ==> (#[trigger] queue[i]).at > at,
    decreases queue.len(),
{
    if queue.len() > 0 {
        let rest = queue.drop_last();
        if queue.last().at > at {
            lemma_slot(rest, at);
            assert forall|i: int| 0 <= i < slot(queue, at) implies (#[trigger] queue[i]).at
                <= at by {
                assert(queue[i] == rest[i]);
            }
            assert forall|i: int| slot(queue, at) <= i < queue.len() implies (#[trigger] queue[i]).at
                > at by {
                if i < rest.len() {
                    assert(queue[i] == rest[i]);
                }
            }
        }
    }
}

/// The entries of a timeline after one more was scheduled.
pub proof fn lemma_enqueue(queue: Seq<Timed>, entry: Timed)
    requires
        in_time_order(queue),
    ensures
        in_time_order(enqueue(queue, entry)),
        enqueue(queue, entry).len() == queue.len() + 1,
        enqueue(queue, entry)[slot(queue, entry.at)] == entry,
        0 <= slot(queue, entry.at) <= queue.len(),
        forall|i: int|
            0 <= i < slot(queue, entry.at) ==> #[trigger] enqueue(queue, entry)[i] == queue[i],
        forall|i: int|
            slot(queue, entry.at) < i <= queue.len() ==> #[trigger] enqueue(queue, entry)[i]
                == queue[i - 1],
{
    lemma_slot(queue, entry.at);
}

/// How many entries of a timeline are of a kind.
pub open spec fn tally(queue: Seq<Timed>, of: spec_fn(Timed) -> bool) -> nat
    decreases queue.len(),
{
    if queue.len() == 0 {
        0
    } else {
        tally(queue.drop_last(), of) + if of(queue.last()) {
            1nat
        } else {
            0nat
        }
    }
}

/// One more entry.
pub proof fn lemma_tally_enqueue(queue: Seq<Timed>, entry: Timed, of: spec_fn(Timed) -> bool)
    requires
        in_time_order(queue),
    ensures
        tally(enqueue(queue, entry), of) == tally(queue, of) + if of(entry) {
            1nat
        } else {
            0nat
        },
    decreases queue.len(),
{
    lemma_enqueue(queue, entry);
    if queue.len() == 0 || queue.last().at <= entry.at {
        assert(enqueue(queue, entry) =~= queue.push(entry));
        assert(queue.push(entry).drop_last() =~= queue);
    } else {
        let rest = queue.drop_last();
        lemma_tally_enqueue(rest, entry, of);
        lemma_enqueue(rest, entry);
        assert(enqueue(queue, entry) =~= enqueue(rest, entry).push(queue.last()));
        assert(enqueue(rest, entry).push(queue.last()).drop_last() =~= enqueue(rest, entry));
    }
}

/// The first entry.
pub proof fn lemma_tally_first(queue: Seq<Timed>, of: spec_fn(Timed) -> bool)
    requires
        queue.len() > 0,
    ensures
        tally(queue, of) == tally(queue.drop_first(), of) + if of(queue[0]) {
            1nat
        } else {
            0nat
        },
    decreases queue.len(),
{
    if queue.len() == 1 {
        assert(queue.drop_last() =~= Seq::empty());
        assert(queue.drop_first() =~= Seq::empty());
    } else {
        lemma_tally_first(queue.drop_last(), of);
        assert(queue.drop_last().drop_first() =~= queue.drop_first().drop_last());
    }
}

/// An entry that counts.
pub proof fn lemma_tally_entry(queue: Seq<Timed>, of: spec_fn(Timed) -> bool, k: int)
    requires
        0 <= k < queue.len(),
        of(queue[k]),
    ensures
        tally(queue, of) >= 1,
    decreases queue.len(),
{
    if k < queue.len() - 1 {
        lemma_tally_entry(queue.drop_last(), of, k);
    }
}

/// Put an entry in its place.
pub fn schedule_entry(queue: &mut Vec<Timed>, entry: Timed)
    requires
        in_time_order(old(queue)@),
    ensures
        final(queue)@ == enqueue(old(queue)@, entry),
        in_time_order(final(queue)@),
{
    let mut i: usize = queue.len();
    assert(queue@.take(i as int) =~= queue@);
    while i > 0 && queue[i - 1].at > entry.at
        invariant
            i <= queue@.len(),
            queue@ == old(queue)@,
            slot(queue@, entry.at) == slot(queue@.take(i as int), entry.at),
        decreases i,
    {
        let ghost front = queue@.take(i as int);
        assert(front.drop_last() =~= queue@.take(i - 1));
        i = i - 1;
    }
    proof {
        let front = queue@.take(i as int);
        if i > 0 {
            assert(front.last() == queue@[i - 1]);
        }
        assert(slot(front, entry.at) == i);
        lemma_enqueue(queue@, entry);
    }
    queue.insert(i, entry);
}

/// Scheduling keeps the timeline in time order.
pub proof fn law_timeline_stays_ordered(queue: Seq<Timed>, entry: Timed)
    requires
        in_time_order(queue),
    ensures
        in_time_order(enqueue(queue, entry)),
        enqueue(queue, entry).to_multiset() == queue.to_multiset().insert(entry),
{
    lemma_enqueue(queue, entry);
    let p = slot(queue, entry.at);
    let (a, b) = (queue.take(p), queue.skip(p));
    assert(queue =~= a + b);
    assert(enqueue(queue, entry) =~= a.push(entry) + b);
    broadcast use vstd::seq_lib::group_to_multiset_ensures;
    vstd::seq_lib::lemma_multiset_commutative(a, b);
    vstd::seq_lib::lemma_multiset_commutative(a.push(entry), b);
    assert(enqueue(queue, entry).to_multiset() =~= queue.to_multiset().insert(entry));
}

/// Of two items scheduled for the same time, the one scheduled first takes
/// effect first: a new entry goes behind every entry that is not later.
pub proof fn law_same_time_keeps_order(queue: Seq<Timed>, entry: Timed, i: int)
    requires
        in_time_order(queue),
        0 <= i < queue.len(),
        queue[i].at <= entry.at,
    ensures
        i < slot(queue, entry.at),
        enqueue(queue, entry)[i] == queue[i],
{
    lemma_enqueue(queue, entry);
    lemma_slot(queue, entry.at);
}

} // verus!
