//! The grantor -> grantee shape of a scenario.

use crate::event::{LeaseId, NodeId};
use crate::scenario::{Config, Scenario};
use std::collections::BTreeSet;
use vstd::prelude::*;
use vstd::std_specs::btree::{increasing_seq, spec_btree_keys_iter, spec_btree_set_len};
use vstd::std_specs::cmp::OrdSpec;
use vstd::std_specs::iter::IteratorSpec;

verus! {

broadcast use vstd::std_specs::btree::group_btree_axioms;

/// Strict majority (quorum-intersection threshold) for a cluster of size `n`.
pub fn majority(n: usize) -> (r: usize)
    ensures
        r == n / 2 + 1,
{
    n / 2 + 1
}

/// The grantor -> grantee shape of a scenario: everything the static canvas and
/// the per-node bar layout derive from, independent of any running simulation.
#[derive(Debug, Clone, PartialEq)]
pub struct Topology {
    pub n: usize,
    pub grantors: BTreeSet<NodeId>,
    pub grantees: BTreeSet<NodeId>,
}

/// The ids of `list`, as a set.
fn id_set(list: &[NodeId]) -> (r: BTreeSet<NodeId>)
    ensures
        r@ == list@.to_set(),
{
    let mut set: BTreeSet<NodeId> = BTreeSet::new();
    let mut i: usize = 0;
    assert(list@.take(0).to_set() =~= Set::empty());
    while i < list.len()
        invariant
            i <= list@.len(),
            set@ == list@.take(i as int).to_set(),
        decreases list@.len() - i,
    {
        set.insert(list[i]);
        assert(list@.take(i + 1) =~= list@.take(i as int).push(list@[i as int]));
        proof {
            lemma_push_to_set(list@.take(i as int), list@[i as int]);
        }
        i = i + 1;
    }
    assert(list@.take(i as int) =~= list@);
    set
}

proof fn lemma_push_to_set(s: Seq<NodeId>, x: NodeId)
    ensures
        s.push(x).to_set() == s.to_set().insert(x),
{
    assert forall|y: NodeId| s.push(x).to_set().contains(y) implies #[trigger] s.to_set().insert(
        x,
    ).contains(y) by {
        let k = choose|k: int| 0 <= k < s.push(x).len() && s.push(x)[k] == y;
        if k < s.len() {
            assert(s[k] == y);
        }
    }
    assert forall|y: NodeId| #[trigger] s.to_set().insert(x).contains(y) implies s.push(
        x,
    ).to_set().contains(y) by {
        if y == x {
            assert(s.push(x)[s.len() as int] == x);
        } else {
            let k = choose|k: int| 0 <= k < s.len() && s[k] == y;
            assert(s.push(x)[k] == y);
        }
    }
    assert(s.push(x).to_set() =~= s.to_set().insert(x));
}

/// A set is walked from its smallest id to its largest.
proof fn lemma_walk(set: &BTreeSet<NodeId>)
    ensures
        spec_btree_keys_iter(set).remaining().unref().to_set() == set@,
        forall|i: int, j: int|
            0 <= i < j < set@.len() ==> spec_btree_keys_iter(set).remaining().unref()[i]
                < spec_btree_keys_iter(set).remaining().unref()[j],
        set@.finite(),
        set@.len() <= usize::MAX,
{
    broadcast use vstd::laws_eq::group_laws_eq;
    reveal(vstd::laws_eq::obeys_eq_spec_properties);
    reveal(vstd::laws_cmp::obeys_partial_cmp_spec_properties);
    reveal(vstd::laws_cmp::obeys_cmp_partial_ord);
    reveal(vstd::laws_cmp::obeys_cmp_ord);
    assert(vstd::laws_cmp::obeys_cmp::<&NodeId>());
    let ids = spec_btree_keys_iter(set).remaining();
    assert(increasing_seq(ids));
    assert forall|i: int, j: int| 0 <= i < j < ids.len() implies *ids[i] < *ids[j] by {
        assert(OrdSpec::cmp_spec(&ids[i], &ids[j]) is Less);
    }
    assert forall|i: int, j: int| 0 <= i < j < ids.unref().len() implies ids.unref()[i]
        < ids.unref()[j] by {
        assert(*ids[i] < *ids[j]);
    }
    vstd::seq_lib::seq_to_set_is_finite(spec_btree_keys_iter(set).remaining().unref());
    assert(spec_btree_set_len(set) == set@.len());
}

/// The ids of `set`, smallest first.
pub(crate) fn ascending(set: &BTreeSet<NodeId>) -> (r: Vec<NodeId>)
    ensures
        r@.to_set() == set@,
        forall|i: int, j: int| 0 <= i < j < r@.len() ==> r@[i] < r@[j],
{
    proof {
        lemma_walk(set);
    }
    let mut list: Vec<NodeId> = Vec::new();
    for id in it: set.iter()
        invariant
            it.seq().unref() == spec_btree_keys_iter(set).remaining().unref(),
            list@ =~= spec_btree_keys_iter(set).remaining().unref().take(it.index()),
    {
        list.push(*id);
    }
    assert(list@ =~= spec_btree_keys_iter(set).remaining().unref());
    list
}

/// `a` comes before `b`: by grantor, then by grantee.
pub open spec fn precedes(a: LeaseId, b: LeaseId) -> bool {
    a.grantor < b.grantor || a.grantor == b.grantor && a.grantee < b.grantee
}

/// What a [`Topology`] holds.
#[verifier::ext_equal]
pub struct Shape {
    pub n: nat,
    pub grantors: Set<NodeId>,
    pub grantees: Set<NodeId>,
}

impl Shape {
    /// The topology has the lease `g -> h`: between two different nodes.
    pub open spec fn declares(self, g: NodeId, h: NodeId) -> bool {
        &&& self.grantors.contains(g)
        &&& self.grantees.contains(h)
        &&& g != h
        &&& g < self.n
        &&& h < self.n
    }

    /// `pairs` are the declared leases, each once, by grantor and then by grantee.
    pub open spec fn lists(self, pairs: Seq<LeaseId>) -> bool {
        &&& forall|l: LeaseId| #[trigger]
            pairs.contains(l) <==> self.declares(l.grantor, l.grantee)
        &&& forall|i: int, j: int| 0 <= i < j < pairs.len() ==> precedes(pairs[i], pairs[j])
    }

    /// How many leases `node` grants.
    pub open spec fn granted(self, node: NodeId) -> nat {
        if self.grantors.contains(node) {
            self.grantees.remove(node).len()
        } else {
            0
        }
    }

    /// How many leases `node` holds.
    pub open spec fn received(self, node: NodeId) -> nat {
        if self.grantees.contains(node) {
            self.grantors.remove(node).len()
        } else {
            0
        }
    }

    /// `1` for a node that is both a grantor and a grantee.
    pub open spec fn own_grant(self, node: NodeId) -> nat {
        if self.grantors.contains(node) && self.grantees.contains(node) {
            1
        } else {
            0
        }
    }

    /// How many grants `node` can hold: those of the grantors that grant to it,
    /// and its own.
    pub open spec fn most_grants(self, node: NodeId) -> nat {
        if self.grantees.contains(node) {
            self.grantors.len()
        } else {
            0
        }
    }

    /// Every id names a node.
    pub open spec fn in_range(self) -> bool {
        &&& forall|x: NodeId| #[trigger] self.grantors.contains(x) ==> x < self.n
        &&& forall|x: NodeId| #[trigger] self.grantees.contains(x) ==> x < self.n
    }

    /// The declared leases, each once, by grantor and then by grantee.
    pub open spec fn leases(self) -> Seq<LeaseId> {
        choose|pairs: Seq<LeaseId>| self.lists(pairs)
    }
}

/// The shape of a scenario's leases.
pub open spec fn shape_of(cfg: Config) -> Shape {
    Shape {
        n: cfg.nodes.len(),
        grantors: cfg.leases.map_values(|l: LeaseId| l.grantor).to_set(),
        grantees: cfg.leases.map_values(|l: LeaseId| l.grantee).to_set(),
    }
}

impl View for Topology {
    type V = Shape;

    open spec fn view(&self) -> Shape {
        Shape { n: self.n as nat, grantors: self.grantors@, grantees: self.grantees@ }
    }
}

impl Topology {
    /// Build from a node count and grantor/grantee id lists.
    pub fn new(n: usize, grantors: &[NodeId], grantees: &[NodeId]) -> (r: Self)
        ensures
            r@ == (Shape {
                n: n as nat,
                grantors: grantors@.to_set(),
                grantees: grantees@.to_set(),
            }),
    {
        Topology { n, grantors: id_set(grantors), grantees: id_set(grantees) }
    }

    /// Derive the topology from a scenario's declared leases, so a hardcoded demo
    /// has a single source of truth (the `Scenario`) for both its run and its
    /// static shape.
    pub fn from_scenario(s: &Scenario) -> (r: Self)
        ensures
            r@ == shape_of(s@),
    {
        let mut grantors: Vec<NodeId> = Vec::new();
        let mut grantees: Vec<NodeId> = Vec::new();
        let mut i: usize = 0;
        while i < s.leases.len()
            invariant
                i <= s@.leases.len(),
                grantors@ =~= s@.leases.take(i as int).map_values(|l: LeaseId| l.grantor),
                grantees@ =~= s@.leases.take(i as int).map_values(|l: LeaseId| l.grantee),
            decreases s@.leases.len() - i,
        {
            grantors.push(s.leases[i].grantor);
            grantees.push(s.leases[i].grantee);
            i = i + 1;
        }
        assert(s@.leases.take(i as int) =~= s@.leases);
        Self::new(s.node_count(), grantors.as_slice(), grantees.as_slice())
    }

    /// Whether at least one grantor -> grantee lease is declared (`g != h`).
    pub fn has_leases(&self) -> (r: bool)
        ensures
            r == exists|g: NodeId, h: NodeId| self@.declares(g, h),
    {
        let pairs: Vec<LeaseId> = self.pairs();
        if pairs.len() > 0 {
            assert(pairs@.contains(pairs@[0]));
            true
        } else {
            assert forall|g: NodeId, h: NodeId| !self@.declares(g, h) by {
                if self@.declares(g, h) {
                    assert(pairs@.contains(LeaseId { grantor: g, grantee: h }));
                }
            }
            false
        }
    }

    /// The declared leases, by grantor and then by grantee.
    pub fn pairs(&self) -> (r: Vec<LeaseId>)
        ensures
            self@.lists(r@),
            r@ == self@.leases(),
    {
        let grantors: Vec<NodeId> = ascending(&self.grantors);
        let grantees: Vec<NodeId> = ascending(&self.grantees);
        let mut pairs: Vec<LeaseId> = Vec::new();
        let mut i: usize = 0;
        while i < grantors.len()
            invariant
                i <= grantors@.len(),
                grantors@.to_set() == self.grantors@,
                grantees@.to_set() == self.grantees@,
                forall|a: int, b: int| 0 <= a < b < grantors@.len() ==> grantors@[a] < grantors@[b],
                forall|a: int, b: int| 0 <= a < b < grantees@.len() ==> grantees@[a] < grantees@[b],
                forall|k: int| 0 <= k < pairs@.len() ==> #[trigger] self@.declares(
                    pairs@[k].grantor,
                    pairs@[k].grantee,
                ),
                forall|k: int, a: int|
                    0 <= k < pairs@.len() && i <= a < grantors@.len() ==> (
                    #[trigger] pairs@[k]).grantor < #[trigger] grantors@[a],
                forall|a: int, b: int|
                    0 <= a < i && 0 <= b < grantees@.len() && self@.declares(
                        #[trigger] grantors@[a],
                        #[trigger] grantees@[b],
                    ) ==> pairs@.contains(
                        LeaseId { grantor: grantors@[a], grantee: grantees@[b] },
                    ),
                forall|a: int, b: int| 0 <= a < b < pairs@.len() ==> precedes(pairs@[a], pairs@[b]),
            decreases grantors@.len() - i,
        {
            let g: NodeId = grantors[i];
            let ghost earlier = pairs@;
            assert(self.grantors@.contains(g)) by {
                assert(grantors@.to_set().contains(grantors@[i as int]));
            }
            let mut j: usize = 0;
            while j < grantees.len()
                invariant
                    j <= grantees@.len(),
                    i < grantors@.len(),
                    g == grantors@[i as int],
                    self.grantors@.contains(g),
                    grantees@.to_set() == self.grantees@,
                    forall|a: int, b: int|
                        0 <= a < b < grantors@.len() ==> grantors@[a] < grantors@[b],
                    forall|a: int, b: int|
                        0 <= a < b < grantees@.len() ==> grantees@[a] < grantees@[b],
                    earlier.len() <= pairs@.len(),
                    earlier == pairs@.take(earlier.len() as int),
                    forall|k: int| 0 <= k < pairs@.len() ==> #[trigger] self@.declares(
                        pairs@[k].grantor,
                        pairs@[k].grantee,
                    ),
                    forall|k: int| 0 <= k < earlier.len() ==> (#[trigger] earlier[k]).grantor < g,
                    forall|k: int|
                        earlier.len() <= k < pairs@.len() ==> (#[trigger] pairs@[k]).grantor == g,
                    forall|k: int, b: int|
                        earlier.len() <= k < pairs@.len() && j <= b < grantees@.len() ==> (
                        #[trigger] pairs@[k]).grantee < #[trigger] grantees@[b],
                    forall|b: int|
                        0 <= b < j && self@.declares(g, #[trigger] grantees@[b]) ==> pairs@.contains(
                            LeaseId { grantor: g, grantee: grantees@[b] },
                        ),
                    forall|a: int, b: int|
                        0 <= a < b < pairs@.len() ==> precedes(pairs@[a], pairs@[b]),
                decreases grantees@.len() - j,
            {
                let h: NodeId = grantees[j];
                let ghost before = pairs@;
                assert(self.grantees@.contains(h)) by {
                    assert(grantees@.to_set().contains(grantees@[j as int]));
                }
                if g != h && g < self.n && h < self.n {
                    let l = LeaseId { grantor: g, grantee: h };
                    assert forall|a: int| 0 <= a < before.len() implies precedes(before[a], l) by {
                        if a < earlier.len() {
                            assert(before[a] == earlier[a]);
                        }
                    }
                    pairs.push(l);
                    assert(pairs@.last() == l);
                    assert(pairs@.take(earlier.len() as int) =~= earlier);
                    assert forall|x: LeaseId| before.contains(x) implies pairs@.contains(x) by {
                        let k = choose|k: int| 0 <= k < before.len() && before[k] == x;
                        assert(pairs@[k] == x);
                    }
                }
                j = j + 1;
            }
            assert forall|x: LeaseId| earlier.contains(x) implies pairs@.contains(x) by {
                let k = choose|k: int| 0 <= k < earlier.len() && earlier[k] == x;
                assert(pairs@[k] == x);
            }
            assert forall|k: int, a: int|
                0 <= k < pairs@.len() && i + 1 <= a < grantors@.len() implies (
            #[trigger] pairs@[k]).grantor < #[trigger] grantors@[a] by {
                if k < earlier.len() {
                    assert(pairs@[k] == earlier[k]);
                }
            }
            i = i + 1;
        }
        assert forall|l: LeaseId| #[trigger]
            pairs@.contains(l) <==> self@.declares(l.grantor, l.grantee) by {
            if pairs@.contains(l) {
                let k = choose|k: int| 0 <= k < pairs@.len() && pairs@[k] == l;
                assert(self@.declares(pairs@[k].grantor, pairs@[k].grantee));
            }
            if self@.declares(l.grantor, l.grantee) {
                assert(grantors@.to_set().contains(l.grantor));
                assert(grantees@.to_set().contains(l.grantee));
                let a = choose|a: int| 0 <= a < grantors@.len() && grantors@[a] == l.grantor;
                let b = choose|b: int| 0 <= b < grantees@.len() && grantees@[b] == l.grantee;
                assert(pairs@.contains(LeaseId { grantor: grantors@[a], grantee: grantees@[b] }));
            }
        }
        proof {
            law_listing_is_unique(self@, pairs@, self@.leases());
        }
        pairs
    }

    /// The "leader": the smallest-id grantee, marked with a crown. `None` if
    /// there is no in-range grantee.
    pub fn leader(&self) -> (r: Option<NodeId>)
        ensures
            match r {
                Some(id) => {
                    &&& self.grantees@.contains(id)
                    &&& id < self.n
                    &&& forall|h: NodeId| self.grantees@.contains(h) ==> id <= h
                },
                None => forall|h: NodeId| self.grantees@.contains(h) ==> self.n <= h,
            },
    {
        let grantees: Vec<NodeId> = ascending(&self.grantees);
        assert forall|h: NodeId| self.grantees@.contains(h) implies 0 < grantees@.len()
            && grantees@[0] <= h by {
            assert(grantees@.to_set().contains(h));
        }
        if grantees.len() > 0 && grantees[0] < self.n {
            assert(grantees@.to_set().contains(grantees@[0]));
            Some(grantees[0])
        } else {
            None
        }
    }

    /// Per-node `(out, inc)` bar counts: leases it grants (as-grantor) and leases
    /// it holds (as-grantee), the same pairs a scenario declares (`g != h`).
    pub fn bar_counts(&self) -> (r: Vec<(usize, usize)>)
        ensures
            r@.len() == self.n,
            forall|node: NodeId|
                node < self.n ==> (#[trigger] r@[node as int]).0 == self@.granted(node)
                    && r@[node as int].1 == self@.received(node),
    {
        let mut counts: Vec<(usize, usize)> = Vec::new();
        let mut node: usize = 0;
        while node < self.n
            invariant
                node <= self.n,
                counts@.len() == node,
                forall|m: NodeId|
                    m < node ==> (#[trigger] counts@[m as int]).0 == self@.granted(m)
                        && counts@[m as int].1 == self@.received(m),
            decreases self.n - node,
        {
            let out: usize = if self.grantors.contains(&node) {
                others(&self.grantees, node)
            } else {
                0
            };
            let inc: usize = if self.grantees.contains(&node) {
                others(&self.grantors, node)
            } else {
                0
            };
            counts.push((out, inc));
            node = node + 1;
        }
        counts
    }

    /// Per-node implicit self-grant (1 if it is both a grantor and a grantee).
    pub fn self_grant(&self) -> (r: Vec<usize>)
        ensures
            r@.len() == self.n,
            forall|node: NodeId| node < self.n ==> #[trigger] r@[node as int] == self@.own_grant(node),
    {
        let mut own: Vec<usize> = Vec::new();
        let mut node: usize = 0;
        while node < self.n
            invariant
                node <= self.n,
                own@.len() == node,
                forall|m: NodeId| m < node ==> #[trigger] own@[m as int] == self@.own_grant(m),
            decreases self.n - node,
        {
            own.push(
                if self.grantors.contains(&node) && self.grantees.contains(&node) {
                    1
                } else {
                    0
                },
            );
            node = node + 1;
        }
        own
    }

    /// Per-node max grants it can hold as a grantee: grantors that grant to it
    /// plus its own self-grant; 0 for a non-grantee.
    pub fn max_grants(&self) -> (r: Vec<usize>)
        ensures
            r@.len() == self.n,
            forall|node: NodeId|
                node < self.n ==> #[trigger] r@[node as int] == self@.most_grants(node),
    {
        let own: Vec<usize> = self.self_grant();
        let mut most: Vec<usize> = Vec::new();
        let mut node: usize = 0;
        while node < self.n
            invariant
                node <= self.n,
                own@.len() == self.n,
                forall|m: NodeId| m < self.n ==> #[trigger] own@[m as int] == self@.own_grant(m),
                most@.len() == node,
                forall|m: NodeId| m < node ==> #[trigger] most@[m as int] == self@.most_grants(m),
            decreases self.n - node,
        {
            let max: usize = if self.grantees.contains(&node) {
                others(&self.grantors, node) + own[node]
            } else {
                0
            };
            most.push(max);
            node = node + 1;
        }
        most
    }
}

/// How many ids of `set` are not `node`.
fn others(set: &BTreeSet<NodeId>, node: NodeId) -> (r: usize)
    ensures
        r == set@.remove(node).len(),
        r + (if set@.contains(node) {
            1int
        } else {
            0int
        }) == set@.len() <= usize::MAX,
{
    proof {
        lemma_walk(set);
    }
    if set.contains(&node) {
        set.len() - 1
    } else {
        assert(set@.remove(node) =~= set@);
        set.len()
    }
}

/// `pairs` are the declared leases up to that of grantor `g` to the grantees below
/// `k`, in order.
spec fn lists_up_to(t: Shape, pairs: Seq<LeaseId>, g: nat, k: nat) -> bool {
    &&& forall|l: LeaseId| #[trigger]
        pairs.contains(l) <==> t.declares(l.grantor, l.grantee) && (l.grantor < g || l.grantor == g
            && l.grantee < k)
    &&& forall|i: int, j: int| 0 <= i < j < pairs.len() ==> precedes(pairs[i], pairs[j])
}

/// The leases of a topology can be listed, up to any of them.
proof fn lemma_listing(t: Shape, g: nat, k: nat) -> (pairs: Seq<LeaseId>)
    requires
        g <= t.n <= usize::MAX,
        k <= t.n,
    ensures
        lists_up_to(t, pairs, g, k),
    decreases g, k,
{
    if k > 0 {
        let before = lemma_listing(t, g, (k - 1) as nat);
        let l = LeaseId { grantor: g as usize, grantee: (k - 1) as usize };
        if g < t.n && t.declares(l.grantor, l.grantee) {
            let pairs = before.push(l);
            assert forall|x: LeaseId| #[trigger] pairs.contains(x) <==> before.contains(x) || x
                == l by {
                if pairs.contains(x) {
                    let i = choose|i: int| 0 <= i < pairs.len() && pairs[i] == x;
                    assert(i < before.len() ==> before[i] == x);
                }
                if before.contains(x) {
                    let i = choose|i: int| 0 <= i < before.len() && before[i] == x;
                    assert(pairs[i] == x);
                }
                assert(pairs[before.len() as int] == l);
            }
            assert forall|i: int| 0 <= i < before.len() implies precedes(before[i], l) by {
                assert(before.contains(before[i]));
            }
            pairs
        } else {
            assert forall|x: LeaseId| before.contains(x) <==> t.declares(x.grantor, x.grantee) && (
            x.grantor < g || x.grantor == g && x.grantee < k) by {
                if t.declares(x.grantor, x.grantee) && x.grantor == g && x.grantee == k - 1 {
                    assert(x == l);
                }
            }
            before
        }
    } else if g > 0 {
        lemma_listing(t, (g - 1) as nat, t.n)
    } else {
        Seq::empty()
    }
}

/// Every topology has a listing of its leases.
pub proof fn law_leases_are_listed(t: Shape)
    requires
        t.n <= usize::MAX,
    ensures
        t.lists(t.leases()),
{
    let pairs = lemma_listing(t, t.n, 0);
    assert(t.lists(pairs));
}

/// Two majorities of a cluster have a node in common.
pub proof fn law_majorities_intersect(n: usize, a: Set<NodeId>, b: Set<NodeId>)
    requires
        a.finite(),
        b.finite(),
        forall|x: NodeId| a.contains(x) || b.contains(x) ==> x < n,
        a.len() >= n / 2 + 1,
        b.len() >= n / 2 + 1,
    ensures
        exists|x: NodeId| a.contains(x) && b.contains(x),
{
    if forall|x: NodeId| !(a.contains(x) && b.contains(x)) {
        assert(a.disjoint(b));
        vstd::set_lib::lemma_set_disjoint_lens(a, b);
        lemma_below_len(a + b, n as nat);
    }
}

/// A topology has one listing of its leases.
pub proof fn law_listing_is_unique(t: Shape, a: Seq<LeaseId>, b: Seq<LeaseId>)
    requires
        t.lists(a),
        t.lists(b),
    ensures
        a == b,
{
    lemma_listing_prefix(t, a, b, a.len());
    lemma_listing_prefix(t, b, a, b.len());
    assert(a =~= b);
}

/// The first `n` leases of a listing are the first `n` leases of any other.
proof fn lemma_listing_prefix(t: Shape, a: Seq<LeaseId>, b: Seq<LeaseId>, n: nat)
    requires
        t.lists(a),
        t.lists(b),
        n <= a.len(),
    ensures
        n <= b.len(),
        forall|i: int| 0 <= i < n ==> a[i] == b[i],
    decreases n,
{
    if n > 0 {
        let k = n - 1;
        lemma_listing_prefix(t, a, b, k as nat);
        assert(a.contains(a[k]));
        assert(b.contains(a[k]));
        let m = choose|m: int| 0 <= m < b.len() && b[m] == a[k];
        if m < k {
            assert(precedes(a[m], a[k]));
        }
        assert(b.contains(b[k]));
        assert(a.contains(b[k]));
        let l = choose|l: int| 0 <= l < a.len() && a[l] == b[k];
        if l < k {
            assert(precedes(b[l], b[k]));
        }
        if k < m {
            assert(precedes(b[k], b[m]));
        }
        if k < l {
            assert(precedes(a[k], a[l]));
        }
    }
}

/// Nothing is lost between a topology and the scenario that declares its leases:
/// the shape read back from the declared leases has the same leases.
pub proof fn law_leases_tell_the_shape(cfg: Config, t: Shape, g: NodeId, h: NodeId)
    requires
        t.lists(cfg.leases),
        t.n == cfg.nodes.len(),
    ensures
        shape_of(cfg).declares(g, h) <==> t.declares(g, h),
{
    let sources = cfg.leases.map_values(|l: LeaseId| l.grantor);
    let holders = cfg.leases.map_values(|l: LeaseId| l.grantee);
    if shape_of(cfg).declares(g, h) {
        let i = choose|i: int| 0 <= i < sources.len() && sources[i] == g;
        let j = choose|j: int| 0 <= j < holders.len() && holders[j] == h;
        assert(cfg.leases.contains(cfg.leases[i]));
        assert(cfg.leases.contains(cfg.leases[j]));
    }
    if t.declares(g, h) {
        let l = LeaseId { grantor: g, grantee: h };
        assert(cfg.leases.contains(l));
        let i = choose|i: int| 0 <= i < cfg.leases.len() && cfg.leases[i] == l;
        assert(sources[i] == g);
        assert(holders[i] == h);
    }
}

/// Where every id names a node, a node's bar counts are the numbers of declared
/// leases that it grants and that it holds.
pub proof fn law_bar_counts_count_leases(t: Shape, pairs: Seq<LeaseId>, node: NodeId)
    requires
        t.lists(pairs),
        t.in_range(),
        node < t.n,
    ensures
        t.granted(node) == pairs.filter(|l: LeaseId| l.grantor == node).len(),
        t.received(node) == pairs.filter(|l: LeaseId| l.grantee == node).len(),
{
    let others = if t.grantors.contains(node) {
        t.grantees.remove(node)
    } else {
        Set::empty()
    };
    assert forall|i: int, j: int| 0 <= i < pairs.len() && 0 <= j < pairs.len() && i != j implies pairs[i]
        != pairs[j] by {
        assert(i < j ==> precedes(pairs[i], pairs[j]));
        assert(j < i ==> precedes(pairs[j], pairs[i]));
    }
    assert forall|x: NodeId|
        others.contains(x) <==> exists|l: LeaseId|
            pairs.contains(l) && l.grantor == node && l.grantee == x by {
        assert(others.contains(x) ==> pairs.contains(LeaseId { grantor: node, grantee: x }));
    }
    let sources = if t.grantees.contains(node) {
        t.grantors.remove(node)
    } else {
        Set::empty()
    };
    assert forall|x: NodeId|
        sources.contains(x) <==> exists|l: LeaseId|
            pairs.contains(l) && l.grantee == node && l.grantor == x by {
        assert(sources.contains(x) ==> pairs.contains(LeaseId { grantor: x, grantee: node }));
    }
    lemma_filter_len(pairs, |l: LeaseId| l.grantor == node, |l: LeaseId| l.grantee, others);
    lemma_filter_len(pairs, |l: LeaseId| l.grantee == node, |l: LeaseId| l.grantor, sources);
}

/// The kept leases of a list without repetitions, each told by one of its ids,
/// are as many as those ids.
proof fn lemma_filter_len(
    pairs: Seq<LeaseId>,
    keep: spec_fn(LeaseId) -> bool,
    id: spec_fn(LeaseId) -> NodeId,
    ids: Set<NodeId>,
)
    requires
        pairs.no_duplicates(),
        forall|a: LeaseId, b: LeaseId|
            keep(a) && keep(b) && pairs.contains(a) && pairs.contains(b) && id(a) == id(b) ==> a
                == b,
        forall|x: NodeId|
            ids.contains(x) <==> exists|l: LeaseId| pairs.contains(l) && keep(l) && id(l) == x,
    ensures
        pairs.filter(keep).len() == ids.len(),
{
    let kept = pairs.filter(keep);
    let told = kept.map_values(id);
    lemma_filter_once(pairs, keep);
    assert forall|i: int, j: int| 0 <= i < told.len() && 0 <= j < told.len() && i != j implies told[i]
        != told[j] by {
        assert(kept.contains(kept[i]) && kept.contains(kept[j]));
    }
    assert forall|x: NodeId| told.to_set().contains(x) <==> ids.contains(x) by {
        if told.to_set().contains(x) {
            let i = choose|i: int| 0 <= i < told.len() && told[i] == x;
            assert(kept.contains(kept[i]) && id(kept[i]) == x);
        }
        if ids.contains(x) {
            let l = choose|l: LeaseId| pairs.contains(l) && keep(l) && id(l) == x;
            assert(kept.contains(l));
            let i = choose|i: int| 0 <= i < kept.len() && kept[i] == l;
            assert(told[i] == x);
        }
    }
    assert(told.to_set() =~= ids);
    told.unique_seq_to_set();
}

/// Filtering a list without repetitions keeps each kept lease once.
proof fn lemma_filter_once(pairs: Seq<LeaseId>, keep: spec_fn(LeaseId) -> bool)
    requires
        pairs.no_duplicates(),
    ensures
        pairs.filter(keep).no_duplicates(),
        forall|l: LeaseId| #[trigger]
            pairs.filter(keep).contains(l) <==> pairs.contains(l) && keep(l),
    decreases pairs.len(),
{
    reveal(Seq::filter);
    if pairs.len() > 0 {
        let rest = pairs.drop_last();
        lemma_filter_once(rest, keep);
        let kept = rest.filter(keep);
        let last = pairs.last();
        assert(pairs =~= rest.push(last));
        assert(!rest.contains(last));
        assert(!kept.contains(last));
        assert forall|i: int, j: int|
            0 <= i < pairs.filter(keep).len() && 0 <= j < pairs.filter(keep).len() && i
                != j implies pairs.filter(keep)[i] != pairs.filter(keep)[j] by {
            assert(i < kept.len() ==> kept.contains(kept[i]));
            assert(j < kept.len() ==> kept.contains(kept[j]));
        }
        assert forall|l: LeaseId| #[trigger]
            pairs.filter(keep).contains(l) <==> pairs.contains(l) && keep(l) by {
            assert(pairs.contains(l) <==> rest.contains(l) || l == last) by {
                if rest.contains(l) {
                    let i = choose|i: int| 0 <= i < rest.len() && rest[i] == l;
                    assert(pairs[i] == l);
                }
                assert(pairs[pairs.len() - 1] == last);
            }
            if kept.contains(l) {
                let i = choose|i: int| 0 <= i < kept.len() && kept[i] == l;
                assert(pairs.filter(keep)[i] == l);
            }
            if keep(last) {
                assert(kept.push(last)[kept.len() as int] == last);
            }
        }
    }
}

/// A set of numbers below `n` has at most `n` elements.
pub proof fn lemma_below_len(s: Set<NodeId>, n: nat)
    requires
        s.finite(),
        forall|x: NodeId| s.contains(x) ==> x < n,
        n <= usize::MAX,
    ensures
        s.len() <= n,
    decreases n,
{
    if n == 0 {
        assert(s =~= Set::empty());
    } else {
        let last = (n - 1) as usize;
        assert forall|x: NodeId| s.remove(last).contains(x) implies x < n - 1 by {}
        lemma_below_len(s.remove(last), (n - 1) as nat);
    }
}

/// A node can hold as many grants as it has grantors, and one more if it grants to itself.
pub proof fn law_most_grants_are_all_grants(t: Shape, node: NodeId)
    requires
        t.grantors.finite(),
    ensures
        t.most_grants(node) == t.received(node) + t.own_grant(node),
        t.own_grant(node) <= 1,
        t.own_grant(node) == 1 <==> t.grantors.contains(node) && t.grantees.contains(node),
{
}

} // verus!
