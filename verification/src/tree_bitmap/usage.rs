//! How many slots of the arenas a table holds, and that it holds no more
//! than its prefixes need.
//!
//! Every node with children is paired with a node with results, and no two
//! with the same: a node that has results, with itself; one that has none,
//! with the leaf that is reached from its second child by first children.
//! The root, which may have no result and one child, takes the leaf that is
//! reached from it by first children.

use vstd::prelude::*;
use vstd::relations::injective_on;
use vstd::set_lib::{lemma_len_subset, lemma_map_size};
use crate::bitmap::lemma_rank_onto;
use crate::prefix::Prefix;
use crate::tree_bitmap::TreeBitmap;

verus! {

impl<V> TreeBitmap<V> {
    /// The path of the node at place `k` of the child slot of the node of
    /// `q`.
    pub(crate) open spec fn child_path(&self, q: Seq<u8>, k: int) -> Seq<u8> {
        self.ns()[self.node_of(q).child_base as int][k].path@
    }

    /// The leaf that is reached from the node of `q` by first children, in
    /// at most `fuel` steps.
    pub(crate) open spec fn first_leaf(&self, q: Seq<u8>, fuel: nat) -> Seq<u8>
        decreases fuel,
    {
        if fuel == 0 || self.node_of(q).child_base == 0 {
            q
        } else {
            self.first_leaf(self.child_path(q, 0), (fuel - 1) as nat)
        }
    }

    /// Whether `a` is `b` or a beginning of it.
    pub(crate) open spec fn leads_to(a: Seq<u8>, b: Seq<u8>) -> bool {
        a.len() <= b.len() && b.take(a.len() as int) == a
    }

    /// The first child of the root, the second child of any other node.
    pub(crate) open spec fn anchor(&self, p: Seq<u8>) -> Seq<u8> {
        if p.len() == 0 {
            self.child_path(p, 0)
        } else {
            self.child_path(p, 1)
        }
    }

    /// The node with results that the node of `p`, which has children, is
    /// paired with.
    pub(crate) open spec fn partner(&self, p: Seq<u8>) -> Seq<u8> {
        if self.node_of(p).result_base != 0 {
            p
        } else {
            self.first_leaf(self.anchor(p), 32)
        }
    }

    /// Whether the node of `p` exists and has children.
    pub(crate) open spec fn branches(&self, p: Seq<u8>) -> bool {
        self.index@.dom().contains(p) && self.node_of(p).child_base != 0
    }

    /// Whether the node of `p` exists and has results.
    pub(crate) open spec fn holds(&self, p: Seq<u8>) -> bool {
        self.index@.dom().contains(p) && self.node_of(p).result_base != 0
    }

    /// The child at place `k` of a node: it exists, hangs under the node,
    /// and its path is longer.
    proof fn lemma_child_at(&self, q: Seq<u8>, k: int)
        requires
            self.inv(),
            self.branches(q),
            0 <= k < self.ns()[self.node_of(q).child_base as int].len(),
        ensures
            self.index@.dom().contains(self.child_path(q, k)),
            self.index@[self.child_path(q, k)] == (self.node_of(q).child_base as int, k),
            Self::leads_to(q, self.child_path(q, k)),
            q.len() < self.child_path(q, k).len() <= 31,
            self.node_of(self.child_path(q, k)).parent_len() == q.len(),
    {
        let (b, j) = self.index@[q];
        assert(self.live_at(b, j));
        self.lemma_block_members(b, j, k);
        self.lemma_node(self.node_of(q).child_base as int, k);
    }

    /// The leaf that is reached by first children has no children, lies
    /// below the node the walk began at, and every node between lies at the
    /// first place of its slot.
    proof fn lemma_first_leaf(&self, q: Seq<u8>, fuel: nat)
        requires
            self.inv(),
            self.index@.dom().contains(q),
            q.len() <= 31,
            fuel >= 32 - q.len(),
        ensures
            self.index@.dom().contains(self.first_leaf(q, fuel)),
            self.node_of(self.first_leaf(q, fuel)).child_base == 0,
            Self::leads_to(q, self.first_leaf(q, fuel)),
            forall|m: Seq<u8>|
                self.index@.dom().contains(m) && q.len() < m.len() && Self::leads_to(q, m)
                    && Self::leads_to(m, self.first_leaf(q, fuel)) ==> (#[trigger] self.index@[m]).1
                    == 0,
        decreases fuel,
    {
        let leaf = self.first_leaf(q, fuel);
        if self.node_of(q).child_base == 0 {
            assert(leaf.take(q.len() as int) =~= q);
            assert forall|m: Seq<u8>|
                self.index@.dom().contains(m) && q.len() < m.len() && Self::leads_to(q, m)
                    && Self::leads_to(m, leaf) implies (#[trigger] self.index@[m]).1 == 0 by {}
        } else {
            let (b, j) = self.index@[q];
            assert(self.live_at(b, j));
            self.lemma_node(b, j);
            assert(self.ns()[self.node_of(q).child_base as int].len() >= 1);
            let c = self.child_path(q, 0);
            self.lemma_child_at(q, 0);
            self.lemma_first_leaf(c, (fuel - 1) as nat);
            assert(leaf == self.first_leaf(c, (fuel - 1) as nat));
            assert(leaf.take(q.len() as int) =~= q);
            assert forall|m: Seq<u8>|
                self.index@.dom().contains(m) && q.len() < m.len() && Self::leads_to(q, m)
                    && Self::leads_to(m, leaf) implies (#[trigger] self.index@[m]).1 == 0 by {
                // the way from `q` to `m` leads through the child under the next nibble,
                // and that is the first child, since the leaf lies below it
                self.lemma_chain(q, m);
                assert(m[q.len() as int] == leaf[q.len() as int]);
                assert(c[q.len() as int] == leaf[q.len() as int]);
                self.lemma_block_members(b, j, 0);
                let via = self.child_of(self.node_of(q), m[q.len() as int] as int);
                assert(via.path@ == c);
                if m.len() == c.len() {
                    assert(m =~= c);
                } else {
                    assert(m.take(c.len() as int) =~= c);
                }
            }
        }
    }

    /// The node that a walk by first children begins at, for a node with
    /// children and without results: it exists and hangs under that node, at
    /// the first place if the node is the root and at the second if not.
    proof fn lemma_anchor(&self, p: Seq<u8>)
        requires
            self.inv(),
            self.full_but(None),
            self.branches(p),
            !self.holds(p),
        ensures
            self.index@.dom().contains(self.anchor(p)),
            self.index@[self.anchor(p)] == (
                self.node_of(p).child_base as int,
                if p.len() == 0 {
                    0int
                } else {
                    1int
                },
            ),
            p.len() < self.anchor(p).len() <= 31,
            Self::leads_to(p, self.anchor(p)),
            self.node_of(self.anchor(p)).parent_len() == p.len(),
    {
        let (b, j) = self.index@[p];
        assert(self.live_at(b, j));
        self.lemma_node(b, j);
        let n = self.at(b, j);
        if p.len() == 0 {
            assert(self.ns()[n.child_base as int].len() >= 1);
            self.lemma_child_at(p, 0);
        } else {
            assert(!n.is_sparse());
            self.lemma_child_at(p, 1);
        }
    }

    /// The partner of a node with children has results.
    proof fn lemma_partner_holds(&self, p: Seq<u8>)
        requires
            self.inv(),
            self.full_but(None),
            self.branches(p),
        ensures
            self.holds(self.partner(p)),
    {
        if !self.holds(p) {
            let a = self.anchor(p);
            self.lemma_anchor(p);
            self.lemma_first_leaf(a, 32);
            let leaf = self.first_leaf(a, 32);
            let (b, j) = self.index@[leaf];
            assert(self.live_at(b, j));
            self.lemma_node(b, j);
            assert(!self.at(b, j).is_sparse());
        }
    }

    /// No two nodes with children have the same partner.
    proof fn lemma_partner_apart(&self, p: Seq<u8>, q: Seq<u8>)
        requires
            self.inv(),
            self.full_but(None),
            self.branches(p),
            self.branches(q),
            self.partner(p) == self.partner(q),
        ensures
            p == q,
    {
        if self.holds(p) && self.holds(q) {
        } else if self.holds(p) {
            self.lemma_anchor(q);
            self.lemma_first_leaf(self.anchor(q), 32);
        } else if self.holds(q) {
            self.lemma_anchor(p);
            self.lemma_first_leaf(self.anchor(p), 32);
        } else {
            let a = self.anchor(p);
            let c = self.anchor(q);
            self.lemma_anchor(p);
            self.lemma_anchor(q);
            self.lemma_first_leaf(a, 32);
            self.lemma_first_leaf(c, 32);
            let leaf = self.first_leaf(a, 32);
            if a.len() == c.len() {
                assert(a =~= c);
                assert(p =~= a.take(p.len() as int));
                assert(q =~= c.take(q.len() as int));
            } else if a.len() < c.len() {
                self.lemma_between(p, a, q, c, leaf);
            } else {
                self.lemma_between(q, c, p, a, leaf);
            }
        }
    }

    /// Two walks that begin at different depths do not end at the same leaf.
    proof fn lemma_between(&self, p: Seq<u8>, a: Seq<u8>, q: Seq<u8>, c: Seq<u8>, leaf: Seq<u8>)
        requires
            self.inv(),
            self.full_but(None),
            self.branches(p),
            self.branches(q),
            !self.holds(p),
            !self.holds(q),
            a == self.anchor(p),
            c == self.anchor(q),
            leaf == self.first_leaf(a, 32),
            leaf == self.first_leaf(c, 32),
            a.len() < c.len(),
        ensures
            p == q,
    {
        self.lemma_anchor(p);
        self.lemma_anchor(q);
        self.lemma_first_leaf(a, 32);
        self.lemma_first_leaf(c, 32);
        assert(c.take(a.len() as int) =~= leaf.take(a.len() as int));
        assert(Self::leads_to(a, c));
        // the deeper walk begins on the way of the other: at a first place
        assert(self.index@[c].1 == 0);
        // so it begins at a child of the root, and the other above it
        assert(q.len() == 0);
        assert(self.index@.dom().contains(q));
        assert(a.take(0) =~= q);
        assert(c.take(0) =~= q);
        self.lemma_chain(q, a);
        self.lemma_chain(q, c);
        let (b, j) = self.index@[q];
        assert(self.live_at(b, j));
        self.lemma_block_members(b, j, 0);
        assert(a[0] == c[0]);
        let via = self.child_of(self.node_of(q), a[0] as int);
        assert(via.path@ == c);
    }

    /// The node that holds a live slot of the node arena other than the
    /// root's.
    pub(crate) open spec fn owner(&self, b: int) -> Seq<u8> {
        self.ns()[b][0].path@.take(self.ns()[b][0].parent_len())
    }

    /// The node that holds a live slot of the result arena.
    pub(crate) open spec fn keeper(&self, rb: int) -> Seq<u8> {
        self.rs()[rb][0].key@.stem
    }

    /// A live slot of the node arena other than the root's is the child slot
    /// of its owner.
    proof fn lemma_owner(&self, b: int)
        requires
            self.inv(),
            self.nodes.is_live(b),
            b != self.root,
        ensures
            self.branches(self.owner(b)),
            self.node_of(self.owner(b)).child_base == b,
    {
        assert(self.live_at(b, 0));
        self.lemma_node(b, 0);
        assert(self.parent_ok(b, 0));
    }

    /// A live slot of the result arena is the result slot of its keeper.
    proof fn lemma_keeper(&self, rb: int)
        requires
            self.inv(),
            self.results.is_live(rb),
        ensures
            self.holds(self.keeper(rb)),
            self.node_of(self.keeper(rb)).result_base == rb,
    {
        assert(self.result_block_ok(rb));
    }

    /// As many nodes have children as slots of the node arena are live
    /// beside the root's, and as many have results as slots of the result
    /// arena are live.
    proof fn lemma_census(&self)
        requires
            self.inv(),
        ensures
            Set::new(|p: Seq<u8>| self.branches(p)).finite(),
            Set::new(|p: Seq<u8>| self.holds(p)).finite(),
            Set::new(|p: Seq<u8>| self.branches(p)).len() == self.live_nodes() - 1,
            Set::new(|p: Seq<u8>| self.holds(p)).len() == self.live_results(),
    {
        self.nodes.lemma_live_count();
        self.results.lemma_live_count();
        let inner = Set::new(|p: Seq<u8>| self.branches(p));
        let full = Set::new(|p: Seq<u8>| self.holds(p));
        let slots = self.nodes.live_set().remove(self.root as int);
        let owner = |b: int| self.owner(b);
        assert(injective_on(owner, slots)) by {
            assert forall|x: int, y: int|
                slots.contains(x) && slots.contains(y) && #[trigger] owner(x) == #[trigger] owner(
                    y,
                ) implies x == y by {
                self.lemma_owner(x);
                self.lemma_owner(y);
            }
        }
        assert(slots.map(owner) =~= inner) by {
            assert forall|p: Seq<u8>| inner.contains(p) implies slots.map(owner).contains(p) by {
                let (b, j) = self.index@[p];
                assert(self.live_at(b, j));
                self.lemma_node(b, j);
                let t = self.at(b, j).child_base as int;
                assert(self.ns()[t].len() >= 1);
                self.lemma_block_members(b, j, 0);
                assert(slots.contains(t));
                assert(owner(t) == p);
            }
            assert forall|p: Seq<u8>| slots.map(owner).contains(p) implies inner.contains(p) by {
                let b = choose|b: int| slots.contains(b) && owner(b) == p;
                self.lemma_owner(b);
            }
        }
        lemma_map_size(slots, inner, owner);
        let live = self.results.live_set();
        let keeper = |rb: int| self.keeper(rb);
        assert(injective_on(keeper, live)) by {
            assert forall|x: int, y: int|
                live.contains(x) && live.contains(y) && #[trigger] keeper(x) == #[trigger] keeper(
                    y,
                ) implies x == y by {
                self.lemma_keeper(x);
                self.lemma_keeper(y);
            }
        }
        assert(live.map(keeper) =~= full) by {
            assert forall|p: Seq<u8>| full.contains(p) implies live.map(keeper).contains(p) by {
                let (b, j) = self.index@[p];
                assert(self.live_at(b, j));
                self.lemma_node(b, j);
                let rb = self.at(b, j).result_base as int;
                self.lemma_keeper(rb);
                let (kb, kj) = self.index@[self.keeper(rb)];
                assert(self.live_at(kb, kj));
                self.lemma_result_owner(kb, kj, b, j);
                self.lemma_node(kb, kj);
                assert(live.contains(rb));
                assert(keeper(rb) == p);
            }
            assert forall|p: Seq<u8>| live.map(keeper).contains(p) implies full.contains(p) by {
                let rb = choose|rb: int| live.contains(rb) && keeper(rb) == p;
                self.lemma_keeper(rb);
            }
        }
        lemma_map_size(live, full, keeper);
    }

    /// A live slot of the result arena holds a stored prefix in its first
    /// place.
    proof fn lemma_first_is_stored(&self, rb: int)
        requires
            self.inv(),
            self.results.is_live(rb),
        ensures
            self.model@.dom().contains(self.rs()[rb][0].key@),
            self.index@.dom().contains(self.rs()[rb][0].key@.stem),
            self.node_of(self.rs()[rb][0].key@.stem).result_base == rb,
    {
        assert(self.result_block_ok(rb));
        let stem = self.rs()[rb][0].key@.stem;
        let (b, j) = self.index@[stem];
        assert(self.live_at(b, j));
        self.lemma_node(b, j);
        let n = self.at(b, j);
        let s = lemma_rank_onto(n.result_bitmap, 32, 0);
        assert(self.entry_ok(n, s));
    }

    /// No more slots of the result arena are live than prefixes are stored:
    /// each live slot holds at least one, and no two hold the same.
    pub proof fn lemma_results_bounded(&self)
        requires
            self.wf(),
        ensures
            0 <= self.live_results() <= self@.dom().len(),
    {
        self.results.lemma_live_count();
        let live = self.results.live_set();
        let first = |rb: int| self.rs()[rb][0].key@;
        let firsts = live.map(first);
        assert(injective_on(first, live)) by {
            assert forall|x: int, y: int|
                live.contains(x) && live.contains(y) && #[trigger] first(x) == #[trigger] first(
                    y,
                ) implies x == y by {
                self.lemma_first_is_stored(x);
                self.lemma_first_is_stored(y);
            }
        }
        lemma_map_size(live, firsts, first);
        assert forall|p: Prefix| firsts.contains(p) implies self.model@.dom().contains(p) by {
            let rb = choose|rb: int| live.contains(rb) && first(rb) == p;
            self.lemma_first_is_stored(rb);
        }
        lemma_len_subset(firsts, self.model@.dom());
    }

    /// No more slots of the arenas are live than the stored prefixes need:
    /// in the result arena at most one for each prefix, in the node arena at
    /// most one for each live slot of the result arena, and the root's.
    pub proof fn lemma_slots_bounded(&self)
        requires
            self.wf(),
        ensures
            1 <= self.live_nodes() <= self.live_results() + 1,
            0 <= self.live_results() <= self@.dom().len(),
    {
        self.lemma_results_bounded();
        self.lemma_census();
        let inner = Set::new(|p: Seq<u8>| self.branches(p));
        let full = Set::new(|p: Seq<u8>| self.holds(p));
        let partner = |p: Seq<u8>| self.partner(p);
        let partners = inner.map(partner);
        assert(injective_on(partner, inner)) by {
            assert forall|x: Seq<u8>, y: Seq<u8>|
                inner.contains(x) && inner.contains(y) && #[trigger] partner(x) == #[trigger] partner(
                    y,
                ) implies x == y by {
                self.lemma_partner_apart(x, y);
            }
        }
        lemma_map_size(inner, partners, partner);
        assert forall|p: Seq<u8>| partners.contains(p) implies full.contains(p) by {
            let x = choose|x: Seq<u8>| inner.contains(x) && partner(x) == p;
            self.lemma_partner_holds(x);
        }
        lemma_len_subset(partners, full);
    }

    /// A table in which nothing is stored holds what a new table holds: the
    /// slot of the root in the node arena, and no slot of the result arena.
    /// The slots that were live in between are on the free lists.
    pub proof fn lemma_empty_holds_only_root(&self)
        requires
            self.wf(),
            self@.dom() =~= Set::empty(),
        ensures
            self.live_nodes() == 1,
            self.live_results() == 0,
    {
        self.lemma_slots_bounded();
    }
}

impl<V: Copy> TreeBitmap<V> {
    /// The live slots of the node arena and of the result arena.
    pub fn live_usage(&self) -> (r: (usize, usize))
        requires
            self.wf(),
        ensures
            r.0 == self.live_nodes(),
            r.1 == self.live_results(),
            1 <= r.0 <= r.1 + 1,
            r.1 <= self@.dom().len(),
    {
        proof {
            self.lemma_slots_bounded();
        }
        (self.nodes.live(), self.results.live())
    }
}

} // verus!
