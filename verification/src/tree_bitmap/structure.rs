//! What holds of every table between two calls, and what follows from it.

use vstd::prelude::*;
use crate::bitmap::{has_bit, lemma_rank_bounds, lemma_rank_onto, lemma_rank_strict, popcount, rank};
use crate::prefix::{slot, slot_len, slot_tail, Prefix};
use crate::tree_bitmap::{Entry, Node, TreeBitmap};

verus! {

impl Node {
    /// The child bitmap, widened.
    pub(crate) open spec fn cb(self) -> u32 {
        self.child_bitmap as u32
    }

    /// The length of the path above the skipped run and the branching nibble.
    pub(crate) open spec fn parent_len(self) -> int {
        self.path@.len() - 1 - self.skip@.len()
    }

    /// The path is made of at most 31 nibbles and ends with the skipped run.
    pub(crate) open spec fn shape_ok(self) -> bool {
        let p = self.path@;
        &&& p.len() <= 31
        &&& forall|i: int| 0 <= i < p.len() ==> #[trigger] p[i] < 16
        &&& self.skip@.len() <= p.len()
        &&& p.skip(p.len() - self.skip@.len()) == self.skip@
    }

    /// Whether the node has neither children nor results.
    pub(crate) open spec fn is_bare(self) -> bool {
        self.child_base == 0 && self.result_base == 0
    }

    /// Whether the node has no result and at most one child: such a node
    /// could be part of the run of its child.
    pub(crate) open spec fn is_sparse(self) -> bool {
        self.result_base == 0 && popcount(self.cb()) <= 1
    }
}

impl<V> TreeBitmap<V> {
    /// The number of live slots of the node arena.
    pub open(crate) spec fn live_nodes(&self) -> int {
        self.nodes.live_count()
    }

    /// The number of live slots of the result arena.
    pub open(crate) spec fn live_results(&self) -> int {
        self.results.live_count()
    }

    /// The number of freed slots of the node arena.
    pub open(crate) spec fn free_nodes(&self) -> int {
        self.nodes.free_slots().len() as int
    }

    /// The number of freed slots of the result arena.
    pub open(crate) spec fn free_results(&self) -> int {
        self.results.free_slots().len() as int
    }

    /// The number of slots of the node arena and of the result arena, live
    /// and freed alike, without the reserved ones.
    pub open(crate) spec fn slots(&self) -> (int, int) {
        (self.nodes.blocks().len() - 1, self.results.blocks().len() - 1)
    }

    /// What each slot of the node arena holds.
    pub(crate) open spec fn ns(&self) -> Seq<Seq<Node>> {
        self.nodes.blocks()
    }

    /// What each slot of the result arena holds.
    pub(crate) open spec fn rs(&self) -> Seq<Seq<Entry<V>>> {
        self.results.blocks()
    }

    /// Whether a node lies at place `j` of slot `b`.
    pub(crate) open spec fn live_at(&self, b: int, j: int) -> bool {
        self.nodes.is_live(b) && 0 <= j < self.ns()[b].len()
    }

    /// The node at place `j` of slot `b`.
    pub(crate) open spec fn at(&self, b: int, j: int) -> Node {
        self.ns()[b][j]
    }

    /// The node that stands at the end of `path`.
    pub(crate) open spec fn node_of(&self, path: Seq<u8>) -> Node {
        self.at(self.index@[path].0, self.index@[path].1)
    }

    /// The child of `n` under nibble `i`.
    pub(crate) open spec fn child_of(&self, n: Node, i: int) -> Node {
        self.ns()[n.child_base as int][rank(n.cb(), i)]
    }

    /// The result of `n` at position `s`.
    pub(crate) open spec fn entry_of(&self, n: Node, s: int) -> Entry<V> {
        self.rs()[n.result_base as int][rank(n.result_bitmap, s)]
    }

    /// The prefix that position `s` of the node at place `j` of slot `b`
    /// stands for.
    pub(crate) open spec fn prefix_at(&self, b: int, j: int, s: int) -> Prefix {
        Prefix { stem: self.at(b, j).path@, len: slot_len(s), tail: slot_tail(s) }
    }

    /// The children of `n` fill one live slot in bitmap order, and each
    /// stands at the end of the path of `n`, its nibble and its skipped run.
    pub(crate) open spec fn children_ok(&self, n: Node) -> bool {
        &&& n.child_base == 0 ==> popcount(n.cb()) == 0
        &&& n.child_base != 0 ==> {
            &&& self.nodes.is_live(n.child_base as int)
            &&& n.child_base != self.root
            &&& self.ns()[n.child_base as int].len() == popcount(n.cb())
        }
        &&& forall|i: int|
            0 <= i < 16 && #[trigger] has_bit(n.cb(), i) ==> self.child_of(n, i).path@
                == n.path@.push(i as u8) + self.child_of(n, i).skip@
    }

    /// What is required of the result of `n` at position `s`.
    pub(crate) open spec fn entry_ok(&self, n: Node, s: int) -> bool {
        let e = self.entry_of(n, s);
        &&& e.key@ == (Prefix { stem: n.path@, len: slot_len(s), tail: slot_tail(s) })
        &&& e.masklen == 4 * n.path@.len() + slot_len(s)
        &&& self.model@.dom().contains(e.key@)
        &&& self.model@[e.key@] == e.value
    }

    /// The results of `n` fill one live slot in bitmap order, and each is
    /// what the model holds for its prefix.
    pub(crate) open spec fn results_ok(&self, n: Node, is_root: bool) -> bool {
        &&& n.result_base == 0 ==> popcount(n.result_bitmap) == 0
        &&& n.result_base != 0 ==> {
            &&& self.results.is_live(n.result_base as int)
            &&& self.rs()[n.result_base as int].len() == popcount(n.result_bitmap)
        }
        &&& !has_bit(n.result_bitmap, 31)
        &&& !is_root ==> !has_bit(n.result_bitmap, 0)
        &&& forall|s: int|
            0 <= s < 31 && #[trigger] has_bit(n.result_bitmap, s) ==> self.entry_ok(n, s)
    }

    /// The node at place `j` of slot `b` hangs under the node that stands at
    /// the end of the path above its skipped run.
    pub(crate) open spec fn parent_ok(&self, b: int, j: int) -> bool {
        let n = self.at(b, j);
        let k = n.parent_len();
        let pp = n.path@.take(k);
        &&& k >= 0
        &&& self.index@.dom().contains(pp)
        &&& self.node_of(pp).child_base == b
        &&& has_bit(self.node_of(pp).cb(), n.path@[k] as int)
        &&& rank(self.node_of(pp).cb(), n.path@[k] as int) == j
    }

    /// All that is required of the node at place `j` of slot `b`, but that
    /// it holds a result or branches.
    #[verifier::opaque]
    pub(crate) open spec fn node_ok(&self, b: int, j: int) -> bool {
        let n = self.at(b, j);
        &&& n.shape_ok()
        &&& b == self.root ==> n.path@.len() == 0
        &&& self.index@.dom().contains(n.path@)
        &&& self.index@[n.path@] == (b, j)
        &&& self.children_ok(n)
        &&& self.results_ok(n, b == self.root)
        &&& b != self.root ==> self.parent_ok(b, j)
    }

    /// What is required of a live slot of the result arena: it is not empty,
    /// and the node of its results' stem holds it.
    pub(crate) open spec fn result_block_ok(&self, rb: int) -> bool {
        let stem = self.rs()[rb][0].key@.stem;
        &&& self.rs()[rb].len() >= 1
        &&& self.index@.dom().contains(stem)
        &&& self.node_of(stem).result_base == rb
    }

    /// What is required of a stored prefix: its node exists and marks it.
    pub(crate) open spec fn stored_ok(&self, p: Prefix) -> bool {
        &&& p.wf()
        &&& self.index@.dom().contains(p.stem)
        &&& has_bit(self.node_of(p.stem).result_bitmap, slot(p.len, p.tail))
    }

    /// The structure without the rule that a node holds a result or
    /// branches.
    pub(crate) open spec fn inv(&self) -> bool {
        &&& self.nodes.wf()
        &&& self.results.wf()
        &&& self.nodes.is_live(self.root as int)
        &&& self.ns()[self.root as int].len() == 1
        &&& forall|b: int, j: int| #[trigger] self.live_at(b, j) ==> self.node_ok(b, j)
        &&& forall|p: Seq<u8>| #[trigger]
            self.index@.dom().contains(p) ==> {
                &&& self.live_at(self.index@[p].0, self.index@[p].1)
                &&& self.node_of(p).path@ == p
            }
        &&& forall|b: int| #[trigger] self.nodes.is_live(b) ==> self.ns()[b].len() >= 1
        &&& forall|rb: int| #[trigger] self.results.is_live(rb) ==> self.result_block_ok(rb)
        &&& forall|p: Prefix| #[trigger] self.model@.dom().contains(p) ==> self.stored_ok(p)
        &&& self.model@.dom().finite()
        &&& self.count == self.model@.dom().len()
    }

    /// Every node but the root, and but the one at the end of `hole`, holds
    /// a result or at least two children.
    pub(crate) open spec fn full_but(&self, hole: Option<Seq<u8>>) -> bool {
        forall|b: int, j: int| #[trigger]
            self.live_at(b, j) && b != self.root && hole != Some(self.at(b, j).path@)
                ==> !self.at(b, j).is_sparse()
    }

    /// The table is well formed: the arenas and the bitmaps agree, every
    /// stored prefix is a key of the model with its value and the model has
    /// no other key, and every node but the root holds a result or branches,
    /// so that no node is empty and every skipped run is as long as it can
    /// be.
    pub open(crate) spec fn wf(&self) -> bool {
        self.inv() && self.full_but(None)
    }
}

impl<V> TreeBitmap<V> {
    /// A marked child lies in the node's child slot, at the rank of its
    /// nibble.
    pub(crate) proof fn lemma_child(&self, b: int, j: int, i: int)
        requires
            self.inv(),
            self.live_at(b, j),
            0 <= i < 16,
            has_bit(self.at(b, j).cb(), i),
        ensures
            self.at(b, j).child_base != 0,
            self.at(b, j).child_base != self.root,
            self.live_at(self.at(b, j).child_base as int, rank(self.at(b, j).cb(), i)),
            self.child_of(self.at(b, j), i) == self.at(
                self.at(b, j).child_base as int,
                rank(self.at(b, j).cb(), i),
            ),
            self.child_of(self.at(b, j), i).path@ == self.at(b, j).path@.push(i as u8)
                + self.child_of(self.at(b, j), i).skip@,
    {
        let n = self.at(b, j);
        self.lemma_node(b, j);
        lemma_rank_strict(n.cb(), i, 32);
        lemma_rank_bounds(n.cb(), i);
    }

    /// A marked result lies in the node's result slot, at the rank of its
    /// position.
    pub(crate) proof fn lemma_entry(&self, b: int, j: int, s: int)
        requires
            self.inv(),
            self.live_at(b, j),
            0 <= s < 31,
            has_bit(self.at(b, j).result_bitmap, s),
        ensures
            self.at(b, j).result_base != 0,
            self.results.is_live(self.at(b, j).result_base as int),
            0 <= rank(self.at(b, j).result_bitmap, s) < self.rs()[self.at(
                b,
                j,
            ).result_base as int].len(),
            self.entry_ok(self.at(b, j), s),
    {
        let n = self.at(b, j);
        self.lemma_node(b, j);
        lemma_rank_strict(n.result_bitmap, s, 32);
        lemma_rank_bounds(n.result_bitmap, s);
    }

    /// Below a node, the way to every deeper node on the same path leads
    /// through the child under the next nibble, and that child stands on the
    /// path too.
    pub(crate) proof fn lemma_chain(&self, c: Seq<u8>, s: Seq<u8>)
        requires
            self.inv(),
            self.index@.dom().contains(c),
            self.index@.dom().contains(s),
            c.len() < s.len(),
            s.take(c.len() as int) == c,
        ensures
            has_bit(self.node_of(c).cb(), s[c.len() as int] as int),
            self.child_of(self.node_of(c), s[c.len() as int] as int).path@.len() <= s.len(),
            s.take(self.child_of(self.node_of(c), s[c.len() as int] as int).path@.len() as int)
                == self.child_of(self.node_of(c), s[c.len() as int] as int).path@,
        decreases s.len(),
    {
        let (b, j) = self.index@[s];
        assert(self.live_at(b, j));
        self.lemma_node(b, j);
        let n = self.at(b, j);
        assert(n.path@ == s);
        let k = n.parent_len();
        let pp = s.take(k);
        let x = self.node_of(pp);
        assert(self.parent_ok(b, j));
        if k == c.len() {
            assert(pp == c);
            assert(self.child_of(x, s[k] as int) == n);
            assert(s.take(s.len() as int) =~= s);
        } else if k > c.len() {
            assert(pp.take(c.len() as int) =~= c);
            self.lemma_chain(c, pp);
            let ch = self.child_of(self.node_of(c), s[c.len() as int] as int);
            assert(pp[c.len() as int] == s[c.len() as int]);
            assert(s.take(ch.path@.len() as int) =~= pp.take(ch.path@.len() as int));
        } else {
            assert(c.take(k) =~= pp);
            self.lemma_chain(pp, c);
            assert(c[k] == s[k]);
            assert(self.child_of(x, s[k] as int) == n);
            assert(false);
        }
    }

    /// Two nodes with the same child slot are one node.
    pub(crate) proof fn lemma_child_owner(&self, b1: int, j1: int, b2: int, j2: int)
        requires
            self.inv(),
            self.live_at(b1, j1),
            self.live_at(b2, j2),
            self.at(b1, j1).child_base != 0,
            self.at(b1, j1).child_base == self.at(b2, j2).child_base,
        ensures
            b1 == b2,
            j1 == j2,
    {
        let n1 = self.at(b1, j1);
        let n2 = self.at(b2, j2);
        self.lemma_node(b1, j1);
        self.lemma_node(b2, j2);
        let cb = n1.child_base as int;
        assert(self.nodes.is_live(cb));
        let c0 = self.ns()[cb][0];
        let i1 = lemma_rank_onto(n1.cb(), 32, 0);
        let i2 = lemma_rank_onto(n2.cb(), 32, 0);
        crate::bitmap::lemma_low_bitmap(n1.cb(), 32);
        crate::bitmap::lemma_low_bitmap(n2.cb(), 32);
        assert(c0.path@ == n1.path@.push(i1 as u8) + c0.skip@);
        assert(c0.path@ == n2.path@.push(i2 as u8) + c0.skip@);
        assert(n1.path@ =~= c0.path@.take(c0.path@.len() - c0.skip@.len() - 1));
        assert(n2.path@ =~= c0.path@.take(c0.path@.len() - c0.skip@.len() - 1));
    }

    /// Two nodes with the same result slot are one node.
    pub(crate) proof fn lemma_result_owner(&self, b1: int, j1: int, b2: int, j2: int)
        requires
            self.inv(),
            self.live_at(b1, j1),
            self.live_at(b2, j2),
            self.at(b1, j1).result_base != 0,
            self.at(b1, j1).result_base == self.at(b2, j2).result_base,
        ensures
            b1 == b2,
            j1 == j2,
    {
        let n1 = self.at(b1, j1);
        let n2 = self.at(b2, j2);
        self.lemma_node(b1, j1);
        self.lemma_node(b2, j2);
        let rb = n1.result_base as int;
        assert(self.result_block_ok(rb));
        let s1 = lemma_rank_onto(n1.result_bitmap, 32, 0);
        let s2 = lemma_rank_onto(n2.result_bitmap, 32, 0);
        assert(self.entry_ok(n1, s1));
        assert(self.entry_ok(n2, s2));
    }

    /// The node of a stored prefix, and the result it holds for it.
    pub(crate) proof fn lemma_stored(&self, b: int, j: int, s: int)
        requires
            self.inv(),
            self.live_at(b, j),
            0 <= s < 31,
        ensures
            ({
                let p = Prefix { stem: self.at(b, j).path@, len: slot_len(s), tail: slot_tail(s) };
                &&& self.model@.dom().contains(p) <==> has_bit(self.at(b, j).result_bitmap, s)
                &&& has_bit(self.at(b, j).result_bitmap, s) ==> self.model@[p] == self.entry_of(
                    self.at(b, j),
                    s,
                ).value
            }),
    {
        let n = self.at(b, j);
        let p = Prefix { stem: n.path@, len: slot_len(s), tail: slot_tail(s) };
        self.lemma_node(b, j);
        crate::prefix::lemma_slot_of_parts(s);
        if has_bit(n.result_bitmap, s) {
            assert(self.entry_ok(n, s));
        }
        if self.model@.dom().contains(p) {
            assert(self.stored_ok(p));
        }
    }

    /// The nodes in the child slot of a node are its children: each hangs
    /// under it, at the rank of its nibble.
    pub(crate) proof fn lemma_block_members(&self, b: int, j: int, y: int)
        requires
            self.inv(),
            self.live_at(b, j),
            self.at(b, j).child_base != 0,
            0 <= y < self.ns()[self.at(b, j).child_base as int].len(),
        ensures
            self.live_at(self.at(b, j).child_base as int, y),
            self.at(b, j).child_base != self.root,
            ({
                let x = self.at(b, j);
                let c = self.at(x.child_base as int, y);
                &&& c.parent_len() == x.path@.len()
                &&& c.path@.take(c.parent_len()) == x.path@
                &&& c.path@[c.parent_len()] < 16
                &&& has_bit(x.cb(), c.path@[c.parent_len()] as int)
                &&& rank(x.cb(), c.path@[c.parent_len()] as int) == y
                &&& c == self.child_of(x, c.path@[c.parent_len()] as int)
            }),
    {
        let x = self.at(b, j);
        let t = x.child_base as int;
        self.lemma_node(b, j);
        assert(self.live_at(t, y));
        self.lemma_node(t, y);
        let c = self.at(t, y);
        assert(self.parent_ok(t, y));
        let pp = c.path@.take(c.parent_len());
        let (pb, pj) = self.index@[pp];
        assert(self.live_at(pb, pj));
        self.lemma_child_owner(pb, pj, b, j);
    }

    /// No node lies in its own child slot.
    pub(crate) proof fn lemma_not_own_child(&self, b: int, j: int)
        requires
            self.inv(),
            self.live_at(b, j),
        ensures
            self.at(b, j).child_base != b,
    {
        self.lemma_node(b, j);
        if self.at(b, j).child_base == b {
            self.lemma_block_members(b, j, j);
        }
    }

    /// What the structure says of one node.
    pub(crate) proof fn lemma_node(&self, b: int, j: int)
        requires
            self.inv(),
            self.live_at(b, j),
        ensures
            self.node_ok(b, j),
            self.at(b, j).shape_ok(),
            b == self.root ==> self.at(b, j).path@.len() == 0,
            self.index@.dom().contains(self.at(b, j).path@),
            self.index@[self.at(b, j).path@] == (b, j),
            self.children_ok(self.at(b, j)),
            self.results_ok(self.at(b, j), b == self.root),
            b != self.root ==> self.parent_ok(b, j),
    {
        reveal(TreeBitmap::node_ok);
    }

    /// A node of which all this holds is as it should be.
    pub(crate) proof fn lemma_node_intro(&self, b: int, j: int)
        requires
            self.at(b, j).shape_ok(),
            b == self.root ==> self.at(b, j).path@.len() == 0,
            self.index@.dom().contains(self.at(b, j).path@),
            self.index@[self.at(b, j).path@] == (b, j),
            self.children_ok(self.at(b, j)),
            self.results_ok(self.at(b, j), b == self.root),
            b != self.root ==> self.parent_ok(b, j),
        ensures
            self.node_ok(b, j),
    {
        reveal(TreeBitmap::node_ok);
    }
}

} // verus!
