//! Joining a node that has no result and one child with that child: the
//! child takes the node's place and its run takes in the node's run and the
//! nibble between.

use vstd::prelude::*;
use crate::bitmap::{
    has_bit, lemma_low_bitmap, lemma_rank_bounds, lemma_rank_onto, lemma_rank_strict, popcount,
    rank, test_bit,
};
use crate::prefix::Prefix;
use crate::tree_bitmap::TreeBitmap;

verus! {

impl<V> TreeBitmap<V> {
    /// Whether `post` is `pre` with the node at place `j` of slot `b` joined
    /// with its one child, which hung under nibble `i`.
    pub(crate) open spec fn joined(pre: Self, post: Self, b: int, j: int, i: int) -> bool {
        let x = pre.at(b, j);
        let t = x.child_base as int;
        let c = pre.at(t, 0);
        let m = post.at(b, j);
        &&& pre.inv()
        &&& pre.live_at(b, j)
        &&& b != pre.root
        &&& pre.full_but(Some(x.path@))
        &&& x.result_base == 0
        &&& popcount(x.cb()) == 1
        &&& 0 <= i < 16
        &&& has_bit(x.cb(), i)
        &&& post.root == pre.root
        &&& post.model@ == pre.model@
        &&& post.count == pre.count
        &&& post.results == pre.results
        &&& post.nodes.wf()
        &&& forall|z: int| post.nodes.is_live(z) == (z != t && pre.nodes.is_live(z))
        &&& post.ns().len() == pre.ns().len()
        &&& forall|z: int|
            0 <= z < pre.ns().len() && z != b && z != t ==> post.ns()[z] == pre.ns()[z]
        &&& post.ns()[b] == pre.ns()[b].update(j, m)
        &&& m.path@ == c.path@
        &&& m.skip@ == x.skip@.push(i as u8) + c.skip@
        &&& m.child_bitmap == c.child_bitmap
        &&& m.child_base == c.child_base
        &&& m.result_bitmap == c.result_bitmap
        &&& m.result_base == c.result_base
        &&& post.index@ == pre.index@.remove(x.path@).insert(c.path@, (b, j))
    }

    /// What was known before the join: where the child lies and how its path
    /// is made.
    proof fn lemma_joined_setup(pre: Self, post: Self, b: int, j: int, i: int)
        requires
            Self::joined(pre, post, b, j, i),
        ensures
            ({
                let x = pre.at(b, j);
                let t = x.child_base as int;
                let c = pre.at(t, 0);
                &&& t != 0
                &&& t != b
                &&& t != pre.root
                &&& pre.nodes.is_live(t)
                &&& pre.ns()[t].len() == 1
                &&& pre.live_at(t, 0)
                &&& rank(x.cb(), i) == 0
                &&& c == pre.child_of(x, i)
                &&& c.path@ == x.path@.push(i as u8) + c.skip@
                &&& c.path@ != x.path@
                &&& x.shape_ok()
                &&& c.shape_ok()
                &&& pre.index@.dom().contains(x.path@)
                &&& pre.index@[x.path@] == (b, j)
                &&& pre.index@.dom().contains(c.path@)
                &&& pre.index@[c.path@] == (t, 0int)
                &&& pre.parent_ok(b, j)
                &&& forall|k: int| 0 <= k < 16 && #[trigger] has_bit(x.cb(), k) ==> k == i
            }),
    {
        let x = pre.at(b, j);
        let t = x.child_base as int;
        pre.lemma_child(b, j, i);
        pre.lemma_node(b, j);
        pre.lemma_not_own_child(b, j);
        lemma_rank_bounds(x.cb(), i);
        lemma_rank_strict(x.cb(), i, 32);
        pre.lemma_node(t, 0);
        assert forall|k: int| 0 <= k < 16 && #[trigger] has_bit(x.cb(), k) implies k == i by {
            lemma_rank_bounds(x.cb(), k);
            lemma_rank_strict(x.cb(), k, 32);
            if k < i {
                lemma_rank_strict(x.cb(), k, i);
            } else if i < k {
                lemma_rank_strict(x.cb(), i, k);
            }
        }
    }

    /// Every node but the two that are joined is found where it was,
    /// unchanged.
    proof fn lemma_joined_place(pre: Self, post: Self, b: int, j: int, i: int, x: int, y: int)
        requires
            Self::joined(pre, post, b, j, i),
            pre.live_at(x, y),
            (x, y) != (b, j),
            x != pre.at(b, j).child_base,
        ensures
            post.live_at(x, y),
            post.at(x, y) == pre.at(x, y),
            post.index@.dom().contains(pre.at(x, y).path@),
            post.index@[pre.at(x, y).path@] == (x, y),
            post.node_of(pre.at(x, y).path@) == pre.at(x, y),
    {
        Self::lemma_joined_setup(pre, post, b, j, i);
        pre.lemma_node(x, y);
    }

    /// The node of every path of the old index but that of the node that is
    /// gone is found under the same path, with the same links.
    proof fn lemma_joined_index(pre: Self, post: Self, b: int, j: int, i: int, q: Seq<u8>)
        requires
            Self::joined(pre, post, b, j, i),
            pre.index@.dom().contains(q),
            q != pre.at(b, j).path@,
        ensures
            post.index@.dom().contains(q),
            post.live_at(post.index@[q].0, post.index@[q].1),
            post.node_of(q).path@ == q,
            post.node_of(q).child_bitmap == pre.node_of(q).child_bitmap,
            post.node_of(q).child_base == pre.node_of(q).child_base,
            post.node_of(q).result_bitmap == pre.node_of(q).result_bitmap,
            post.node_of(q).result_base == pre.node_of(q).result_base,
            post.index@[q] == if pre.index@[q].0 == pre.at(b, j).child_base {
                (b, j)
            } else {
                pre.index@[q]
            },
    {
        Self::lemma_joined_setup(pre, post, b, j, i);
        let (qb, qj) = pre.index@[q];
        assert(pre.live_at(qb, qj));
        pre.lemma_node(qb, qj);
        if qb != pre.at(b, j).child_base {
            Self::lemma_joined_place(pre, post, b, j, i, qb, qj);
        }
    }

    /// Every node but the two that are joined is still as it should be.
    proof fn lemma_joined_node(pre: Self, post: Self, b: int, j: int, i: int, x: int, y: int)
        requires
            Self::joined(pre, post, b, j, i),
            pre.live_at(x, y),
            (x, y) != (b, j),
            x != pre.at(b, j).child_base,
        ensures
            post.node_ok(x, y),
    {
        let t = pre.at(b, j).child_base as int;
        let a = pre.at(x, y);
        Self::lemma_joined_setup(pre, post, b, j, i);
        Self::lemma_joined_place(pre, post, b, j, i, x, y);
        pre.lemma_node(x, y);
        if a.child_base != 0 {
            if a.child_base == t {
                pre.lemma_child_owner(x, y, b, j);
            }
            assert forall|m: int|
                0 <= m < 16 && #[trigger] has_bit(a.cb(), m) implies post.child_of(
                a,
                m,
            ).path@ == a.path@.push(m as u8) + post.child_of(a, m).skip@ by {
                pre.lemma_child(x, y, m);
                let cy = rank(a.cb(), m);
                if (a.child_base as int, cy) == (b, j) {
                    // the child was the node that is gone; the joined node stands for it
                    assert(pre.at(b, j).path@ == a.path@.push(m as u8) + pre.at(b, j).skip@);
                    assert(post.at(b, j).path@ =~= a.path@.push(m as u8) + post.at(b, j).skip@);
                } else {
                    Self::lemma_joined_place(pre, post, b, j, i, a.child_base as int, cy);
                }
            }
        }
        assert(post.children_ok(a));
        assert forall|s: int|
            0 <= s < 31 && #[trigger] has_bit(a.result_bitmap, s) implies post.entry_ok(
            a,
            s,
        ) by {
            pre.lemma_entry(x, y, s);
            assert(pre.entry_ok(a, s));
        }
        assert(post.results_ok(a, x == post.root));
        if x != pre.root {
            assert(pre.parent_ok(x, y));
            let pp = a.path@.take(a.parent_len());
            if pp == pre.at(b, j).path@ {
                // only the one child hung under the node that is gone
                assert(pre.node_of(pp) == pre.at(b, j));
            }
            Self::lemma_joined_index(pre, post, b, j, i, pp);
            if pre.index@[pp].0 == t {
                assert(pre.index@[pp] == (t, 0int));
            }
            assert(post.parent_ok(x, y));
        }
        post.lemma_node_intro(x, y);
    }

    /// The joined node is as it should be.
    proof fn lemma_joined_here(pre: Self, post: Self, b: int, j: int, i: int)
        requires
            Self::joined(pre, post, b, j, i),
        ensures
            post.live_at(b, j),
            post.node_ok(b, j),
            !post.at(b, j).is_sparse(),
    {
        let x = pre.at(b, j);
        let t = x.child_base as int;
        let c = pre.at(t, 0);
        let m = post.at(b, j);
        Self::lemma_joined_setup(pre, post, b, j, i);
        pre.lemma_node(t, 0);
        pre.lemma_node(b, j);
        assert(!c.is_sparse());
        // shape
        assert(m.path@.skip(m.path@.len() - m.skip@.len()) =~= m.skip@) by {
            assert(x.path@.skip(x.path@.len() - x.skip@.len()) == x.skip@);
            assert forall|k: int| 0 <= k < m.skip@.len() implies m.path@[m.path@.len()
                - m.skip@.len() + k] == m.skip@[k] by {
                if k < x.skip@.len() {
                    assert(x.path@.skip(x.path@.len() - x.skip@.len())[k] == x.skip@[k]);
                }
            }
        }
        assert(m.shape_ok());
        // children
        if c.child_base != 0 {
            if c.child_base == t {
                pre.lemma_child_owner(t, 0, b, j);
            }
            if c.child_base == b {
                pre.lemma_block_members(t, 0, j);
            }
            assert forall|k: int|
                0 <= k < 16 && #[trigger] has_bit(m.cb(), k) implies post.child_of(
                m,
                k,
            ).path@ == m.path@.push(k as u8) + post.child_of(m, k).skip@ by {
                pre.lemma_child(t, 0, k);
                Self::lemma_joined_place(pre, post, b, j, i, c.child_base as int, rank(c.cb(), k));
            }
        }
        assert(post.children_ok(m));
        assert forall|s: int|
            0 <= s < 31 && #[trigger] has_bit(m.result_bitmap, s) implies post.entry_ok(
            m,
            s,
        ) by {
            pre.lemma_entry(t, 0, s);
            assert(pre.entry_ok(c, s));
        }
        assert(post.results_ok(m, b == post.root));
        // parent
        assert(m.parent_len() == x.parent_len());
        let pp = x.path@.take(x.parent_len());
        assert(m.path@.take(m.parent_len()) =~= pp);
        assert(m.path@[m.parent_len()] == x.path@[x.parent_len()]);
        assert(pp != x.path@);
        Self::lemma_joined_index(pre, post, b, j, i, pp);
        if pre.index@[pp].0 == t {
            assert(pre.index@[pp] == (t, 0int));
            assert(pre.node_of(pp) == c);
            assert(false);
        }
        assert(post.parent_ok(b, j));
        post.lemma_node_intro(b, j);
    }

    /// Joining a node with its one child keeps the structure and fills the
    /// hole that the node was.
    pub(crate) proof fn lemma_joined(pre: Self, post: Self, b: int, j: int, i: int)
        requires
            Self::joined(pre, post, b, j, i),
        ensures
            post.inv(),
            post.full_but(None),
    {
        let x = pre.at(b, j);
        let t = x.child_base as int;
        let c = pre.at(t, 0);
        Self::lemma_joined_setup(pre, post, b, j, i);
        Self::lemma_joined_here(pre, post, b, j, i);
        pre.lemma_node(b, j);
        assert forall|x2: int, y2: int| #[trigger] post.live_at(x2, y2) implies post.node_ok(x2, y2)
            && (x2 != post.root ==> !post.at(x2, y2).is_sparse()) by {
            if (x2, y2) != (b, j) {
                assert(pre.live_at(x2, y2));
                Self::lemma_joined_node(pre, post, b, j, i, x2, y2);
                Self::lemma_joined_place(pre, post, b, j, i, x2, y2);
                pre.lemma_node(x2, y2);
            }
        }
        assert forall|q: Seq<u8>| #[trigger] post.index@.dom().contains(q) implies {
            &&& post.live_at(post.index@[q].0, post.index@[q].1)
            &&& post.node_of(q).path@ == q
        } by {
            if q != c.path@ {
                Self::lemma_joined_index(pre, post, b, j, i, q);
            }
        }
        assert forall|z: int| #[trigger] post.nodes.is_live(z) implies post.ns()[z].len() >= 1 by {
            assert(pre.nodes.is_live(z));
        }
        assert forall|rb: int| #[trigger] post.results.is_live(rb) implies post.result_block_ok(
            rb,
        ) by {
            assert(pre.result_block_ok(rb));
            Self::lemma_joined_index(pre, post, b, j, i, pre.rs()[rb][0].key@.stem);
        }
        assert forall|p: Prefix| #[trigger] post.model@.dom().contains(p) implies post.stored_ok(
            p,
        ) by {
            assert(pre.stored_ok(p));
            if p.stem == x.path@ {
                lemma_rank_strict(x.result_bitmap, crate::prefix::slot(p.len, p.tail), 32);
                lemma_rank_bounds(x.result_bitmap, crate::prefix::slot(p.len, p.tail));
            }
            Self::lemma_joined_index(pre, post, b, j, i, p.stem);
        }
    }
}

impl<V: Copy> TreeBitmap<V> {
    /// Joins the node at place `j` of slot `b`, which has no result and one
    /// child, with that child, and frees the node's child slot.
    pub(crate) fn merge(&mut self, b: usize, j: usize)
        requires
            old(self).inv(),
            old(self).live_at(b as int, j as int),
            b != old(self).root,
            old(self).full_but(Some(old(self).at(b as int, j as int).path@)),
            old(self).at(b as int, j as int).result_base == 0,
            popcount(old(self).at(b as int, j as int).cb()) == 1,
        ensures
            final(self).inv(),
            final(self).full_but(None),
            final(self).root == old(self).root,
            final(self).model@ == old(self).model@,
            final(self).count == old(self).count,
            final(self).slots() == old(self).slots(),
    {
        let ghost pre = *self;
        proof {
            self.lemma_node(b as int, j as int);
            lemma_low_bitmap(self.at(b as int, j as int).cb(), 32);
        }
        // the nibble of the one child
        let bitmap: u32 = self.nodes.get(b)[j].child_bitmap as u32;
        let mut nibble: u8 = 0;
        while nibble < 15 && !test_bit(bitmap, nibble as u32)
            invariant
                nibble <= 15,
                forall|k: int| 0 <= k < nibble ==> !has_bit(bitmap, k),
            decreases 15 - nibble,
        {
            nibble = nibble + 1;
        }
        proof {
            let k = lemma_rank_onto(bitmap, 32, 0);
            assert(has_bit(bitmap, nibble as int));
            self.lemma_child(b as int, j as int, nibble as int);
            self.lemma_not_own_child(b as int, j as int);
            lemma_rank_bounds(bitmap, nibble as int);
            lemma_rank_strict(bitmap, nibble as int, 32);
        }
        let base: usize = self.nodes.get(b)[j].child_base;
        let ghost child = self.at(base as int, 0);
        let mut joined = self.nodes.get_mut(base).remove(0);
        assert(forall|z: int| self.nodes.is_live(z) == pre.nodes.is_live(z));
        self.nodes.free(base);
        assert(forall|z: int| self.nodes.is_live(z) == (z != base && pre.nodes.is_live(z)));
        let ghost mid = *self;
        let block = self.nodes.get_mut(b);
        let head: usize = block[j].skip.len();
        let mut run: Vec<u8> = Vec::new();
        let mut k: usize = 0;
        while k < head
            invariant
                k <= head,
                j < block@.len(),
                head == block@[j as int].skip@.len(),
                run@ == block@[j as int].skip@.take(k as int),
            decreases head - k,
        {
            run.push(block[j].skip[k]);
            k = k + 1;
            proof {
                assert(run@ =~= block@[j as int].skip@.take(k as int));
            }
        }
        run.push(nibble);
        let tail: usize = joined.skip.len();
        k = 0;
        while k < tail
            invariant
                k <= tail,
                j < block@.len(),
                tail == joined.skip@.len(),
                run@ == block@[j as int].skip@.push(nibble) + joined.skip@.take(k as int),
            decreases tail - k,
        {
            run.push(joined.skip[k]);
            k = k + 1;
            proof {
                assert(run@ =~= block@[j as int].skip@.push(nibble) + joined.skip@.take(k as int));
            }
        }
        proof {
            assert(joined.skip@.take(tail as int) =~= joined.skip@);
            assert(block@[j as int].skip@.take(head as int) =~= block@[j as int].skip@);
        }
        joined.skip = run;
        block[j] = joined;
        proof {
            assert(forall|z: int| self.nodes.is_live(z) == mid.nodes.is_live(z));
            self.index@ = pre.index@.remove(pre.at(b as int, j as int).path@).insert(
                child.path@,
                (b as int, j as int),
            );
            assert(self.ns()[b as int] =~= pre.ns()[b as int].update(
                j as int,
                self.at(b as int, j as int),
            ));
            Self::lemma_joined(pre, *self, b as int, j as int, nibble as int);
        }
    }
}

} // verus!
