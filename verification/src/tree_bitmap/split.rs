//! Splitting a skipped run: a new node takes the place of a child and keeps
//! the head of its run, and the child hangs under the new node with the rest.

use vstd::prelude::*;
use crate::bitmap::{
    has_bit, lemma_empty, lemma_rank_marked, lemma_rank_strict, popcount, rank, set_bit,
};
use crate::prefix::Prefix;
use crate::tree_bitmap::{Node, TreeBitmap};

verus! {

impl<V> TreeBitmap<V> {
    /// Whether `post` is `pre` with the run of the child under nibble `i` of
    /// the node at place `j` of slot `b` split at index `k`.
    pub(crate) open spec fn branched(pre: Self, post: Self, b: int, j: int, i: int, k: int) -> bool {
        let x = pre.at(b, j);
        let t = x.child_base as int;
        let r = rank(x.cb(), i);
        let c = pre.at(t, r);
        let n = post.at(t, r);
        let nb = n.child_base as int;
        let c2 = post.at(nb, 0);
        &&& pre.inv()
        &&& pre.full_but(None)
        &&& pre.live_at(b, j)
        &&& 0 <= i < 16
        &&& has_bit(x.cb(), i)
        &&& 0 <= k < c.skip@.len()
        &&& post.root == pre.root
        &&& post.model@ == pre.model@
        &&& post.count == pre.count
        &&& post.results == pre.results
        &&& post.nodes.wf()
        &&& nb != 0
        &&& !pre.nodes.is_live(nb)
        &&& forall|z: int| post.nodes.is_live(z) == (z == nb || pre.nodes.is_live(z))
        &&& post.ns().len() >= pre.ns().len()
        &&& forall|z: int|
            0 <= z < pre.ns().len() && z != t && z != nb ==> post.ns()[z] == pre.ns()[z]
        &&& post.ns()[t] == pre.ns()[t].update(r, n)
        &&& post.ns()[nb] == seq![c2]
        &&& n.path@ == c.path@.take(x.path@.len() + 1 + k)
        &&& n.skip@ == c.skip@.take(k)
        &&& n.result_bitmap == 0
        &&& n.result_base == 0
        &&& forall|m: int| has_bit(n.cb(), m) == (m == c.skip@[k])
        &&& c2.path@ == c.path@
        &&& c2.skip@ == c.skip@.skip(k + 1)
        &&& c2.child_bitmap == c.child_bitmap
        &&& c2.child_base == c.child_base
        &&& c2.result_bitmap == c.result_bitmap
        &&& c2.result_base == c.result_base
        &&& post.index@ == pre.index@.insert(n.path@, (t, r)).insert(c.path@, (nb, 0))
    }

    /// What was known before the split: where the child lies, how its path
    /// is made, and that no node stands where the new one will.
    proof fn lemma_branched_setup(pre: Self, post: Self, b: int, j: int, i: int, k: int)
        requires
            Self::branched(pre, post, b, j, i, k),
        ensures
            ({
                let x = pre.at(b, j);
                let t = x.child_base as int;
                let r = rank(x.cb(), i);
                let c = pre.at(t, r);
                let n = post.at(t, r);
                &&& t != 0
                &&& t != pre.root
                &&& pre.live_at(t, r)
                &&& c == pre.child_of(x, i)
                &&& c.path@ == x.path@.push(i as u8) + c.skip@
                &&& c.shape_ok()
                &&& pre.index@.dom().contains(c.path@)
                &&& pre.index@[c.path@] == (t, r)
                &&& pre.index@.dom().contains(x.path@)
                &&& pre.index@[x.path@] == (b, j)
                &&& !pre.index@.dom().contains(n.path@)
                &&& n.path@.len() == x.path@.len() + 1 + k
                &&& n.path@ == x.path@.push(i as u8) + n.skip@
                &&& c.path@ == n.path@.push(c.skip@[k]) + c.skip@.skip(k + 1)
                &&& c.skip@[k] < 16
                &&& n.path@ != x.path@
                &&& n.path@ != c.path@
            }),
    {
        let x = pre.at(b, j);
        let t = x.child_base as int;
        let r = rank(x.cb(), i);
        let c = pre.at(t, r);
        let n = post.at(t, r);
        pre.lemma_child(b, j, i);
        pre.lemma_node(b, j);
        pre.lemma_node(t, r);
        assert(c.path@[x.path@.len() + 1 + k] == c.skip@[k]);
        assert(n.path@ =~= x.path@.push(i as u8) + n.skip@);
        assert(c.path@ =~= n.path@.push(c.skip@[k]) + c.skip@.skip(k + 1));
        if pre.index@.dom().contains(n.path@) {
            assert(n.path@.take(x.path@.len() as int) =~= x.path@);
            pre.lemma_chain(x.path@, n.path@);
            assert(n.path@[x.path@.len() as int] == i as u8);
        }
    }

    /// Every node but the child is found where it was, unchanged.
    proof fn lemma_branched_place(
        pre: Self,
        post: Self,
        b: int,
        j: int,
        i: int,
        k: int,
        x: int,
        y: int,
    )
        requires
            Self::branched(pre, post, b, j, i, k),
            pre.live_at(x, y),
            (x, y) != (pre.at(b, j).child_base as int, rank(pre.at(b, j).cb(), i)),
        ensures
            post.live_at(x, y),
            post.at(x, y) == pre.at(x, y),
            post.index@.dom().contains(pre.at(x, y).path@),
            post.index@[pre.at(x, y).path@] == (x, y),
            post.node_of(pre.at(x, y).path@) == pre.at(x, y),
    {
        Self::lemma_branched_setup(pre, post, b, j, i, k);
        pre.lemma_node(x, y);
    }

    /// The node of every path of the old index is found under the same
    /// path, with the same links but for the run of the child.
    proof fn lemma_branched_index(pre: Self, post: Self, b: int, j: int, i: int, k: int, q: Seq<u8>)
        requires
            Self::branched(pre, post, b, j, i, k),
            pre.index@.dom().contains(q),
        ensures
            post.index@.dom().contains(q),
            post.live_at(post.index@[q].0, post.index@[q].1),
            post.node_of(q).path@ == q,
            post.node_of(q).child_bitmap == pre.node_of(q).child_bitmap,
            post.node_of(q).child_base == pre.node_of(q).child_base,
            post.node_of(q).result_bitmap == pre.node_of(q).result_bitmap,
            post.node_of(q).result_base == pre.node_of(q).result_base,
            post.index@[q] != (pre.at(b, j).child_base as int, rank(pre.at(b, j).cb(), i)),
    {
        Self::lemma_branched_setup(pre, post, b, j, i, k);
        let (qb, qj) = pre.index@[q];
        assert(pre.live_at(qb, qj));
        if (qb, qj) != (pre.at(b, j).child_base as int, rank(pre.at(b, j).cb(), i)) {
            Self::lemma_branched_place(pre, post, b, j, i, k, qb, qj);
        }
    }

    /// Every node but the child is still as it should be.
    proof fn lemma_branched_node(
        pre: Self,
        post: Self,
        b: int,
        j: int,
        i: int,
        k: int,
        x: int,
        y: int,
    )
        requires
            Self::branched(pre, post, b, j, i, k),
            pre.live_at(x, y),
            (x, y) != (pre.at(b, j).child_base as int, rank(pre.at(b, j).cb(), i)),
        ensures
            post.node_ok(x, y),
    {
        let t = pre.at(b, j).child_base as int;
        let r = rank(pre.at(b, j).cb(), i);
        let a = pre.at(x, y);
        Self::lemma_branched_setup(pre, post, b, j, i, k);
        Self::lemma_branched_place(pre, post, b, j, i, k, x, y);
        pre.lemma_node(x, y);
        if a.child_base != 0 {
            assert forall|m: int|
                0 <= m < 16 && #[trigger] has_bit(a.cb(), m) implies post.child_of(
                a,
                m,
            ).path@ == a.path@.push(m as u8) + post.child_of(a, m).skip@ by {
                pre.lemma_child(x, y, m);
                let cy = rank(a.cb(), m);
                if (a.child_base as int, cy) == (t, r) {
                    pre.lemma_child_owner(x, y, b, j);
                    if m < i {
                        lemma_rank_strict(a.cb(), m, i);
                    } else if m > i {
                        lemma_rank_strict(a.cb(), i, m);
                    }
                } else {
                    Self::lemma_branched_place(pre, post, b, j, i, k, a.child_base as int, cy);
                }
            }
        }
        assert(post.children_ok(a));
        assert forall|s: int|
            0 <= s < 31 && #[trigger] has_bit(a.result_bitmap, s) implies post.entry_ok(
            a,
            s,
        ) by {
            pre.lemma_entry(x, y, s);
            assert(pre.entry_ok(a, s));
        }
        assert(post.results_ok(a, x == post.root));
        if x != pre.root {
            assert(pre.parent_ok(x, y));
            let pp = a.path@.take(a.parent_len());
            Self::lemma_branched_index(pre, post, b, j, i, k, pp);
            assert(post.parent_ok(x, y));
        }
        post.lemma_node_intro(x, y);
    }

    /// The child, where it hangs now, is as it should be.
    proof fn lemma_branched_child(pre: Self, post: Self, b: int, j: int, i: int, k: int)
        requires
            Self::branched(pre, post, b, j, i, k),
        ensures
            ({
                let t = pre.at(b, j).child_base as int;
                let r = rank(pre.at(b, j).cb(), i);
                let n = post.at(t, r);
                &&& post.live_at(n.child_base as int, 0)
                &&& post.node_ok(n.child_base as int, 0)
                &&& rank(n.cb(), pre.at(t, r).skip@[k] as int) == 0
                &&& popcount(n.cb()) == 1
            }),
    {
        let x = pre.at(b, j);
        let t = x.child_base as int;
        let r = rank(x.cb(), i);
        let c = pre.at(t, r);
        let n = post.at(t, r);
        let nb = n.child_base as int;
        let c2 = post.at(nb, 0);
        Self::lemma_branched_setup(pre, post, b, j, i, k);
        pre.lemma_node(t, r);
        lemma_empty();
        lemma_rank_marked(0, n.cb(), c.skip@[k] as int, c.skip@[k] as int);
        lemma_rank_marked(0, n.cb(), c.skip@[k] as int, 32);
        assert(c2.path@.skip(c2.path@.len() - c2.skip@.len()) =~= c2.skip@);
        assert(c2.shape_ok());
        if c.child_base != 0 {
            if c.child_base == t {
                pre.lemma_child_owner(t, r, b, j);
            }
            assert forall|m: int|
                0 <= m < 16 && #[trigger] has_bit(c2.cb(), m) implies post.child_of(
                c2,
                m,
            ).path@ == c2.path@.push(m as u8) + post.child_of(c2, m).skip@ by {
                pre.lemma_child(t, r, m);
                Self::lemma_branched_place(pre, post, b, j, i, k, c.child_base as int, rank(c.cb(), m));
            }
        }
        assert(post.children_ok(c2));
        assert forall|s: int|
            0 <= s < 31 && #[trigger] has_bit(c2.result_bitmap, s) implies post.entry_ok(
            c2,
            s,
        ) by {
            pre.lemma_entry(t, r, s);
            assert(pre.entry_ok(c, s));
        }
        assert(post.results_ok(c2, nb == post.root));
        assert(c2.parent_len() == n.path@.len());
        assert(c2.path@.take(c2.parent_len()) =~= n.path@);
        assert(post.parent_ok(nb, 0));
        post.lemma_node_intro(nb, 0);
    }

    /// The new node is as it should be.
    proof fn lemma_branched_branch(pre: Self, post: Self, b: int, j: int, i: int, k: int)
        requires
            Self::branched(pre, post, b, j, i, k),
        ensures
            post.live_at(pre.at(b, j).child_base as int, rank(pre.at(b, j).cb(), i)),
            post.node_ok(pre.at(b, j).child_base as int, rank(pre.at(b, j).cb(), i)),
    {
        let x = pre.at(b, j);
        let t = x.child_base as int;
        let r = rank(x.cb(), i);
        let c = pre.at(t, r);
        let n = post.at(t, r);
        let nb = n.child_base as int;
        let c2 = post.at(nb, 0);
        Self::lemma_branched_setup(pre, post, b, j, i, k);
        Self::lemma_branched_child(pre, post, b, j, i, k);
        pre.lemma_node(t, r);
        lemma_empty();
        assert(n.path@.skip(n.path@.len() - n.skip@.len()) =~= n.skip@);
        assert(n.shape_ok());
        assert(post.children_ok(n));
        assert(post.results_ok(n, t == post.root));
        assert(n.path@.take(n.parent_len()) =~= x.path@);
        Self::lemma_branched_index(pre, post, b, j, i, k, x.path@);
        pre.lemma_not_own_child(b, j);
        Self::lemma_branched_place(pre, post, b, j, i, k, b, j);
        assert(post.parent_ok(t, r));
        post.lemma_node_intro(t, r);
    }

    /// Splitting a run keeps the table well formed.
    pub(crate) proof fn lemma_branched(pre: Self, post: Self, b: int, j: int, i: int, k: int)
        requires
            Self::branched(pre, post, b, j, i, k),
        ensures
            post.inv(),
            post.full_but(
                Some(post.at(pre.at(b, j).child_base as int, rank(pre.at(b, j).cb(), i)).path@),
            ),
            post.live_at(pre.at(b, j).child_base as int, rank(pre.at(b, j).cb(), i)),
    {
        let x = pre.at(b, j);
        let t = x.child_base as int;
        let r = rank(x.cb(), i);
        let c = pre.at(t, r);
        let n = post.at(t, r);
        let nb = n.child_base as int;
        Self::lemma_branched_setup(pre, post, b, j, i, k);
        Self::lemma_branched_child(pre, post, b, j, i, k);
        Self::lemma_branched_branch(pre, post, b, j, i, k);
        assert forall|x2: int, y2: int| #[trigger] post.live_at(x2, y2) implies post.node_ok(x2, y2)
            && (x2 != post.root && (x2, y2) != (t, r) ==> !post.at(x2, y2).is_sparse()) by {
            if (x2, y2) == (t, r) {
            } else if x2 == nb {
                assert(y2 == 0);
                assert(!c.is_sparse());
            } else {
                assert(pre.live_at(x2, y2));
                Self::lemma_branched_node(pre, post, b, j, i, k, x2, y2);
                Self::lemma_branched_place(pre, post, b, j, i, k, x2, y2);
            }
        }
        assert forall|q: Seq<u8>| #[trigger] post.index@.dom().contains(q) implies {
            &&& post.live_at(post.index@[q].0, post.index@[q].1)
            &&& post.node_of(q).path@ == q
        } by {
            if q == n.path@ {
            } else if q == c.path@ {
            } else {
                Self::lemma_branched_index(pre, post, b, j, i, k, q);
            }
        }
        assert forall|z: int| #[trigger] post.nodes.is_live(z) implies post.ns()[z].len() >= 1 by {
            if z != nb {
                assert(pre.nodes.is_live(z));
            }
        }
        assert forall|rb: int| #[trigger] post.results.is_live(rb) implies post.result_block_ok(
            rb,
        ) by {
            assert(pre.result_block_ok(rb));
            Self::lemma_branched_index(pre, post, b, j, i, k, pre.rs()[rb][0].key@.stem);
        }
        assert forall|p: Prefix| #[trigger] post.model@.dom().contains(p) implies post.stored_ok(
            p,
        ) by {
            assert(pre.stored_ok(p));
            Self::lemma_branched_index(pre, post, b, j, i, k, p.stem);
        }
    }
}

impl<V: Copy> TreeBitmap<V> {
    /// Splits the run of the child under `nibble` of the node at place `j`
    /// of slot `b` at index `k`. The child lies at place `r` of slot `t`;
    /// the new node lies there afterwards and stands `k` nibbles below the
    /// branching nibble.
    pub(crate) fn split(&mut self, b: usize, j: usize, nibble: u8, t: usize, r: usize, k: usize)
        requires
            old(self).inv(),
            old(self).full_but(None),
            old(self).live_at(b as int, j as int),
            nibble < 16,
            has_bit(old(self).at(b as int, j as int).cb(), nibble as int),
            t == old(self).at(b as int, j as int).child_base,
            r == rank(old(self).at(b as int, j as int).cb(), nibble as int),
            k < old(self).at(t as int, r as int).skip@.len(),
        ensures
            final(self).inv(),
            final(self).full_but(Some(final(self).at(t as int, r as int).path@)),
            final(self).live_at(t as int, r as int),
            final(self).at(t as int, r as int).path@ == old(self).at(t as int, r as int).path@.take(
                old(self).at(b as int, j as int).path@.len() + 1 + k,
            ),
            forall|m: int|
                has_bit(final(self).at(t as int, r as int).cb(), m) == (m == old(self).at(
                    t as int,
                    r as int,
                ).skip@[k as int]),
            final(self).root == old(self).root,
            final(self).model@ == old(self).model@,
            final(self).count == old(self).count,
            final(self).slots().1 == old(self).slots().1,
            old(self).slots().0 <= final(self).slots().0 <= old(self).slots().0 + 1,
    {
        let ghost pre = *self;
        let ghost above = self.at(b as int, j as int).path@;
        let ghost whole = self.at(t as int, r as int).path@;
        proof {
            self.lemma_child(b as int, j as int, nibble as int);
            self.lemma_node(t as int, r as int);
        }
        let fresh: usize = self.nodes.allocate();
        let child = &self.nodes.get(t)[r];
        let run: usize = child.skip.len();
        let mut head: Vec<u8> = Vec::new();
        let mut m: usize = 0;
        while m < k
            invariant
                m <= k < run,
                run == child.skip@.len(),
                head@ == child.skip@.take(m as int),
            decreases k - m,
        {
            head.push(child.skip[m]);
            m = m + 1;
            proof {
                assert(head@ =~= child.skip@.take(m as int));
            }
        }
        let pivot: u8 = child.skip[k];
        let mut rest: Vec<u8> = Vec::new();
        m = k + 1;
        while m < run
            invariant
                k < m <= run,
                run == child.skip@.len(),
                rest@ == child.skip@.subrange(k + 1, m as int),
            decreases run - m,
        {
            rest.push(child.skip[m]);
            m = m + 1;
            proof {
                assert(rest@ =~= child.skip@.subrange(k + 1, m as int));
            }
        }
        proof {
            assert(whole[whole.len() - run + k] == pivot);
            assert(rest@ =~= child.skip@.skip(k + 1));
            lemma_empty();
        }
        let branch = Node {
            child_bitmap: set_bit(0, pivot as u32) as u16,
            result_bitmap: 0,
            child_base: fresh,
            result_base: 0,
            skip: head,
            path: Ghost(whole.take(above.len() + 1 + k)),
        };
        let block = self.nodes.get_mut(t);
        block.push(branch);
        let mut moved = block.swap_remove(r);
        moved.skip = rest;
        self.nodes.get_mut(fresh).push(moved);
        proof {
            self.index@ = pre.index@.insert(whole.take(above.len() + 1 + k), (t as int, r as int)).insert(
                whole,
                (fresh as int, 0int),
            );
            assert(self.ns()[t as int] =~= pre.ns()[t as int].update(
                r as int,
                self.at(t as int, r as int),
            ));
            assert(self.ns()[fresh as int] =~= seq![self.at(fresh as int, 0)]);
            Self::lemma_branched(pre, *self, b as int, j as int, nibble as int, k as int);
        }
    }
}

} // verus!
