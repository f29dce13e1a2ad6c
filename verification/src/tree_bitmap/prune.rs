//! Cutting an empty node off its parent.

use vstd::prelude::*;
use crate::bitmap::{
    clear_bit, has_bit, lemma_rank_bounds, lemma_rank_cleared, lemma_rank_strict, rank, rank_of,
};
use crate::prefix::Prefix;
use crate::tree_bitmap::TreeBitmap;

verus! {

/// The index after the node of path `path` has been taken from place `r` of
/// slot `slot`: what lay behind `r` lies one place nearer.
pub(crate) open spec fn index_shrunk(
    index: Map<Seq<u8>, (int, int)>,
    slot: int,
    r: int,
    path: Seq<u8>,
) -> Map<Seq<u8>, (int, int)> {
    Map::new(
        |q: Seq<u8>| q != path && index.dom().contains(q),
        |q: Seq<u8>|
            if index[q].0 == slot && index[q].1 > r {
                (slot, index[q].1 - 1)
            } else {
                index[q]
            },
    )
}

/// Where the node of place `y` of slot `x` lies after the node at place `r`
/// of slot `slot` has been taken out.
pub(crate) open spec fn pulled(x: int, y: int, slot: int, r: int) -> (int, int) {
    if x == slot && y > r {
        (x, y - 1)
    } else {
        (x, y)
    }
}

impl<V> TreeBitmap<V> {
    /// Whether `post` is `pre` with the empty child under nibble `i` of the
    /// node at place `j` of slot `b` cut off.
    pub(crate) open spec fn shrank(pre: Self, post: Self, b: int, j: int, i: int) -> bool {
        let x = pre.at(b, j);
        let x2 = post.at(b, j);
        let t = x.child_base as int;
        let r = rank(x.cb(), i);
        let c = pre.at(t, r);
        &&& pre.inv()
        &&& pre.live_at(b, j)
        &&& 0 <= i < 16
        &&& has_bit(x.cb(), i)
        &&& c.is_bare()
        &&& pre.full_but(Some(c.path@))
        &&& post.root == pre.root
        &&& post.model@ == pre.model@
        &&& post.count == pre.count
        &&& post.results == pre.results
        &&& post.nodes.wf()
        &&& x2.path@ == x.path@
        &&& x2.skip@ == x.skip@
        &&& x2.result_bitmap == x.result_bitmap
        &&& x2.result_base == x.result_base
        &&& forall|k: int| has_bit(x2.cb(), k) == (k != i && has_bit(x.cb(), k))
        &&& post.ns().len() == pre.ns().len()
        &&& forall|z: int|
            0 <= z < pre.ns().len() && z != b && z != t ==> post.ns()[z] == pre.ns()[z]
        &&& post.ns()[b] == pre.ns()[b].update(j, x2)
        &&& post.ns()[t] == pre.ns()[t].remove(r)
        &&& pre.ns()[t].len() > 1 ==> {
            &&& x2.child_base == t
            &&& forall|z: int| post.nodes.is_live(z) == pre.nodes.is_live(z)
        }
        &&& pre.ns()[t].len() <= 1 ==> {
            &&& x2.child_base == 0
            &&& forall|z: int| post.nodes.is_live(z) == (z != t && pre.nodes.is_live(z))
        }
        &&& post.index@ == index_shrunk(pre.index@, t, r, c.path@)
    }

    /// What was known before the cut: where the child lies, and that the
    /// parent is not among its own children.
    proof fn lemma_shrank_setup(pre: Self, post: Self, b: int, j: int, i: int)
        requires
            Self::shrank(pre, post, b, j, i),
        ensures
            pre.at(b, j).child_base != 0,
            pre.at(b, j).child_base != b,
            pre.at(b, j).child_base != pre.root,
            pre.nodes.is_live(pre.at(b, j).child_base as int),
            pre.live_at(pre.at(b, j).child_base as int, rank(pre.at(b, j).cb(), i)),
            pre.child_of(pre.at(b, j), i) == pre.at(
                pre.at(b, j).child_base as int,
                rank(pre.at(b, j).cb(), i),
            ),
            pre.ns()[pre.at(b, j).child_base as int].len() == rank(pre.at(b, j).cb(), 32),
    {
        pre.lemma_child(b, j, i);
        pre.lemma_not_own_child(b, j);
        pre.lemma_node(b, j);
    }

    /// Every node but the one cut off is found again, one place nearer where
    /// it lay behind that one.
    proof fn lemma_shrank_place(pre: Self, post: Self, b: int, j: int, i: int, x: int, y: int)
        requires
            Self::shrank(pre, post, b, j, i),
            pre.live_at(x, y),
            (x, y) != (pre.at(b, j).child_base as int, rank(pre.at(b, j).cb(), i)),
        ensures
            ({
                let t = pre.at(b, j).child_base as int;
                let r = rank(pre.at(b, j).cb(), i);
                let (x2, y2) = pulled(x, y, t, r);
                &&& post.live_at(x2, y2)
                &&& (x, y) != (b, j) ==> post.at(x2, y2) == pre.at(x, y)
                &&& (x, y) == (b, j) ==> (x2, y2) == (b, j)
                &&& post.at(x2, y2).path@ == pre.at(x, y).path@
                &&& post.at(x2, y2).skip@ == pre.at(x, y).skip@
                &&& post.at(x2, y2).result_bitmap == pre.at(x, y).result_bitmap
                &&& post.at(x2, y2).result_base == pre.at(x, y).result_base
                &&& post.index@.dom().contains(pre.at(x, y).path@)
                &&& post.index@[pre.at(x, y).path@] == (x2, y2)
                &&& post.node_of(pre.at(x, y).path@) == post.at(x2, y2)
            }),
    {
        let t = pre.at(b, j).child_base as int;
        let r = rank(pre.at(b, j).cb(), i);
        Self::lemma_shrank_setup(pre, post, b, j, i);
        pre.lemma_node(x, y);
        pre.lemma_node(t, r);
    }

    /// The parent holds the children that are left.
    proof fn lemma_shrank_parent(pre: Self, post: Self, b: int, j: int, i: int)
        requires
            Self::shrank(pre, post, b, j, i),
        ensures
            post.children_ok(post.at(b, j)),
            forall|k: int|
                0 <= k < 16 && k != i && #[trigger] has_bit(pre.at(b, j).cb(), k) ==> {
                    &&& post.child_of(post.at(b, j), k) == pre.child_of(pre.at(b, j), k)
                    &&& post.at(b, j).child_base == pre.at(b, j).child_base
                    &&& (post.at(b, j).child_base as int, rank(post.at(b, j).cb(), k)) == pulled(
                        pre.at(b, j).child_base as int,
                        rank(pre.at(b, j).cb(), k),
                        pre.at(b, j).child_base as int,
                        rank(pre.at(b, j).cb(), i),
                    )
                },
    {
        let x = pre.at(b, j);
        let x2 = post.at(b, j);
        let t = x.child_base as int;
        let r = rank(x.cb(), i);
        Self::lemma_shrank_setup(pre, post, b, j, i);
        pre.lemma_node(b, j);
        lemma_rank_bounds(x.cb(), i);
        lemma_rank_strict(x.cb(), i, 32);
        lemma_rank_cleared(x.cb(), x2.cb(), i, 32);
        assert forall|k: int| 0 <= k < 16 && k != i && #[trigger] has_bit(x.cb(), k) implies {
            &&& post.child_of(x2, k) == pre.child_of(x, k)
            &&& x2.child_base == x.child_base
            &&& (x2.child_base as int, rank(x2.cb(), k)) == pulled(t, rank(x.cb(), k), t, r)
            &&& post.child_of(x2, k).path@ == x2.path@.push(k as u8) + post.child_of(x2, k).skip@
        } by {
            lemma_rank_cleared(x.cb(), x2.cb(), i, k);
            pre.lemma_child(b, j, k);
            if k < i {
                lemma_rank_strict(x.cb(), k, i);
            } else {
                lemma_rank_strict(x.cb(), i, k);
            }
            lemma_rank_strict(x.cb(), k, 32);
            assert(pre.ns()[t].len() > 1);
        }
        assert forall|k: int| 0 <= k < 16 && #[trigger] has_bit(x2.cb(), k) implies post.child_of(
            x2,
            k,
        ).path@ == x2.path@.push(k as u8) + post.child_of(x2, k).skip@ by {
            assert(has_bit(x.cb(), k));
        }
    }

    /// Every node that is left is still as it should be.
    proof fn lemma_shrank_node(pre: Self, post: Self, b: int, j: int, i: int, x: int, y: int)
        requires
            Self::shrank(pre, post, b, j, i),
            pre.live_at(x, y),
            (x, y) != (pre.at(b, j).child_base as int, rank(pre.at(b, j).cb(), i)),
        ensures
            ({
                let t = pre.at(b, j).child_base as int;
                let r = rank(pre.at(b, j).cb(), i);
                let (x2, y2) = pulled(x, y, t, r);
                post.node_ok(x2, y2)
            }),
    {
        let t = pre.at(b, j).child_base as int;
        let r = rank(pre.at(b, j).cb(), i);
        let (x2, y2) = pulled(x, y, t, r);
        let a = pre.at(x, y);
        let c = post.at(x2, y2);
        Self::lemma_shrank_setup(pre, post, b, j, i);
        Self::lemma_shrank_place(pre, post, b, j, i, x, y);
        pre.lemma_node(x, y);
        pre.lemma_node(b, j);
        if (x, y) == (b, j) {
            Self::lemma_shrank_parent(pre, post, b, j, i);
        } else {
            assert(c == a);
            if a.child_base != 0 {
                if a.child_base == t {
                    pre.lemma_child_owner(x, y, b, j);
                }
                assert forall|k: int|
                    0 <= k < 16 && #[trigger] has_bit(c.cb(), k) implies post.child_of(
                    c,
                    k,
                ).path@ == c.path@.push(k as u8) + post.child_of(c, k).skip@ by {
                    pre.lemma_child(x, y, k);
                    let cy = rank(a.cb(), k);
                    Self::lemma_shrank_place(pre, post, b, j, i, a.child_base as int, cy);
                }
            }
            assert(post.children_ok(c));
        }
        assert forall|s: int|
            0 <= s < 31 && #[trigger] has_bit(c.result_bitmap, s) implies post.entry_ok(
            c,
            s,
        ) by {
            pre.lemma_entry(x, y, s);
            assert(pre.entry_ok(a, s));
        }
        assert(post.results_ok(c, x2 == post.root));
        if x != pre.root {
            assert(pre.parent_ok(x, y));
            let k = a.parent_len();
            let pp = a.path@.take(k);
            let (pb, pj) = pre.index@[pp];
            assert(pre.live_at(pb, pj));
            assert((pb, pj) != (t, r));
            Self::lemma_shrank_place(pre, post, b, j, i, pb, pj);
            if (pb, pj) == (b, j) {
                Self::lemma_shrank_parent(pre, post, b, j, i);
                assert(has_bit(pre.at(b, j).cb(), a.path@[k] as int));
                assert(a.path@[k] as int != i);
            } else {
                if x == t {
                    pre.lemma_child_owner(pb, pj, b, j);
                }
            }
            assert(post.parent_ok(x2, y2));
        }
        post.lemma_node_intro(x2, y2);
    }

    /// Cutting an empty node off keeps the structure, and leaves at most the
    /// parent empty.
    pub(crate) proof fn lemma_shrank(pre: Self, post: Self, b: int, j: int, i: int)
        requires
            Self::shrank(pre, post, b, j, i),
        ensures
            post.inv(),
            post.full_but(Some(pre.at(b, j).path@)),
            post.live_at(b, j),
            post.at(b, j).path@ == pre.at(b, j).path@,
    {
        let x = pre.at(b, j);
        let t = x.child_base as int;
        let r = rank(x.cb(), i);
        let c = pre.at(t, r);
        Self::lemma_shrank_setup(pre, post, b, j, i);
        Self::lemma_shrank_place(pre, post, b, j, i, b, j);
        pre.lemma_node(t, r);
        assert forall|x2: int, y2: int| #[trigger] post.live_at(x2, y2) implies post.node_ok(x2, y2)
            && (x2 != post.root && (x2, y2) != (b, j) ==> !post.at(x2, y2).is_sparse()) by {
            let y = if x2 == t && y2 >= r {
                y2 + 1
            } else {
                y2
            };
            assert(pre.live_at(x2, y));
            assert(pulled(x2, y, t, r) == (x2, y2));
            Self::lemma_shrank_node(pre, post, b, j, i, x2, y);
            Self::lemma_shrank_place(pre, post, b, j, i, x2, y);
            pre.lemma_node(x2, y);
        }
        assert forall|q: Seq<u8>| #[trigger] post.index@.dom().contains(q) implies {
            &&& post.live_at(post.index@[q].0, post.index@[q].1)
            &&& post.node_of(q).path@ == q
        } by {
            let (qb, qj) = pre.index@[q];
            assert(pre.live_at(qb, qj));
            Self::lemma_shrank_place(pre, post, b, j, i, qb, qj);
        }
        assert forall|z: int| #[trigger] post.nodes.is_live(z) implies post.ns()[z].len() >= 1 by {
            assert(pre.nodes.is_live(z));
        }
        assert forall|rb: int| #[trigger] post.results.is_live(rb) implies post.result_block_ok(
            rb,
        ) by {
            assert(pre.result_block_ok(rb));
            let stem = pre.rs()[rb][0].key@.stem;
            let (qb, qj) = pre.index@[stem];
            assert(pre.live_at(qb, qj));
            Self::lemma_shrank_place(pre, post, b, j, i, qb, qj);
        }
        assert forall|p: Prefix| #[trigger] post.model@.dom().contains(p) implies post.stored_ok(
            p,
        ) by {
            assert(pre.stored_ok(p));
            let (qb, qj) = pre.index@[p.stem];
            assert(pre.live_at(qb, qj));
            if (qb, qj) == (t, r) {
                lemma_rank_strict(c.result_bitmap, crate::prefix::slot(p.len, p.tail), 32);
                lemma_rank_bounds(c.result_bitmap, crate::prefix::slot(p.len, p.tail));
            }
            Self::lemma_shrank_place(pre, post, b, j, i, qb, qj);
        }
        assert forall|x2: int, y2: int| #[trigger]
            post.live_at(x2, y2) && x2 != post.root && Some(x.path@) != Some(
                post.at(x2, y2).path@,
            ) implies !post.at(x2, y2).is_sparse() by {
            assert((x2, y2) != (b, j));
        }
    }
}

impl<V: Copy> TreeBitmap<V> {
    /// Cuts the empty child under `nibble` off the node at place `j` of slot
    /// `b`, and frees the node's child slot if no child is left in it.
    pub(crate) fn prune(&mut self, b: usize, j: usize, nibble: u8)
        requires
            old(self).inv(),
            old(self).live_at(b as int, j as int),
            nibble < 16,
            has_bit(old(self).at(b as int, j as int).cb(), nibble as int),
            old(self).child_of(old(self).at(b as int, j as int), nibble as int).is_bare(),
            old(self).full_but(
                Some(old(self).child_of(old(self).at(b as int, j as int), nibble as int).path@),
            ),
        ensures
            final(self).inv(),
            final(self).full_but(Some(old(self).at(b as int, j as int).path@)),
            final(self).live_at(b as int, j as int),
            final(self).at(b as int, j as int).path@ == old(self).at(b as int, j as int).path@,
            final(self).root == old(self).root,
            final(self).model@ == old(self).model@,
            final(self).count == old(self).count,
            final(self).slots() == old(self).slots(),
    {
        let ghost pre = *self;
        proof {
            self.lemma_node(b as int, j as int);
            self.lemma_child(b as int, j as int, nibble as int);
            self.lemma_not_own_child(b as int, j as int);
        }
        let node = &self.nodes.get(b)[j];
        let bitmap: u32 = node.child_bitmap as u32;
        let base: usize = node.child_base;
        let r: usize = rank_of(bitmap, nibble as u32);
        let ghost cut = self.at(base as int, r as int).path@;
        let _ = self.nodes.get_mut(base).remove(r);
        assert(forall|z: int| self.nodes.is_live(z) == pre.nodes.is_live(z));
        let emptied: bool = self.nodes.get(base).len() == 0;
        if emptied {
            self.nodes.free(base);
        }
        assert(forall|z: int|
            self.nodes.is_live(z) == ((!emptied || z != base) && pre.nodes.is_live(z)));
        let ghost mid = *self;
        let node = &mut self.nodes.get_mut(b)[j];
        node.child_bitmap = clear_bit(bitmap, nibble as u32) as u16;
        if emptied {
            node.child_base = 0;
        }
        proof {
            assert(forall|z: int| self.nodes.is_live(z) == mid.nodes.is_live(z));
            self.index@ = index_shrunk(pre.index@, base as int, r as int, cut);
            assert(self.ns()[base as int] =~= pre.ns()[base as int].remove(r as int));
            Self::lemma_shrank(pre, *self, b as int, j as int, nibble as int);
        }
    }
}

} // verus!
