//! Hanging a new, still empty node under a node.

use vstd::prelude::*;
use crate::bitmap::{
    has_bit, lemma_empty, lemma_rank_bounds, lemma_rank_marked, lemma_rank_monotone,
    lemma_rank_strict, popcount, rank, rank_of, set_bit,
};
use crate::prefix::{valid_key, Prefix};
use crate::tree_bitmap::{Node, TreeBitmap};

verus! {

/// The index after a node of path `path` has been put at place `r` of slot
/// `slot`: what lay at `r` or behind it lies one place further.
pub(crate) open spec fn index_grown(
    index: Map<Seq<u8>, (int, int)>,
    slot: int,
    r: int,
    path: Seq<u8>,
) -> Map<Seq<u8>, (int, int)> {
    Map::new(
        |q: Seq<u8>| q == path || index.dom().contains(q),
        |q: Seq<u8>|
            if q == path {
                (slot, r)
            } else if index[q].0 == slot && index[q].1 >= r {
                (slot, index[q].1 + 1)
            } else {
                index[q]
            },
    )
}

/// Where the node of place `y` of slot `x` lies after a node has been put at
/// place `r` of slot `slot`.
pub(crate) open spec fn pushed(x: int, y: int, slot: int, r: int) -> (int, int) {
    if x == slot && y >= r {
        (x, y + 1)
    } else {
        (x, y)
    }
}

impl<V> TreeBitmap<V> {
    /// Whether `post` is `pre` with `leaf` hung under nibble `i` of the node
    /// at place `j` of slot `b`.
    pub(crate) open spec fn grew(pre: Self, post: Self, b: int, j: int, i: int, leaf: Node) -> bool {
        let x = pre.at(b, j);
        let x2 = post.at(b, j);
        let t = x2.child_base as int;
        let r = rank(x.cb(), i);
        &&& pre.inv()
        &&& pre.full_but(Some(x.path@))
        &&& b == pre.root || x.result_base != 0 || popcount(x.cb()) >= 1
        &&& pre.live_at(b, j)
        &&& 0 <= i < 16
        &&& !has_bit(x.cb(), i)
        &&& leaf.child_bitmap == 0
        &&& leaf.result_bitmap == 0
        &&& leaf.child_base == 0
        &&& leaf.result_base == 0
        &&& leaf.path@ == x.path@.push(i as u8) + leaf.skip@
        &&& leaf.path@.len() <= 31
        &&& forall|k: int| 0 <= k < leaf.path@.len() ==> #[trigger] leaf.path@[k] < 16
        &&& !pre.index@.dom().contains(leaf.path@)
        &&& post.root == pre.root
        &&& post.model@ == pre.model@
        &&& post.count == pre.count
        &&& post.results == pre.results
        &&& post.nodes.wf()
        &&& x2.path@ == x.path@
        &&& x2.skip@ == x.skip@
        &&& x2.result_bitmap == x.result_bitmap
        &&& x2.result_base == x.result_base
        &&& forall|k: int| has_bit(x2.cb(), k) == (k == i || has_bit(x.cb(), k))
        &&& t != 0
        &&& t != b
        &&& x.child_base != 0 ==> t == x.child_base
        &&& x.child_base == 0 ==> !pre.nodes.is_live(t)
        &&& forall|z: int| post.nodes.is_live(z) == (z == t || pre.nodes.is_live(z))
        &&& post.ns().len() >= pre.ns().len()
        &&& forall|z: int|
            0 <= z < pre.ns().len() && z != b && z != t ==> post.ns()[z] == pre.ns()[z]
        &&& post.ns()[b] == pre.ns()[b].update(j, x2)
        &&& post.ns()[t] == (if x.child_base == 0 {
            Seq::<Node>::empty()
        } else {
            pre.ns()[t]
        }).insert(r, leaf)
        &&& post.index@ == index_grown(pre.index@, t, r, leaf.path@)
    }

    /// Every node is found again, one place further where the new node came
    /// before it, and unchanged but for the bitmap and the child slot of the
    /// node that got the child.
    proof fn lemma_grew_place(
        pre: Self,
        post: Self,
        b: int,
        j: int,
        i: int,
        leaf: Node,
        x: int,
        y: int,
    )
        requires
            Self::grew(pre, post, b, j, i, leaf),
            pre.live_at(x, y),
        ensures
            ({
                let t = post.at(b, j).child_base as int;
                let r = rank(pre.at(b, j).cb(), i);
                let (x2, y2) = pushed(x, y, t, r);
                &&& post.live_at(x2, y2)
                &&& (x, y) != (b, j) ==> post.at(x2, y2) == pre.at(x, y)
                &&& (x, y) == (b, j) ==> (x2, y2) == (b, j)
                &&& post.at(x2, y2).path@ == pre.at(x, y).path@
                &&& post.at(x2, y2).skip@ == pre.at(x, y).skip@
                &&& post.at(x2, y2).result_bitmap == pre.at(x, y).result_bitmap
                &&& post.at(x2, y2).result_base == pre.at(x, y).result_base
                &&& post.index@.dom().contains(pre.at(x, y).path@)
                &&& post.index@[pre.at(x, y).path@] == (x2, y2)
                &&& post.node_of(pre.at(x, y).path@) == post.at(x2, y2)
                &&& (x2, y2) != (t, r)
            }),
    {
        let t = post.at(b, j).child_base as int;
        let r = rank(pre.at(b, j).cb(), i);
        pre.lemma_node(x, y);
        pre.lemma_node(b, j);
        lemma_rank_bounds(pre.at(b, j).cb(), i);
        lemma_rank_monotone(pre.at(b, j).cb(), i, 32);
    }

    /// The node that got the child holds its children, old and new.
    proof fn lemma_grew_parent(pre: Self, post: Self, b: int, j: int, i: int, leaf: Node)
        requires
            Self::grew(pre, post, b, j, i, leaf),
        ensures
            post.children_ok(post.at(b, j)),
            post.child_of(post.at(b, j), i) == leaf,
            rank(post.at(b, j).cb(), i) == rank(pre.at(b, j).cb(), i),
            forall|k: int|
                0 <= k < 16 && #[trigger] has_bit(pre.at(b, j).cb(), k) ==> {
                    &&& post.child_of(post.at(b, j), k) == pre.child_of(pre.at(b, j), k)
                    &&& (post.at(b, j).child_base as int, rank(post.at(b, j).cb(), k)) == pushed(
                        pre.at(b, j).child_base as int,
                        rank(pre.at(b, j).cb(), k),
                        post.at(b, j).child_base as int,
                        rank(pre.at(b, j).cb(), i),
                    )
                },
    {
        let x = pre.at(b, j);
        let x2 = post.at(b, j);
        let t = x2.child_base as int;
        let r = rank(x.cb(), i);
        pre.lemma_node(b, j);
        lemma_rank_bounds(x.cb(), i);
        lemma_rank_monotone(x.cb(), i, 32);
        lemma_rank_marked(x.cb(), x2.cb(), i, 32);
        lemma_rank_marked(x.cb(), x2.cb(), i, i);
        assert forall|k: int| 0 <= k < 16 && #[trigger] has_bit(x2.cb(), k) implies post.child_of(
            x2,
            k,
        ).path@ == x2.path@.push(k as u8) + post.child_of(x2, k).skip@ by {
            lemma_rank_marked(x.cb(), x2.cb(), i, k);
            if k != i {
                pre.lemma_child(b, j, k);
                if k < i {
                    lemma_rank_strict(x.cb(), k, i);
                } else {
                    lemma_rank_monotone(x.cb(), i, k);
                }
                assert(post.child_of(x2, k) == pre.child_of(x, k));
            }
        }
        assert forall|k: int| 0 <= k < 16 && #[trigger] has_bit(x.cb(), k) implies {
            &&& post.child_of(x2, k) == pre.child_of(x, k)
            &&& (t, rank(x2.cb(), k)) == pushed(x.child_base as int, rank(x.cb(), k), t, r)
        } by {
            lemma_rank_marked(x.cb(), x2.cb(), i, k);
            pre.lemma_child(b, j, k);
            if k < i {
                lemma_rank_strict(x.cb(), k, i);
            } else {
                lemma_rank_monotone(x.cb(), i, k);
            }
        }
    }

    /// Every node that was there is still as it should be.
    proof fn lemma_grew_node(
        pre: Self,
        post: Self,
        b: int,
        j: int,
        i: int,
        leaf: Node,
        x: int,
        y: int,
    )
        requires
            Self::grew(pre, post, b, j, i, leaf),
            pre.live_at(x, y),
        ensures
            ({
                let t = post.at(b, j).child_base as int;
                let r = rank(pre.at(b, j).cb(), i);
                let (x2, y2) = pushed(x, y, t, r);
                post.node_ok(x2, y2)
            }),
    {
        let t = post.at(b, j).child_base as int;
        let r = rank(pre.at(b, j).cb(), i);
        let (x2, y2) = pushed(x, y, t, r);
        let a = pre.at(x, y);
        let c = post.at(x2, y2);
        Self::lemma_grew_place(pre, post, b, j, i, leaf, x, y);
        pre.lemma_node(x, y);
        pre.lemma_node(b, j);
        // children
        if (x, y) == (b, j) {
            Self::lemma_grew_parent(pre, post, b, j, i, leaf);
        } else {
            assert(c == a);
            if a.child_base != 0 {
                if a.child_base == t {
                    pre.lemma_child_owner(x, y, b, j);
                }
                assert forall|k: int|
                    0 <= k < 16 && #[trigger] has_bit(c.cb(), k) implies post.child_of(
                    c,
                    k,
                ).path@ == c.path@.push(k as u8) + post.child_of(c, k).skip@ by {
                    pre.lemma_child(x, y, k);
                    let cy = rank(a.cb(), k);
                    Self::lemma_grew_place(pre, post, b, j, i, leaf, a.child_base as int, cy);
                }
            }
            assert(post.children_ok(c));
        }
        // results
        assert forall|s: int|
            0 <= s < 31 && #[trigger] has_bit(c.result_bitmap, s) implies post.entry_ok(
            c,
            s,
        ) by {
            pre.lemma_entry(x, y, s);
            assert(pre.entry_ok(a, s));
        }
        assert(post.results_ok(c, x2 == post.root));
        // parent
        if x != pre.root {
            assert(pre.parent_ok(x, y));
            let k = a.parent_len();
            let pp = a.path@.take(k);
            let (pb, pj) = pre.index@[pp];
            assert(pre.live_at(pb, pj));
            Self::lemma_grew_place(pre, post, b, j, i, leaf, pb, pj);
            if (pb, pj) == (b, j) {
                Self::lemma_grew_parent(pre, post, b, j, i, leaf);
                assert(has_bit(pre.at(b, j).cb(), a.path@[k] as int));
            } else {
                if x == t {
                    pre.lemma_child_owner(pb, pj, b, j);
                }
            }
            assert(post.parent_ok(x2, y2));
        }
        post.lemma_node_intro(x2, y2);
    }

    /// The new node is as it should be.
    proof fn lemma_grew_leaf(pre: Self, post: Self, b: int, j: int, i: int, leaf: Node)
        requires
            Self::grew(pre, post, b, j, i, leaf),
        ensures
            post.live_at(post.at(b, j).child_base as int, rank(pre.at(b, j).cb(), i)),
            post.at(post.at(b, j).child_base as int, rank(pre.at(b, j).cb(), i)) == leaf,
            post.node_ok(post.at(b, j).child_base as int, rank(pre.at(b, j).cb(), i)),
            post.at(b, j).child_base != post.root,
    {
        let x = pre.at(b, j);
        let x2 = post.at(b, j);
        let t = x2.child_base as int;
        let r = rank(x.cb(), i);
        pre.lemma_node(b, j);
        lemma_rank_bounds(x.cb(), i);
        lemma_rank_monotone(x.cb(), i, 32);
        lemma_empty();
        Self::lemma_grew_parent(pre, post, b, j, i, leaf);
        Self::lemma_grew_place(pre, post, b, j, i, leaf, b, j);
        let k = leaf.parent_len();
        assert(k == x.path@.len());
        assert(leaf.path@.take(k) =~= x.path@);
        assert(leaf.path@[k] == i as u8);
        assert(leaf.path@.skip(leaf.path@.len() - leaf.skip@.len()) =~= leaf.skip@);
        assert(post.parent_ok(t, r));
        post.lemma_node_intro(t, r);
    }

    /// The new node does not lie in the root's slot.
    pub(crate) proof fn lemma_grew_root(pre: Self, post: Self, b: int, j: int, i: int, leaf: Node)
        requires
            Self::grew(pre, post, b, j, i, leaf),
        ensures
            post.at(b, j).child_base != post.root,
    {
        Self::lemma_grew_leaf(pre, post, b, j, i, leaf);
    }

    /// Hanging an empty node under a node keeps the structure, and leaves
    /// the new node as the one empty node.
    pub(crate) proof fn lemma_grew(pre: Self, post: Self, b: int, j: int, i: int, leaf: Node)
        requires
            Self::grew(pre, post, b, j, i, leaf),
        ensures
            post.inv(),
            post.full_but(Some(leaf.path@)),
            post.live_at(post.at(b, j).child_base as int, rank(pre.at(b, j).cb(), i)),
            post.at(post.at(b, j).child_base as int, rank(pre.at(b, j).cb(), i)) == leaf,
    {
        let x = pre.at(b, j);
        let x2 = post.at(b, j);
        let t = x2.child_base as int;
        let r = rank(x.cb(), i);
        pre.lemma_node(b, j);
        lemma_rank_bounds(x.cb(), i);
        lemma_rank_monotone(x.cb(), i, 32);
        Self::lemma_grew_leaf(pre, post, b, j, i, leaf);
        // every node of the new table is the new node or one of the old table
        assert forall|x2: int, y2: int| #[trigger] post.live_at(x2, y2) implies post.node_ok(x2, y2)
            && ((x2, y2) != (t, r) && x2 != post.root ==> !post.at(x2, y2).is_sparse()) by {
            if (x2, y2) == (t, r) {
            } else {
                let y = if x2 == t && y2 > r {
                    y2 - 1
                } else {
                    y2
                };
                assert(pre.live_at(x2, y));
                assert(pushed(x2, y, t, r) == (x2, y2));
                Self::lemma_grew_node(pre, post, b, j, i, leaf, x2, y);
                Self::lemma_grew_place(pre, post, b, j, i, leaf, x2, y);
                pre.lemma_node(x2, y);
                if (x2, y) == (b, j) {
                    lemma_rank_marked(x.cb(), post.at(b, j).cb(), i, 32);
                }
            }
        }
        assert forall|q: Seq<u8>| #[trigger] post.index@.dom().contains(q) implies {
            &&& post.live_at(post.index@[q].0, post.index@[q].1)
            &&& post.node_of(q).path@ == q
        } by {
            if q != leaf.path@ {
                let (qb, qj) = pre.index@[q];
                assert(pre.live_at(qb, qj));
                Self::lemma_grew_place(pre, post, b, j, i, leaf, qb, qj);
            }
        }
        assert forall|z: int| #[trigger] post.nodes.is_live(z) implies post.ns()[z].len() >= 1 by {
            if z != t {
                assert(pre.nodes.is_live(z));
            }
        }
        assert forall|rb: int| #[trigger] post.results.is_live(rb) implies post.result_block_ok(
            rb,
        ) by {
            assert(pre.result_block_ok(rb));
            let stem = pre.rs()[rb][0].key@.stem;
            let (qb, qj) = pre.index@[stem];
            assert(pre.live_at(qb, qj));
            Self::lemma_grew_place(pre, post, b, j, i, leaf, qb, qj);
        }
        assert forall|p: Prefix| #[trigger] post.model@.dom().contains(p) implies post.stored_ok(
            p,
        ) by {
            assert(pre.stored_ok(p));
            let (qb, qj) = pre.index@[p.stem];
            assert(pre.live_at(qb, qj));
            Self::lemma_grew_place(pre, post, b, j, i, leaf, qb, qj);
        }
        assert forall|x2: int, y2: int| #[trigger]
            post.live_at(x2, y2) && x2 != post.root && Some(leaf.path@) != Some(
                post.at(x2, y2).path@,
            ) implies !post.at(x2, y2).is_sparse() by {
            assert((x2, y2) != (t, r));
        }
    }
}

impl<V: Copy> TreeBitmap<V> {
    /// Hangs an empty node under nibble `c` of `key` below the node at place
    /// `j` of slot `b`, which stands at depth `c` on the key's path and has
    /// no child there. The new node stands at depth `d` and skips the nibbles
    /// between. Returns its slot and its place.
    pub(crate) fn add_leaf(&mut self, b: usize, j: usize, key: &[u8], c: usize, d: usize) -> (r: (
        usize,
        usize,
    ))
        requires
            old(self).inv(),
            old(self).full_but(Some(old(self).at(b as int, j as int).path@)),
            b == old(self).root || old(self).at(b as int, j as int).result_base != 0 || popcount(
                old(self).at(b as int, j as int).cb(),
            ) >= 1,
            old(self).live_at(b as int, j as int),
            valid_key(key@),
            c < d < key@.len(),
            old(self).at(b as int, j as int).path@ == key@.take(c as int),
            !has_bit(old(self).at(b as int, j as int).cb(), key@[c as int] as int),
            !old(self).index@.dom().contains(key@.take(d as int)),
        ensures
            final(self).inv(),
            final(self).full_but(Some(key@.take(d as int))),
            final(self).live_at(r.0 as int, r.1 as int),
            final(self).at(r.0 as int, r.1 as int).path@ == key@.take(d as int),
            final(self).at(r.0 as int, r.1 as int).result_bitmap == 0,
            r.0 != final(self).root,
            final(self).root == old(self).root,
            final(self).model@ == old(self).model@,
            final(self).count == old(self).count,
            final(self).slots().1 == old(self).slots().1,
            old(self).slots().0 <= final(self).slots().0 <= old(self).slots().0 + 1,
            old(self).at(b as int, j as int).child_base != 0 ==> final(self).slots().0 == old(
                self,
            ).slots().0,
    {
        let ghost pre = *self;
        let nibble: u8 = key[c];
        let mut skip: Vec<u8> = Vec::new();
        let mut t: usize = c + 1;
        while t < d
            invariant
                c + 1 <= t <= d < key@.len(),
                skip@ == key@.subrange(c + 1, t as int),
            decreases d - t,
        {
            skip.push(key[t]);
            t = t + 1;
            proof {
                assert(skip@ =~= key@.subrange(c + 1, t as int));
            }
        }
        proof {
            self.lemma_node(b as int, j as int);
            self.lemma_not_own_child(b as int, j as int);
            lemma_rank_bounds(self.at(b as int, j as int).cb(), nibble as int);
            lemma_rank_monotone(self.at(b as int, j as int).cb(), nibble as int, 32);
        }
        let node = &self.nodes.get(b)[j];
        let bitmap: u32 = node.child_bitmap as u32;
        let base: usize = node.child_base;
        let r: usize = rank_of(bitmap, nibble as u32);
        let target: usize = if base == 0 {
            self.nodes.allocate()
        } else {
            base
        };
        assert(self.ns()[target as int] =~= if base == 0 {
            Seq::<Node>::empty()
        } else {
            pre.ns()[base as int]
        });
        let leaf = Node {
            child_bitmap: 0,
            result_bitmap: 0,
            child_base: 0,
            result_base: 0,
            skip,
            path: Ghost(key@.take(d as int)),
        };
        let ghost hung = leaf;
        self.nodes.get_mut(target).insert(r, leaf);
        let node = &mut self.nodes.get_mut(b)[j];
        node.child_bitmap = set_bit(bitmap, nibble as u32) as u16;
        node.child_base = target;
        proof {
            self.index@ = index_grown(pre.index@, target as int, r as int, key@.take(d as int));
            assert(hung.path@ =~= pre.at(b as int, j as int).path@.push(nibble) + hung.skip@);
            Self::lemma_grew(pre, *self, b as int, j as int, nibble as int, hung);
            Self::lemma_grew_root(pre, *self, b as int, j as int, nibble as int, hung);
        }
        (target, r)
    }
}

} // verus!
