//! Storing a result in a node and taking it out again.

use vstd::prelude::*;
use crate::bitmap::{
    clear_bit, has_bit, lemma_rank_bounds, lemma_rank_cleared, lemma_rank_marked,
    lemma_rank_monotone, lemma_rank_onto, lemma_rank_strict, popcount, rank, rank_of, set_bit,
    test_bit,
};
use crate::prefix::{lemma_slot_of_parts, slot_len, Prefix};
use crate::tree_bitmap::{Entry, Node, TreeBitmap};

verus! {

impl Node {
    /// Whether two nodes differ in their results at most.
    pub(crate) open spec fn same_links(self, other: Node) -> bool {
        &&& self.path@ == other.path@
        &&& self.skip@ == other.skip@
        &&& self.child_bitmap == other.child_bitmap
        &&& self.child_base == other.child_base
    }
}

impl<V> TreeBitmap<V> {
    /// Whether `post` is `pre` with the node at place `j` of slot `b`
    /// replaced by one with the same links, and nothing else changed among
    /// the nodes.
    pub(crate) open spec fn same_nodes_but(pre: Self, post: Self, b: int, j: int) -> bool {
        &&& post.root == pre.root
        &&& post.index@ == pre.index@
        &&& post.nodes.wf()
        &&& forall|x: int| post.nodes.is_live(x) == pre.nodes.is_live(x)
        &&& post.ns() == pre.ns().update(b, pre.ns()[b].update(j, post.at(b, j)))
        &&& post.at(b, j).same_links(pre.at(b, j))
    }

    /// Storing a result at a position that held none keeps the table well
    /// formed.
    pub(crate) proof fn lemma_put_new(pre: Self, post: Self, b: int, j: int, s: int, e: Entry<V>)
        requires
            pre.inv(),
            pre.live_at(b, j),
            pre.full_but(Some(pre.at(b, j).path@)),
            0 <= s < 31,
            b != pre.root ==> s != 0,
            !has_bit(pre.at(b, j).result_bitmap, s),
            Self::same_nodes_but(pre, post, b, j),
            post.count == pre.count + 1,
            post.model@ == pre.model@.insert(e.key@, e.value),
            e.key@ == pre.prefix_at(b, j, s),
            e.masklen == 4 * pre.at(b, j).path@.len() + slot_len(s),
            forall|k: int|
                has_bit(post.at(b, j).result_bitmap, k) == (k == s || has_bit(
                    pre.at(b, j).result_bitmap,
                    k,
                )),
            post.results.wf(),
            post.at(b, j).result_base != 0,
            pre.at(b, j).result_base != 0 ==> post.at(b, j).result_base == pre.at(b, j).result_base,
            pre.at(b, j).result_base == 0 ==> !pre.results.is_live(
                post.at(b, j).result_base as int,
            ),
            forall|x: int|
                post.results.is_live(x) == (x == post.at(b, j).result_base || pre.results.is_live(
                    x,
                )),
            post.rs().len() >= pre.rs().len(),
            forall|x: int|
                0 <= x < pre.rs().len() && x != post.at(b, j).result_base ==> post.rs()[x]
                    == pre.rs()[x],
            post.rs()[post.at(b, j).result_base as int] == (if pre.at(b, j).result_base == 0 {
                Seq::<Entry<V>>::empty()
            } else {
                pre.rs()[pre.at(b, j).result_base as int]
            }).insert(rank(pre.at(b, j).result_bitmap, s), e),
        ensures
            post.inv(),
            post.full_but(None),
    {
        let n = pre.at(b, j);
        let m = post.at(b, j);
        let p = e.key@;
        let rb = m.result_base as int;
        let r = rank(n.result_bitmap, s);
        let before = if n.result_base == 0 {
            Seq::<Entry<V>>::empty()
        } else {
            pre.rs()[n.result_base as int]
        };
        pre.lemma_node(b, j);
        lemma_slot_of_parts(s);
        lemma_rank_bounds(n.result_bitmap, s);
        lemma_rank_monotone(n.result_bitmap, s, 32);
        pre.lemma_stored(b, j, s);
        assert(!pre.model@.dom().contains(p));
        assert(before.len() == popcount(n.result_bitmap));
        assert forall|x: int, y: int| post.live_at(x, y) == pre.live_at(x, y) by {}
        assert forall|x: int, y: int| #[trigger]
            pre.live_at(x, y) implies post.at(x, y).same_links(pre.at(x, y)) && ((x, y) != (b, j)
            ==> post.at(x, y) == pre.at(x, y)) by {}
        // no other node holds the slot of the results
        assert forall|x: int, y: int| #[trigger]
            pre.live_at(x, y) && (x, y) != (b, j) implies pre.at(x, y).result_base != rb by {
            pre.lemma_node(x, y);
            if pre.at(x, y).result_base == rb {
                pre.lemma_result_owner(x, y, b, j);
            }
        }
        assert forall|x: int, y: int| #[trigger] post.live_at(x, y) implies post.node_ok(x, y) by {
            assert(pre.live_at(x, y));
            pre.lemma_node(x, y);
            let a = pre.at(x, y);
            let c = post.at(x, y);
            // children
            assert(post.children_ok(c)) by {
                assert(pre.children_ok(a));
                assert forall|i: int|
                    0 <= i < 16 && #[trigger] has_bit(c.cb(), i) implies post.child_of(
                    c,
                    i,
                ).path@ == c.path@.push(i as u8) + post.child_of(c, i).skip@ by {
                    pre.lemma_child(x, y, i);
                    assert(pre.live_at(a.child_base as int, rank(a.cb(), i)));
                }
            }
            if x != pre.root {
                assert(pre.parent_ok(x, y));
                let pp = a.path@.take(a.parent_len());
                assert(pre.live_at(pre.index@[pp].0, pre.index@[pp].1));
                assert(post.parent_ok(x, y));
            }
            if (x, y) == (b, j) {
                lemma_rank_marked(n.result_bitmap, m.result_bitmap, s, 32);
                assert forall|t: int|
                    0 <= t < 31 && #[trigger] has_bit(m.result_bitmap, t) implies post.entry_ok(
                    m,
                    t,
                ) by {
                    lemma_rank_marked(n.result_bitmap, m.result_bitmap, s, t);
                    if t == s {
                    } else {
                        pre.lemma_entry(b, j, t);
                        assert(pre.entry_ok(n, t));
                        lemma_slot_of_parts(t);
                        if t < s {
                            lemma_rank_strict(n.result_bitmap, t, s);
                        } else {
                            lemma_rank_monotone(n.result_bitmap, s, t);
                        }
                        assert(post.entry_of(m, t) == pre.entry_of(n, t));
                    }
                }
                assert(post.results_ok(m, b == post.root));
            } else {
                assert(a.result_base != rb);
                assert forall|t: int|
                    0 <= t < 31 && #[trigger] has_bit(c.result_bitmap, t) implies post.entry_ok(
                    c,
                    t,
                ) by {
                    pre.lemma_entry(x, y, t);
                    assert(pre.entry_ok(a, t));
                    assert(a.path@ != n.path@);
                }
                assert(post.results_ok(c, x == post.root));
            }
            post.lemma_node_intro(x, y);
        }
        assert forall|q: Seq<u8>| #[trigger] post.index@.dom().contains(q) implies {
            &&& post.live_at(post.index@[q].0, post.index@[q].1)
            &&& post.node_of(q).path@ == q
        } by {
            assert(pre.live_at(pre.index@[q].0, pre.index@[q].1));
        }
        assert forall|x: int|
            #[trigger] post.results.is_live(x) implies post.result_block_ok(x) by {
            if x == rb {
                if r > 0 {
                    assert(n.result_base != 0);
                    assert(pre.result_block_ok(rb));
                    let stem = pre.rs()[rb][0].key@.stem;
                    assert(pre.live_at(pre.index@[stem].0, pre.index@[stem].1));
                    pre.lemma_result_owner(pre.index@[stem].0, pre.index@[stem].1, b, j);
                } else {
                }
            } else {
                assert(pre.result_block_ok(x));
                let stem = pre.rs()[x][0].key@.stem;
                assert(pre.live_at(pre.index@[stem].0, pre.index@[stem].1));
            }
        }
        assert forall|q: Prefix| #[trigger] post.model@.dom().contains(q) implies post.stored_ok(
            q,
        ) by {
            if q == p {
            } else {
                assert(pre.stored_ok(q));
                assert(pre.live_at(pre.index@[q.stem].0, pre.index@[q.stem].1));
            }
        }
        assert(post.model@.dom() =~= pre.model@.dom().insert(p));
        assert forall|x: int, y: int| #[trigger]
            post.live_at(x, y) && x != post.root implies !post.at(x, y).is_sparse() by {
            assert(pre.live_at(x, y));
            if (x, y) != (b, j) {
                pre.lemma_node(x, y);
            }
        }
    }
}

impl<V> TreeBitmap<V> {
    /// Storing a new value at a position that held one keeps the table well
    /// formed.
    pub(crate) proof fn lemma_put_again(pre: Self, post: Self, b: int, j: int, s: int)
        requires
            pre.inv(),
            pre.live_at(b, j),
            pre.full_but(Some(pre.at(b, j).path@)),
            0 <= s < 31,
            has_bit(pre.at(b, j).result_bitmap, s),
            post.root == pre.root,
            post.index@ == pre.index@,
            post.nodes == pre.nodes,
            post.count == pre.count,
            post.results.wf(),
            forall|x: int| post.results.is_live(x) == pre.results.is_live(x),
            post.rs() == pre.rs().update(
                pre.at(b, j).result_base as int,
                pre.rs()[pre.at(b, j).result_base as int].update(
                    rank(pre.at(b, j).result_bitmap, s),
                    post.entry_of(pre.at(b, j), s),
                ),
            ),
            post.entry_of(pre.at(b, j), s).key@ == pre.entry_of(pre.at(b, j), s).key@,
            post.entry_of(pre.at(b, j), s).masklen == pre.entry_of(pre.at(b, j), s).masklen,
            post.model@ == pre.model@.insert(
                pre.prefix_at(b, j, s),
                post.entry_of(pre.at(b, j), s).value,
            ),
        ensures
            post.inv(),
            post.full_but(None),
    {
        let n = pre.at(b, j);
        let p = pre.prefix_at(b, j, s);
        let rb = n.result_base as int;
        let r = rank(n.result_bitmap, s);
        pre.lemma_node(b, j);
        pre.lemma_entry(b, j, s);
        lemma_slot_of_parts(s);
        assert forall|x: int, y: int| #[trigger]
            pre.live_at(x, y) && (x, y) != (b, j) implies pre.at(x, y).result_base != rb by {
            pre.lemma_node(x, y);
            if pre.at(x, y).result_base == rb {
                pre.lemma_result_owner(x, y, b, j);
            }
        }
        assert forall|x: int, y: int| #[trigger] post.live_at(x, y) implies post.node_ok(x, y) by {
            assert(pre.live_at(x, y));
            pre.lemma_node(x, y);
            let a = pre.at(x, y);
            assert(post.children_ok(a));
            if x != pre.root {
                assert(pre.parent_ok(x, y));
                assert(post.parent_ok(x, y));
            }
            assert forall|t: int|
                0 <= t < 31 && #[trigger] has_bit(a.result_bitmap, t) implies post.entry_ok(
                a,
                t,
            ) by {
                pre.lemma_entry(x, y, t);
                assert(pre.entry_ok(a, t));
                lemma_slot_of_parts(t);
                if (x, y) == (b, j) {
                    if t < s {
                        lemma_rank_strict(n.result_bitmap, t, s);
                    } else if t > s {
                        lemma_rank_strict(n.result_bitmap, s, t);
                    }
                } else {
                    assert(a.path@ != n.path@);
                }
            }
            assert(post.results_ok(a, x == post.root));
            post.lemma_node_intro(x, y);
        }
        assert forall|x: int|
            #[trigger] post.results.is_live(x) implies post.result_block_ok(x) by {
            assert(pre.result_block_ok(x));
        }
        assert forall|q: Prefix| #[trigger] post.model@.dom().contains(q) implies post.stored_ok(
            q,
        ) by {
            if q != p {
                assert(pre.stored_ok(q));
            } else {
                assert(pre.stored_ok(p));
            }
        }
        assert(post.model@.dom() =~= pre.model@.dom());
        assert forall|x: int, y: int| #[trigger]
            post.live_at(x, y) && x != post.root implies !post.at(x, y).is_sparse() by {
            assert(pre.live_at(x, y));
            pre.lemma_node(x, y);
        }
    }
}

impl<V> TreeBitmap<V> {
    /// Whether `post` is `pre` with the result at position `s` of the node
    /// at place `j` of slot `b` taken out.
    pub(crate) open spec fn took(pre: Self, post: Self, b: int, j: int, s: int) -> bool {
        &&& pre.inv()
        &&& pre.live_at(b, j)
        &&& pre.full_but(None)
        &&& 0 <= s < 31
        &&& has_bit(pre.at(b, j).result_bitmap, s)
        &&& Self::same_nodes_but(pre, post, b, j)
        &&& post.count == pre.count - 1
        &&& post.model@ == pre.model@.remove(pre.prefix_at(b, j, s))
        &&& forall|k: int|
            has_bit(post.at(b, j).result_bitmap, k) == (k != s && has_bit(
                pre.at(b, j).result_bitmap,
                k,
            ))
        &&& post.results.wf()
        &&& post.rs().len() == pre.rs().len()
        &&& forall|x: int|
            0 <= x < pre.rs().len() && x != pre.at(b, j).result_base ==> post.rs()[x]
                == pre.rs()[x]
        &&& pre.rs()[pre.at(b, j).result_base as int].len() > 1 ==> {
            &&& post.at(b, j).result_base == pre.at(b, j).result_base
            &&& post.rs()[pre.at(b, j).result_base as int] == pre.rs()[pre.at(
                b,
                j,
            ).result_base as int].remove(rank(pre.at(b, j).result_bitmap, s))
            &&& forall|x: int| post.results.is_live(x) == pre.results.is_live(x)
        }
        &&& pre.rs()[pre.at(b, j).result_base as int].len() <= 1 ==> {
            &&& post.at(b, j).result_base == 0
            &&& forall|x: int|
                post.results.is_live(x) == (x != pre.at(b, j).result_base
                    && pre.results.is_live(x))
        }
    }

    /// After a result is taken out, every other node holds the results it
    /// held.
    proof fn lemma_take_others(pre: Self, post: Self, b: int, j: int, s: int, x: int, y: int)
        requires
            Self::took(pre, post, b, j, s),
            pre.live_at(x, y),
            (x, y) != (b, j),
        ensures
            post.at(x, y) == pre.at(x, y),
            pre.at(x, y).result_base != pre.at(b, j).result_base,
            post.results_ok(post.at(x, y), x == post.root),
    {
        let n = pre.at(b, j);
        let a = pre.at(x, y);
        let rb = n.result_base as int;
        let p = pre.prefix_at(b, j, s);
        pre.lemma_node(b, j);
        pre.lemma_node(x, y);
        pre.lemma_entry(b, j, s);
        if a.result_base == rb {
            pre.lemma_result_owner(x, y, b, j);
        }
        assert forall|t: int|
            0 <= t < 31 && #[trigger] has_bit(a.result_bitmap, t) implies post.entry_ok(
            a,
            t,
        ) by {
            pre.lemma_entry(x, y, t);
            assert(pre.entry_ok(a, t));
            assert(a.path@ != n.path@);
            assert(pre.entry_of(a, t).key@ != p);
        }
    }

    /// After a result is taken out, the node holds the results that are
    /// left.
    proof fn lemma_take_here(pre: Self, post: Self, b: int, j: int, s: int)
        requires
            Self::took(pre, post, b, j, s),
        ensures
            post.results_ok(post.at(b, j), b == post.root),
            forall|t: int|
                0 <= t < 31 && t != s && #[trigger] has_bit(pre.at(b, j).result_bitmap, t)
                    ==> post.entry_of(post.at(b, j), t) == pre.entry_of(pre.at(b, j), t),
    {
        let n = pre.at(b, j);
        let m = post.at(b, j);
        let p = pre.prefix_at(b, j, s);
        pre.lemma_node(b, j);
        pre.lemma_entry(b, j, s);
        lemma_slot_of_parts(s);
        lemma_rank_cleared(n.result_bitmap, m.result_bitmap, s, 32);
        assert forall|t: int|
            0 <= t < 31 && t != s && #[trigger] has_bit(n.result_bitmap, t) implies post.entry_of(
            m,
            t,
        ) == pre.entry_of(n, t) && post.entry_ok(m, t) by {
            lemma_rank_cleared(n.result_bitmap, m.result_bitmap, s, t);
            pre.lemma_entry(b, j, t);
            assert(pre.entry_ok(n, t));
            lemma_slot_of_parts(t);
            if t < s {
                lemma_rank_strict(n.result_bitmap, t, s);
            } else {
                lemma_rank_strict(n.result_bitmap, s, t);
            }
            lemma_rank_strict(n.result_bitmap, t, 32);
            let before = pre.rs()[n.result_base as int];
            let r = rank(n.result_bitmap, s);
            let rt = rank(n.result_bitmap, t);
            assert(before.len() > 1);
            assert(post.rs()[n.result_base as int] == before.remove(r));
            assert(rank(m.result_bitmap, t) == if t < s { rt } else { rt - 1 });
            assert(before.remove(r)[rank(m.result_bitmap, t)] == before[rt]);
            assert(post.entry_of(m, t) == pre.entry_of(n, t));
            assert(pre.entry_of(n, t).key@ != p);
            assert(post.model@.dom().contains(pre.entry_of(n, t).key@));
        }
        assert forall|t: int|
            0 <= t < 31 && #[trigger] has_bit(m.result_bitmap, t) implies post.entry_ok(
            m,
            t,
        ) by {
            assert(has_bit(n.result_bitmap, t));
        }
    }

    /// Taking a result out keeps the structure, and leaves at most the node
    /// that held it empty.
    pub(crate) proof fn lemma_take(pre: Self, post: Self, b: int, j: int, s: int)
        requires
            Self::took(pre, post, b, j, s),
        ensures
            post.inv(),
            post.full_but(Some(pre.at(b, j).path@)),
            post.at(b, j).path@ == pre.at(b, j).path@,
    {
        let n = pre.at(b, j);
        let m = post.at(b, j);
        let p = pre.prefix_at(b, j, s);
        let rb = n.result_base as int;
        let r = rank(n.result_bitmap, s);
        pre.lemma_node(b, j);
        pre.lemma_entry(b, j, s);
        pre.lemma_stored(b, j, s);
        lemma_slot_of_parts(s);
        lemma_rank_cleared(n.result_bitmap, m.result_bitmap, s, 32);
        assert forall|x: int, y: int| post.live_at(x, y) == pre.live_at(x, y) by {}
        assert forall|x: int, y: int| #[trigger] post.live_at(x, y) implies post.node_ok(x, y) by {
            assert(pre.live_at(x, y));
            pre.lemma_node(x, y);
            let a = pre.at(x, y);
            let c = post.at(x, y);
            assert(post.children_ok(c)) by {
                assert(pre.children_ok(a));
                assert forall|i: int|
                    0 <= i < 16 && #[trigger] has_bit(c.cb(), i) implies post.child_of(
                    c,
                    i,
                ).path@ == c.path@.push(i as u8) + post.child_of(c, i).skip@ by {
                    pre.lemma_child(x, y, i);
                    assert(pre.live_at(a.child_base as int, rank(a.cb(), i)));
                }
            }
            if x != pre.root {
                assert(pre.parent_ok(x, y));
                let pp = a.path@.take(a.parent_len());
                assert(pre.live_at(pre.index@[pp].0, pre.index@[pp].1));
                assert(post.parent_ok(x, y));
            }
            if (x, y) == (b, j) {
                Self::lemma_take_here(pre, post, b, j, s);
            } else {
                Self::lemma_take_others(pre, post, b, j, s, x, y);
            }
            post.lemma_node_intro(x, y);
        }
        assert forall|q: Seq<u8>| #[trigger] post.index@.dom().contains(q) implies {
            &&& post.live_at(post.index@[q].0, post.index@[q].1)
            &&& post.node_of(q).path@ == q
        } by {
            assert(pre.live_at(pre.index@[q].0, pre.index@[q].1));
        }
        assert forall|x: int|
            #[trigger] post.results.is_live(x) implies post.result_block_ok(x) by {
            assert(pre.result_block_ok(x));
            let stem = pre.rs()[x][0].key@.stem;
            let (sb, sj) = pre.index@[stem];
            assert(pre.live_at(sb, sj));
            if x == rb {
                pre.lemma_result_owner(sb, sj, b, j);
                let t = lemma_rank_onto(m.result_bitmap, 32, 0);
                Self::lemma_take_here(pre, post, b, j, s);
                assert(post.entry_ok(m, t));
            } else {
                if (sb, sj) != (b, j) {
                    Self::lemma_take_others(pre, post, b, j, s, sb, sj);
                }
            }
        }
        assert forall|q: Prefix| #[trigger] post.model@.dom().contains(q) implies post.stored_ok(
            q,
        ) by {
            assert(pre.stored_ok(q));
            assert(pre.live_at(pre.index@[q.stem].0, pre.index@[q.stem].1));
            if q.stem == n.path@ {
                crate::prefix::lemma_slot_inverse(q.len, q.tail);
            }
        }
        assert(post.model@.dom() =~= pre.model@.dom().remove(p));
        assert forall|x: int, y: int| #[trigger]
            post.live_at(x, y) && x != post.root && Some(pre.at(b, j).path@) != Some(
                post.at(x, y).path@,
            ) implies !post.at(x, y).is_sparse() by {
            assert(pre.live_at(x, y));
            pre.lemma_node(x, y);
        }
    }
}

impl<V: Copy> TreeBitmap<V> {
    /// Stores `value` at position `s` of the node at place `j` of slot `b`
    /// and returns what the position held before.
    pub(crate) fn put_result(&mut self, b: usize, j: usize, s: u32, masklen: u32, value: V) -> (r:
        Option<V>)
        requires
            old(self).inv(),
            old(self).live_at(b as int, j as int),
            old(self).full_but(Some(old(self).at(b as int, j as int).path@)),
            s < 31,
            b != old(self).root ==> s != 0,
            masklen == 4 * old(self).at(b as int, j as int).path@.len() + slot_len(s as int),
            old(self).count < usize::MAX || has_bit(
                old(self).at(b as int, j as int).result_bitmap,
                s as int,
            ),
        ensures
            final(self).inv(),
            final(self).full_but(None),
            final(self).root == old(self).root,
            final(self).slots().0 == old(self).slots().0,
            old(self).slots().1 <= final(self).slots().1 <= old(self).slots().1 + 1,
            old(self).model@.dom().contains(old(self).prefix_at(b as int, j as int, s as int))
                ==> final(self).slots() == old(self).slots(),
            final(self).model@ == old(self).model@.insert(
                old(self).prefix_at(b as int, j as int, s as int),
                value,
            ),
            r == if old(self).model@.dom().contains(
                old(self).prefix_at(b as int, j as int, s as int),
            ) {
                Some(old(self).model@[old(self).prefix_at(b as int, j as int, s as int)])
            } else {
                None::<V>
            },
    {
        let ghost pre = *self;
        let ghost p = self.prefix_at(b as int, j as int, s as int);
        proof {
            self.lemma_stored(b as int, j as int, s as int);
            self.lemma_node(b as int, j as int);
        }
        let node = &self.nodes.get(b)[j];
        let bitmap: u32 = node.result_bitmap;
        let base: usize = node.result_base;
        let r: usize = rank_of(bitmap, s);
        if test_bit(bitmap, s) {
            proof {
                self.lemma_entry(b as int, j as int, s as int);
            }
            let block = self.results.get_mut(base);
            let before: V = block[r].value;
            block[r].value = value;
            proof {
                self.model@ = self.model@.insert(p, value);
                Self::lemma_put_again(pre, *self, b as int, j as int, s as int);
            }
            Some(before)
        } else {
            proof {
                lemma_rank_bounds(bitmap, s as int);
                lemma_rank_monotone(bitmap, s as int, 32);
            }
            let target: usize = if base == 0 {
                self.results.allocate()
            } else {
                base
            };
            assert(self.rs()[target as int] =~= if base == 0 {
                Seq::<Entry<V>>::empty()
            } else {
                pre.rs()[base as int]
            });
            let entry = Entry { value, masklen, key: Ghost(p) };
            self.results.get_mut(target).insert(r, entry);
            let node = &mut self.nodes.get_mut(b)[j];
            node.result_bitmap = set_bit(bitmap, s);
            node.result_base = target;
            self.count = self.count + 1;
            proof {
                self.model@ = self.model@.insert(p, value);
                assert(self.ns() =~= pre.ns().update(
                    b as int,
                    pre.ns()[b as int].update(j as int, self.at(b as int, j as int)),
                ));
                Self::lemma_put_new(pre, *self, b as int, j as int, s as int, entry);
            }
            None
        }
    }

    /// Takes out the result at position `s` of the node at place `j` of slot
    /// `b`, and frees the node's result slot if nothing is left in it.
    pub(crate) fn take_result(&mut self, b: usize, j: usize, s: u32) -> (r: V)
        requires
            old(self).inv(),
            old(self).full_but(None),
            old(self).live_at(b as int, j as int),
            s < 31,
            has_bit(old(self).at(b as int, j as int).result_bitmap, s as int),
        ensures
            final(self).inv(),
            final(self).full_but(Some(old(self).at(b as int, j as int).path@)),
            final(self).live_at(b as int, j as int),
            final(self).at(b as int, j as int).path@ == old(self).at(b as int, j as int).path@,
            final(self).root == old(self).root,
            final(self).slots() == old(self).slots(),
            old(self).model@.dom().contains(old(self).prefix_at(b as int, j as int, s as int)),
            r == old(self).model@[old(self).prefix_at(b as int, j as int, s as int)],
            final(self).model@ == old(self).model@.remove(
                old(self).prefix_at(b as int, j as int, s as int),
            ),
    {
        let ghost pre = *self;
        let ghost p = self.prefix_at(b as int, j as int, s as int);
        proof {
            self.lemma_stored(b as int, j as int, s as int);
            self.lemma_entry(b as int, j as int, s as int);
            self.lemma_node(b as int, j as int);
        }
        let node = &self.nodes.get(b)[j];
        let bitmap: u32 = node.result_bitmap;
        let base: usize = node.result_base;
        let r: usize = rank_of(bitmap, s);
        let entry = self.results.get_mut(base).remove(r);
        let emptied: bool = self.results.get(base).len() == 0;
        if emptied {
            self.results.free(base);
        }
        let node = &mut self.nodes.get_mut(b)[j];
        node.result_bitmap = clear_bit(bitmap, s);
        if emptied {
            node.result_base = 0;
        }
        proof {
            assert(pre.model@.dom().len() >= 1) by {
                if pre.model@.dom().len() == 0 {
                    pre.model@.dom().lemma_len0_is_empty();
                }
            }
        }
        self.count = self.count - 1;
        proof {
            self.model@ = self.model@.remove(p);
            assert(self.ns() =~= pre.ns().update(
                b as int,
                pre.ns()[b as int].update(j as int, self.at(b as int, j as int)),
            ));
            Self::lemma_take(pre, *self, b as int, j as int, s as int);
        }
        entry.value
    }
}

} // verus!
