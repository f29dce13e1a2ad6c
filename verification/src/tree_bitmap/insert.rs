//! Storing a prefix.

use vstd::prelude::*;
use crate::bitmap::{has_bit, lemma_rank_bounds, lemma_rank_strict, popcount};
use crate::prefix::{lemma_prefix_of_wf, locate, prefix_of, slot_len, slot_tail, valid_key, Prefix};
use crate::tree_bitmap::lookup::Step;
use crate::tree_bitmap::{stored, TableError, TreeBitmap};

verus! {

impl<V: Copy> TreeBitmap<V> {
    /// Stores `value` under the first `masklen` bits of `key` and returns the
    /// value that was stored there before, if there was one.
    ///
    /// The walk goes down to the stride that holds bit `masklen`. Where no
    /// child leads on, a new node is hung with a run that skips the strides
    /// between; where a child's run leaves the key or passes the stride, the
    /// run is split there. At most one slot of each arena is taken, and none
    /// where the prefix was stored before.
    pub fn insert(&mut self, key: &[u8], masklen: u32, value: V) -> (r: Result<
        Option<V>,
        TableError,
    >)
        requires
            old(self).wf(),
            valid_key(key@),
            old(self)@.dom().len() < usize::MAX || old(self)@.dom().contains(
                prefix_of(key@, masklen as int),
            ),
        ensures
            final(self).wf(),
            masklen > 4 * key@.len() <==> r == Err::<Option<V>, TableError>(
                TableError::InvalidMask,
            ),
            masklen > 4 * key@.len() ==> *final(self) == *old(self),
            old(self).slots().0 <= final(self).slots().0 <= old(self).slots().0 + 1,
            old(self).slots().1 <= final(self).slots().1 <= old(self).slots().1 + 1,
            stored(old(self)@, key@, masklen as int) is Some ==> final(self).slots() == old(
                self,
            ).slots(),
            masklen <= 4 * key@.len() ==> {
                &&& final(self)@ == old(self)@.insert(prefix_of(key@, masklen as int), value)
                &&& r == Ok::<Option<V>, TableError>(stored(old(self)@, key@, masklen as int))
            },
    {
        if masklen as usize > 4 * key.len() {
            return Err(TableError::InvalidMask);
        }
        let ghost p = prefix_of(key@, masklen as int);
        let mut b: usize = self.root;
        let mut j: usize = 0;
        let mut c: usize = 0;
        proof {
            self.lemma_node(b as int, j as int);
            assert(self.at(b as int, j as int).path@ =~= key@.take(0));
        }
        if masklen == 0 {
            proof {
                assert(key@.take(0) =~= Seq::<u8>::empty());
                assert(p == self.prefix_at(b as int, j as int, 0));
                self.lemma_stored(b as int, j as int, 0);
            }
            let before = self.put_result(b, j, 0, 0, value);
            return Ok(before);
        }
        proof {
            lemma_prefix_of_wf(key@, masklen as int);
        }
        let (d, s): (usize, u32) = locate(masklen, key[((masklen - 1) / 4) as usize]);
        proof {
            assert(p == Prefix {
                stem: key@.take(d as int),
                len: slot_len(s as int),
                tail: slot_tail(s as int),
            });
        }
        let ghost mut cleft = false;
        while c < d
            invariant
                self.inv(),
                self.full_but(
                    if cleft {
                        Some(key@.take(c as int))
                    } else {
                        None
                    },
                ),
                cleft ==> popcount(self.at(b as int, j as int).cb()) >= 1,
                valid_key(key@),
                c <= d < key@.len(),
                self.live_at(b as int, j as int),
                self.at(b as int, j as int).path@ == key@.take(c as int),
                self.root == old(self).root,
                self.model@ == old(self).model@,
                self.count == old(self).count,
                self.slots().1 == old(self).slots().1,
                old(self).slots().0 <= self.slots().0,
                self.slots().0 <= old(self).slots().0 + if cleft {
                    1int
                } else {
                    0int
                },
                cleft && c < d ==> !has_bit(self.at(b as int, j as int).cb(), key@[c as int] as int),
                old(self).model@.dom().contains(p) ==> !cleft,
                s < 31,
                1 <= slot_len(s as int),
                masklen == 4 * d + slot_len(s as int),
                p == prefix_of(key@, masklen as int),
                p == (Prefix {
                    stem: key@.take(d as int),
                    len: slot_len(s as int),
                    tail: slot_tail(s as int),
                }),
                old(self).model@.dom().len() < usize::MAX || old(self).model@.dom().contains(p),
            decreases d - c,
        {
            match self.probe(b, j, key, c, d) {
                Step::Down { b: cb, j: cj, depth } => {
                    b = cb;
                    j = cj;
                    c = depth;
                },
                Step::Diverges { b: cb, j: cj, at } => {
                    let ghost run = self.at(cb as int, cj as int).skip@;
                    proof {
                        self.lemma_child(b as int, j as int, key@[c as int] as int);
                        if self.model@.dom().contains(p) {
                            assert(self.stored_ok(p));
                        }
                    }
                    self.split(b, j, key[c], cb, cj, at);
                    proof {
                        cleft = true;
                        let pivot = run[at as int] as int;
                        assert(has_bit(self.at(cb as int, cj as int).cb(), pivot));
                        lemma_rank_bounds(self.at(cb as int, cj as int).cb(), pivot);
                        lemma_rank_strict(self.at(cb as int, cj as int).cb(), pivot, 32);
                        let q = self.at(cb as int, cj as int).path@;
                        assert forall|i: int| 0 <= i < q.len() implies q[i] == key@[i] by {
                            if i < c {
                                assert(key@.take(c as int)[i] == key@[i]);
                            } else if i > c {
                                assert(q[i] == run[i - c - 1]);
                            }
                        }
                        assert(q =~= key@.take(c + 1 + at));
                    }
                    b = cb;
                    j = cj;
                    c = c + 1 + at;
                },
                Step::Missing => {
                    proof {
                        self.lemma_node(b as int, j as int);
                        if self.model@.dom().contains(p) {
                            assert(self.stored_ok(p));
                        }
                    }
                    let (lb, lj) = self.add_leaf(b, j, key, c, d);
                    proof {
                        assert(p == self.prefix_at(lb as int, lj as int, s as int));
                        self.lemma_stored(lb as int, lj as int, s as int);
                        crate::bitmap::lemma_empty();
                    }
                    let before = self.put_result(lb, lj, s, masklen, value);
                    return Ok(before);
                },
            }
        }
        proof {
            assert(p == self.prefix_at(b as int, j as int, s as int));
            self.lemma_stored(b as int, j as int, s as int);
        }
        let before = self.put_result(b, j, s, masklen, value);
        Ok(before)
    }
}

} // verus!
