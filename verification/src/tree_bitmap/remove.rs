//! Taking a prefix out.

use vstd::prelude::*;
use crate::bitmap::{popcount, test_bit};
use crate::prefix::{lemma_prefix_of_wf, locate, prefix_of, slot_len, slot_tail, valid_key, Prefix};
use crate::tree_bitmap::{stored, TableError, TreeBitmap};

verus! {

impl<V: Copy> TreeBitmap<V> {
    /// Whether the node at place `j` of slot `b` is to be cut off: it is not
    /// the root and holds neither a child nor a result.
    pub(crate) fn is_spent(&self, b: usize, j: usize) -> (r: bool)
        requires
            self.inv(),
            self.live_at(b as int, j as int),
        ensures
            r == (b != self.root && self.at(b as int, j as int).is_bare()),
    {
        let node = &self.nodes.get(b)[j];
        b != self.root && node.child_base == 0 && node.result_base == 0
    }

    /// Whether the node at place `j` of slot `b` is to be joined with its
    /// child: it is not the root, holds no result and has one child.
    pub(crate) fn is_lone(&self, b: usize, j: usize) -> (r: bool)
        requires
            self.inv(),
            self.live_at(b as int, j as int),
            b == self.root || !self.at(b as int, j as int).is_bare(),
        ensures
            r == (b != self.root && self.at(b as int, j as int).is_sparse()),
            r ==> popcount(self.at(b as int, j as int).cb()) == 1,
    {
        proof {
            self.lemma_node(b as int, j as int);
        }
        let node = &self.nodes.get(b)[j];
        b != self.root && node.result_base == 0 && self.nodes.get(node.child_base).len() == 1
    }

    /// Takes out what is stored under the first `masklen` bits of `key` and
    /// returns it, if there was anything.
    ///
    /// A node that is left without children and results is cut off its
    /// parent and its slots are freed, and so on upwards; the parent is
    /// found again from the root. A node that is left without a result and
    /// with one child is joined with that child, so that runs stay as long
    /// as they can be. No slot is allocated, and none leaves the storage.
    pub fn remove(&mut self, key: &[u8], masklen: u32) -> (r: Result<Option<V>, TableError>)
        requires
            old(self).wf(),
            valid_key(key@),
        ensures
            final(self).wf(),
            masklen > 4 * key@.len() <==> r == Err::<Option<V>, TableError>(
                TableError::InvalidMask,
            ),
            masklen > 4 * key@.len() ==> *final(self) == *old(self),
            final(self).slots() == old(self).slots(),
            masklen <= 4 * key@.len() ==> {
                &&& final(self)@ == old(self)@.remove(prefix_of(key@, masklen as int))
                &&& r == Ok::<Option<V>, TableError>(stored(old(self)@, key@, masklen as int))
            },
    {
        if masklen as usize > 4 * key.len() {
            return Err(TableError::InvalidMask);
        }
        let ghost p = prefix_of(key@, masklen as int);
        let (d, s): (usize, u32) = if masklen == 0 {
            (0, 0)
        } else {
            proof {
                lemma_prefix_of_wf(key@, masklen as int);
            }
            locate(masklen, key[((masklen - 1) / 4) as usize])
        };
        proof {
            assert(p.stem =~= key@.take(d as int));
            assert(p == Prefix {
                stem: key@.take(d as int),
                len: slot_len(s as int),
                tail: slot_tail(s as int),
            });
        }
        let (mut b, mut j): (usize, usize) = match self.find_node(key, d) {
            None => {
                proof {
                    if self.model@.dom().contains(p) {
                        assert(self.stored_ok(p));
                    }
                    assert(self.model@.remove(p) =~= self.model@);
                }
                return Ok(None);
            },
            Some(found) => found,
        };
        proof {
            assert(p == self.prefix_at(b as int, j as int, s as int));
            self.lemma_stored(b as int, j as int, s as int);
        }
        if !test_bit(self.nodes.get(b)[j].result_bitmap, s) {
            proof {
                assert(self.model@.remove(p) =~= self.model@);
            }
            return Ok(None);
        }
        let value = self.take_result(b, j, s);
        let mut c: usize = d;
        while self.is_spent(b, j)
            invariant
                self.inv(),
                self.full_but(Some(key@.take(c as int))),
                valid_key(key@),
                c < key@.len() || c == 0,
                self.live_at(b as int, j as int),
                self.at(b as int, j as int).path@ == key@.take(c as int),
                self.root == old(self).root,
                self.slots() == old(self).slots(),
                self.model@ == old(self).model@.remove(p),
            decreases c,
        {
            proof {
                self.lemma_node(b as int, j as int);
            }
            let run: usize = self.nodes.get(b)[j].skip.len();
            let above: usize = c - 1 - run;
            proof {
                assert(key@.take(c as int).take(above as int) =~= key@.take(above as int));
            }
            match self.find_node(key, above) {
                None => {
                    // not reached: every node but the root hangs under a node
                    proof {
                        assert(self.parent_ok(b as int, j as int));
                    }
                    return Ok(Some(value));
                },
                Some((pb, pj)) => {
                    proof {
                        self.lemma_node(pb as int, pj as int);
                        self.lemma_child(pb as int, pj as int, key@[above as int] as int);
                    }
                    self.prune(pb, pj, key[above]);
                    b = pb;
                    j = pj;
                    c = above;
                },
            }
        }
        if self.is_lone(b, j) {
            self.merge(b, j);
        } else {
            proof {
                assert forall|x: int, y: int| #[trigger]
                    self.live_at(x, y) && x != self.root implies !self.at(x, y).is_sparse() by {
                    self.lemma_node(x, y);
                    self.lemma_node(b as int, j as int);
                }
            }
        }
        Ok(Some(value))
    }
}

} // verus!
