//! Walking down the trie, and the two queries.

use vstd::prelude::*;
use crate::bitmap::{has_bit, rank, rank_of, test_bit};
use crate::prefix::{
    lemma_prefix_of_wf, locate, prefix_of, slot_len, slot_tail, stride_of, valid_key, Prefix,
};
use crate::tree_bitmap::{is_longest_match, no_match, stored, TableError, TreeBitmap};

verus! {

/// What lies under the next nibble of a key.
pub(crate) enum Step {
    /// A child whose skipped run agrees with the key: its slot, its place
    /// and the depth at which it stands.
    Down { b: usize, j: usize, depth: usize },
    /// No child.
    Missing,
    /// A child whose skipped run leaves the key, or passes the depth asked
    /// for, at index `at` of the run: its slot and its place.
    Diverges { b: usize, j: usize, at: usize },
}

/// Whether `best` is the longest stored prefix of at most `bound` bits that
/// covers `key`.
pub(crate) open spec fn best_upto<V>(
    m: Map<Prefix, V>,
    key: Seq<u8>,
    best: Option<(u32, V)>,
    bound: int,
) -> bool {
    match best {
        Some((l, v)) => {
            &&& 0 <= l <= bound
            &&& m.dom().contains(prefix_of(key, l as int))
            &&& m[prefix_of(key, l as int)] == v
            &&& forall|x: int| l < x <= bound ==> !m.dom().contains(#[trigger] prefix_of(key, x))
        },
        None => forall|x: int| 0 <= x <= bound ==> !m.dom().contains(#[trigger] prefix_of(key, x)),
    }
}

impl<V: Copy> TreeBitmap<V> {
    /// Looks under nibble `c` of `key` from the node that stands at depth
    /// `c` on the key's path, for a child that stands at depth `limit` or
    /// above it.
    pub(crate) fn probe(&self, b: usize, j: usize, key: &[u8], c: usize, limit: usize) -> (r: Step)
        requires
            self.inv(),
            self.live_at(b as int, j as int),
            valid_key(key@),
            c < limit < key@.len(),
            self.at(b as int, j as int).path@ == key@.take(c as int),
        ensures
            match r {
                Step::Down { b: cb, j: cj, depth } => {
                    &&& has_bit(self.at(b as int, j as int).cb(), key@[c as int] as int)
                    &&& cb == self.at(b as int, j as int).child_base
                    &&& cj == rank(self.at(b as int, j as int).cb(), key@[c as int] as int)
                    &&& self.live_at(cb as int, cj as int)
                    &&& c < depth <= limit
                    &&& self.at(cb as int, cj as int).path@ == key@.take(depth as int)
                    &&& forall|x: int|
                        c < x < depth ==> !self.index@.dom().contains(#[trigger] key@.take(x))
                },
                Step::Missing => {
                    &&& !has_bit(self.at(b as int, j as int).cb(), key@[c as int] as int)
                    &&& forall|x: int|
                        c < x <= key@.len() ==> !self.index@.dom().contains(
                            #[trigger] key@.take(x),
                        )
                },
                Step::Diverges { b: cb, j: cj, at } => {
                    &&& has_bit(self.at(b as int, j as int).cb(), key@[c as int] as int)
                    &&& cb == self.at(b as int, j as int).child_base
                    &&& cj == rank(self.at(b as int, j as int).cb(), key@[c as int] as int)
                    &&& self.live_at(cb as int, cj as int)
                    &&& at < self.at(cb as int, cj as int).skip@.len()
                    &&& c + 1 + at <= limit
                    &&& forall|i: int|
                        0 <= i < at ==> self.at(cb as int, cj as int).skip@[i] == key@[c + 1 + i]
                    &&& c + 1 + at == limit || self.at(cb as int, cj as int).skip@[at as int]
                        != key@[c + 1 + at]
                    &&& forall|x: int|
                        c < x <= limit ==> !self.index@.dom().contains(#[trigger] key@.take(x))
                },
            },
    {
        let node = &self.nodes.get(b)[j];
        let nibble: u8 = key[c];
        let ghost here = key@.take(c as int);
        proof {
            self.lemma_node(b as int, j as int);
            assert(key@[c as int] < 16);
        }
        if !test_bit(node.child_bitmap as u32, nibble as u32) {
            proof {
                assert forall|x: int| c < x <= key@.len() implies !self.index@.dom().contains(
                    #[trigger] key@.take(x),
                ) by {
                    if self.index@.dom().contains(key@.take(x)) {
                        assert(key@.take(x).take(c as int) =~= here);
                        self.lemma_chain(here, key@.take(x));
                    }
                }
            }
            return Step::Missing;
        }
        let cb: usize = node.child_base;
        let cj: usize = rank_of(node.child_bitmap as u32, nibble as u32);
        proof {
            self.lemma_child(b as int, j as int, nibble as int);
            self.lemma_node(cb as int, cj as int);
        }
        let child = &self.nodes.get(cb)[cj];
        let run: usize = child.skip.len();
        let mut k: usize = 0;
        while k < run && c + 1 + k < limit && child.skip[k] == key[c + 1 + k]
            invariant
                k <= run,
                run == child.skip@.len(),
                c + 1 + k <= limit < key@.len() <= 32,
                forall|i: int| 0 <= i < k ==> child.skip@[i] == key@[c + 1 + i],
            decreases run - k,
        {
            k = k + 1;
        }
        if k < run {
            proof {
                assert forall|x: int| c < x <= limit implies !self.index@.dom().contains(
                    #[trigger] key@.take(x),
                ) by {
                    if self.index@.dom().contains(key@.take(x)) {
                        assert(key@.take(x).take(c as int) =~= here);
                        self.lemma_chain(here, key@.take(x));
                        let p = child.path@;
                        assert(p == key@.take(x).take(p.len() as int));
                        assert(p[c + 1 + k] == child.skip@[k as int]);
                        assert(p[c + 1 + k] == key@[c + 1 + k]);
                    }
                }
            }
            return Step::Diverges { b: cb, j: cj, at: k };
        }
        proof {
            let p = child.path@;
            assert(p.len() == c + 1 + run);
            assert forall|i: int| 0 <= i < p.len() implies p[i] == key@[i] by {
                if i < c {
                    assert(here[i] == key@[i]);
                } else if i > c {
                    assert(p[i] == child.skip@[i - c - 1]);
                }
            }
            assert(p =~= key@.take(c + 1 + run));
            assert forall|x: int| c < x < c + 1 + run implies !self.index@.dom().contains(
                #[trigger] key@.take(x),
            ) by {
                if self.index@.dom().contains(key@.take(x)) {
                    assert(key@.take(x).take(c as int) =~= here);
                    self.lemma_chain(here, key@.take(x));
                }
            }
        }
        Step::Down { b: cb, j: cj, depth: c + 1 + run }
    }

    /// Finds the node that stands at depth `depth` on the path of `key`.
    pub(crate) fn find_node(&self, key: &[u8], depth: usize) -> (r: Option<(usize, usize)>)
        requires
            self.inv(),
            valid_key(key@),
            depth < key@.len() || depth == 0,
        ensures
            match r {
                Some((b, j)) => {
                    &&& self.live_at(b as int, j as int)
                    &&& self.at(b as int, j as int).path@ == key@.take(depth as int)
                },
                None => !self.index@.dom().contains(key@.take(depth as int)),
            },
    {
        let mut b: usize = self.root;
        let mut j: usize = 0;
        let mut c: usize = 0;
        proof {
            assert(self.live_at(b as int, j as int));
            self.lemma_node(b as int, j as int);
            assert(self.at(b as int, j as int).path@ =~= key@.take(0));
        }
        while c < depth
            invariant
                self.inv(),
                valid_key(key@),
                depth < key@.len() || depth == 0,
                c <= depth,
                self.live_at(b as int, j as int),
                self.at(b as int, j as int).path@ == key@.take(c as int),
            decreases depth - c,
        {
            match self.probe(b, j, key, c, depth) {
                Step::Down { b: cb, j: cj, depth: below } => {
                    b = cb;
                    j = cj;
                    c = below;
                },
                _ => {
                    return None;
                },
            }
        }
        Some((b, j))
    }

    /// The result that the node at place `j` of slot `b` holds at position
    /// `s`, with its mask length.
    pub(crate) fn entry_at(&self, b: usize, j: usize, s: u32) -> (r: Option<(u32, V)>)
        requires
            self.inv(),
            self.live_at(b as int, j as int),
            s < 31,
        ensures
            r.is_some() == has_bit(self.at(b as int, j as int).result_bitmap, s as int),
            r.is_some() ==> {
                &&& r.unwrap().0 == 4 * self.at(b as int, j as int).path@.len() + slot_len(s as int)
                &&& self.model@.dom().contains(self.prefix_at(b as int, j as int, s as int))
                &&& r.unwrap().1 == self.model@[self.prefix_at(b as int, j as int, s as int)]
            },
            r.is_none() ==> !self.model@.dom().contains(
                self.prefix_at(b as int, j as int, s as int),
            ),
    {
        let node = &self.nodes.get(b)[j];
        proof {
            self.lemma_stored(b as int, j as int, s as int);
        }
        if !test_bit(node.result_bitmap, s) {
            return None;
        }
        proof {
            self.lemma_entry(b as int, j as int, s as int);
        }
        let entry = &self.results.get(node.result_base)[rank_of(node.result_bitmap, s)];
        Some((entry.masklen, entry.value))
    }

    /// The result that the node at depth `c` on the path of `key` holds for
    /// the first `4 * c + len` bits of the key.
    pub(crate) fn entry_for(&self, b: usize, j: usize, key: &[u8], c: usize, len: u32) -> (r:
        Option<(u32, V)>)
        requires
            self.inv(),
            valid_key(key@),
            c < key@.len(),
            self.live_at(b as int, j as int),
            self.at(b as int, j as int).path@ == key@.take(c as int),
            1 <= len <= 4,
        ensures
            r.is_some() == self.model@.dom().contains(prefix_of(key@, 4 * c + len)),
            r.is_some() ==> r.unwrap() == (
                (4 * c + len) as u32,
                self.model@[prefix_of(key@, 4 * c + len)],
            ),
    {
        let masklen: u32 = 4 * (c as u32) + len;
        let (d, s): (usize, u32) = locate(masklen, key[c]);
        proof {
            assert(d == c);
            assert(prefix_of(key@, masklen as int) == Prefix {
                stem: key@.take(c as int),
                len: slot_len(s as int),
                tail: slot_tail(s as int),
            });
        }
        self.entry_at(b, j, s)
    }

    /// The value stored under the first `masklen` bits of `key`, if there is
    /// one. A shorter or longer stored prefix does not count.
    pub fn exact_match(&self, key: &[u8], masklen: u32) -> (r: Result<Option<V>, TableError>)
        requires
            self.wf(),
            valid_key(key@),
        ensures
            masklen > 4 * key@.len() <==> r == Err::<Option<V>, TableError>(
                TableError::InvalidMask,
            ),
            masklen <= 4 * key@.len() ==> r == Ok::<Option<V>, TableError>(
                stored(self@, key@, masklen as int),
            ),
    {
        if masklen as usize > 4 * key.len() {
            return Err(TableError::InvalidMask);
        }
        let ghost p = prefix_of(key@, masklen as int);
        let (d, s): (usize, u32) = if masklen == 0 {
            (0, 0)
        } else {
            proof {
                lemma_prefix_of_wf(key@, masklen as int);
            }
            locate(masklen, key[((masklen - 1) / 4) as usize])
        };
        proof {
            assert(p.stem =~= key@.take(d as int));
            assert(p == Prefix {
                stem: key@.take(d as int),
                len: slot_len(s as int),
                tail: slot_tail(s as int),
            });
        }
        match self.find_node(key, d) {
            None => {
                proof {
                    if self.model@.dom().contains(p) {
                        assert(self.stored_ok(p));
                    }
                }
                Ok(None)
            },
            Some((b, j)) => {
                match self.entry_at(b, j, s) {
                    None => Ok(None),
                    Some((_, value)) => Ok(Some(value)),
                }
            },
        }
    }

    /// The longest stored prefix that covers `key`: its mask length and its
    /// value.
    pub fn longest_match(&self, key: &[u8]) -> (r: Option<(u32, V)>)
        requires
            self.wf(),
            valid_key(key@),
        ensures
            match r {
                Some((masklen, value)) => {
                    &&& is_longest_match(self@, key@, masklen as int)
                    &&& value == self@[prefix_of(key@, masklen as int)]
                },
                None => no_match(self@, key@),
            },
    {
        let mut b: usize = self.root;
        let mut j: usize = 0;
        let mut c: usize = 0;
        proof {
            assert(self.live_at(b as int, j as int));
            self.lemma_node(b as int, j as int);
            assert(self.at(b as int, j as int).path@ =~= key@.take(0));
            assert(key@.take(0) =~= Seq::<u8>::empty());
            assert(prefix_of(key@, 0) == Prefix {
                stem: key@.take(0),
                len: slot_len(0),
                tail: slot_tail(0),
            });
        }
        let mut best: Option<(u32, V)> = self.entry_at(b, j, 0);
        if key.len() == 0 {
            return best;
        }
        loop
            invariant
                self.inv(),
                valid_key(key@),
                c < key@.len(),
                self.live_at(b as int, j as int),
                self.at(b as int, j as int).path@ == key@.take(c as int),
                best_upto(self.model@, key@, best, 4 * c),
            decreases key@.len() - c,
        {
            let mut len: u32 = 1;
            while len <= 4
                invariant
                    self.inv(),
                    valid_key(key@),
                    c < key@.len(),
                    self.live_at(b as int, j as int),
                    self.at(b as int, j as int).path@ == key@.take(c as int),
                    1 <= len <= 5,
                    best_upto(self.model@, key@, best, 4 * c + len - 1),
                decreases 5 - len,
            {
                match self.entry_for(b, j, key, c, len) {
                    Some(found) => {
                        best = Some(found);
                    },
                    None => {},
                }
                len = len + 1;
            }
            if c + 1 >= key.len() {
                return best;
            }
            match self.probe(b, j, key, c, key.len() - 1) {
                Step::Down { b: cb, j: cj, depth } => {
                    proof {
                        assert forall|x: int|
                            4 * c + 4 < x <= 4 * depth implies !self.model@.dom().contains(
                            #[trigger] prefix_of(key@, x),
                        ) by {
                            let p = prefix_of(key@, x);
                            if self.model@.dom().contains(p) {
                                assert(self.stored_ok(p));
                                assert(p.stem == key@.take(stride_of(x)));
                            }
                        }
                    }
                    b = cb;
                    j = cj;
                    c = depth;
                },
                _ => {
                    proof {
                        assert forall|x: int|
                            4 * c + 4 < x <= 4 * key@.len() implies !self.model@.dom().contains(
                            #[trigger] prefix_of(key@, x),
                        ) by {
                            let p = prefix_of(key@, x);
                            if self.model@.dom().contains(p) {
                                assert(self.stored_ok(p));
                                assert(p.stem == key@.take(stride_of(x)));
                            }
                        }
                    }
                    return best;
                },
            }
        }
    }
}

} // verus!
