//! The table as callers use it: keyed by addresses of either family, with
//! values of thirty-two bits.

use vstd::prelude::*;
use crate::addrs::{masked_key, AddrTuple, Maskable};
use crate::nibbles::Nibbles;
use crate::prefix::{prefix_of, valid_key, Prefix};
use crate::tree_bitmap::{is_longest_match, no_match, stored, TableError, TreeBitmap};

verus! {

/// A routing table: a map from address prefixes to values.
pub struct Table {
    tree: TreeBitmap<u32>,
}

/// The nibbles of an address make a valid key.
pub proof fn lemma_key_valid(ip: AddrTuple)
    ensures
        valid_key(ip.key()),
        ip is V4 ==> ip.key().len() == 8,
        ip is V6 ==> ip.key().len() == 32,
{
}

impl Table {
    /// The stored prefixes with their values.
    pub closed spec fn view(&self) -> Map<Prefix, u32> {
        self.tree@
    }

    /// The table is well formed.
    pub closed spec fn wf(&self) -> bool {
        self.tree.wf()
    }

    /// The number of slots of the node arena and of the result arena, live
    /// and freed alike.
    pub closed spec fn slots(&self) -> (int, int) {
        self.tree.slots()
    }

    /// The number of live slots of the node arena and of the result arena.
    pub closed spec fn live(&self) -> (int, int) {
        (self.tree.live_nodes(), self.tree.live_results())
    }

    /// The number of freed slots of the node arena and of the result arena.
    pub closed spec fn freed(&self) -> (int, int) {
        (self.tree.free_nodes(), self.tree.free_results())
    }

    /// A table in which nothing is stored holds what a new table holds: one
    /// live slot of the node arena, for the root, and none of the result
    /// arena. What was live in between is freed, and stays in the storage.
    pub proof fn lemma_empty_holds_only_root(&self)
        requires
            self.wf(),
            self@.dom() =~= Set::empty(),
        ensures
            self.live() == (1int, 0int),
    {
        self.tree.lemma_empty_holds_only_root();
    }

    /// No more slots of the arenas are live than the stored prefixes need:
    /// in the result arena at most one for each prefix, in the node arena at
    /// most one for each live slot of the result arena, and the root's.
    pub proof fn lemma_slots_bounded(&self)
        requires
            self.wf(),
        ensures
            1 <= self.live().0 <= self.live().1 + 1,
            0 <= self.live().1 <= self@.dom().len(),
    {
        self.tree.lemma_slots_bounded();
    }

    /// An empty table.
    pub fn new() -> (r: Self)
        ensures
            r.wf(),
            r@ == Map::<Prefix, u32>::empty(),
            r.slots() == (1int, 0int),
            r.live() == (1int, 0int),
            r.freed() == (0int, 0int),
    {
        Table { tree: TreeBitmap::new() }
    }

    /// An empty table with storage reserved for `n` entries.
    pub fn new_with_capacity(n: usize) -> (r: Self)
        ensures
            r.wf(),
            r@ == Map::<Prefix, u32>::empty(),
            r.slots() == (1int, 0int),
            r.live() == (1int, 0int),
            r.freed() == (0int, 0int),
    {
        Table { tree: TreeBitmap::with_capacity(n) }
    }

    /// The number of stored prefixes.
    pub fn length(&self) -> (r: usize)
        requires
            self.wf(),
        ensures
            r == self@.dom().len(),
    {
        self.tree.len()
    }

    /// Stores `value` under the first `masklen` bits of `ip` and returns the
    /// value that was stored there before, if there was one. A mask length
    /// beyond the width of the address is refused and the table left as it
    /// was.
    pub fn add(&mut self, ip: AddrTuple, masklen: u32, value: u32) -> (r: Result<
        Option<u32>,
        TableError,
    >)
        requires
            old(self).wf(),
            old(self)@.dom().len() < usize::MAX || old(self)@.dom().contains(
                prefix_of(ip.key(), masklen as int),
            ),
        ensures
            final(self).wf(),
            masklen > 4 * ip.key().len() <==> r == Err::<Option<u32>, TableError>(
                TableError::InvalidMask,
            ),
            masklen > 4 * ip.key().len() ==> *final(self) == *old(self),
            old(self).slots().0 <= final(self).slots().0 <= old(self).slots().0 + 1,
            old(self).slots().1 <= final(self).slots().1 <= old(self).slots().1 + 1,
            stored(old(self)@, ip.key(), masklen as int) is Some ==> final(self).slots() == old(
                self,
            ).slots(),
            masklen <= 4 * ip.key().len() ==> {
                &&& final(self)@ == old(self)@.insert(prefix_of(ip.key(), masklen as int), value)
                &&& r == Ok::<Option<u32>, TableError>(stored(old(self)@, ip.key(), masklen as int))
            },
    {
        proof {
            lemma_key_valid(ip);
        }
        let nibbles = Nibbles::from(ip);
        self.tree.insert(nibbles.as_ref(), masklen, value)
    }

    /// Takes out what is stored under the first `masklen` bits of `ip` and
    /// returns it, if there was anything. A mask length beyond the width of
    /// the address is refused and the table left as it was.
    pub fn remove(&mut self, ip: AddrTuple, masklen: u32) -> (r: Result<Option<u32>, TableError>)
        requires
            old(self).wf(),
        ensures
            final(self).wf(),
            masklen > 4 * ip.key().len() <==> r == Err::<Option<u32>, TableError>(
                TableError::InvalidMask,
            ),
            masklen > 4 * ip.key().len() ==> *final(self) == *old(self),
            final(self).slots() == old(self).slots(),
            masklen <= 4 * ip.key().len() ==> {
                &&& final(self)@ == old(self)@.remove(prefix_of(ip.key(), masklen as int))
                &&& r == Ok::<Option<u32>, TableError>(stored(old(self)@, ip.key(), masklen as int))
            },
    {
        proof {
            lemma_key_valid(ip);
        }
        let nibbles = Nibbles::from(ip);
        self.tree.remove(nibbles.as_ref(), masklen)
    }

    /// The longest stored prefix that covers `ip`: the address with the bits
    /// beyond the prefix cleared, the length of the prefix, and its value.
    pub fn longest_match(&self, ip: AddrTuple) -> (r: Option<(AddrTuple, u32, u32)>)
        requires
            self.wf(),
        ensures
            match r {
                Some((prefix, masklen, value)) => {
                    &&& is_longest_match(self@, ip.key(), masklen as int)
                    &&& value == self@[prefix_of(ip.key(), masklen as int)]
                    &&& prefix.key() == masked_key(ip.key(), masklen as int)
                    &&& prefix is V4 <==> ip is V4
                },
                None => no_match(self@, ip.key()),
            },
    {
        proof {
            lemma_key_valid(ip);
        }
        let nibbles = Nibbles::from(ip);
        match self.tree.longest_match(nibbles.as_ref()) {
            Some((masklen, value)) => {
                let prefix = ip.mask(masklen);
                proof {
                    lemma_key_valid(prefix);
                }
                Some((prefix, masklen, value))
            },
            None => None,
        }
    }

    /// The value stored under the first `masklen` bits of `ip`, if there is
    /// one. A mask length beyond the width of the address is refused.
    pub fn exact_match(&self, ip: AddrTuple, masklen: u32) -> (r: Result<Option<u32>, TableError>)
        requires
            self.wf(),
        ensures
            masklen > 4 * ip.key().len() <==> r == Err::<Option<u32>, TableError>(
                TableError::InvalidMask,
            ),
            masklen <= 4 * ip.key().len() ==> r == Ok::<Option<u32>, TableError>(
                stored(self@, ip.key(), masklen as int),
            ),
    {
        proof {
            lemma_key_valid(ip);
        }
        let nibbles = Nibbles::from(ip);
        self.tree.exact_match(nibbles.as_ref(), masklen)
    }

    /// The sizes of the node arena and of the result arena: the slots of
    /// each, live and freed alike.
    pub fn memory(&self) -> (r: (usize, usize))
        requires
            self.wf(),
        ensures
            (r.0 as int, r.1 as int) == self.slots(),
            r.0 == self.live().0 + self.freed().0,
            r.1 == self.live().1 + self.freed().1,
    {
        self.tree.mem_usage()
    }
}

} // verus!
