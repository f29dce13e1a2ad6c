//! The table: a stride-4 trie with path compression over two arenas.
//!
//! Each node stands for one stride at the end of a path of nibbles. Its child
//! bitmap marks the nibbles under which a subtree exists, its result bitmap
//! the prefixes that end in its stride. The children of one node lie in one
//! slot of the node arena, its results in one slot of the result arena, each
//! in ascending order of bitmap position, so that the rank of a position is
//! the index of what it holds. A child may skip nibbles: it then stands at
//! the end of a run along which nothing branches and nothing is stored.
//!
//! Storing a prefix hangs at most one new node, with as long a run as the
//! key allows, and splits at most one run. Taking a prefix out cuts off the
//! node that is left empty and joins the node that is left with one child
//! and no result with that child, so that runs are always as long as they
//! can be.

use vstd::prelude::*;
use crate::arena::Arena;
use crate::bitmap::lemma_empty;
use crate::prefix::{prefix_of, Prefix};

pub mod grow;
pub mod insert;
pub mod lookup;
pub mod merge;
pub mod prune;
pub mod remove;
pub mod results;
pub mod split;
pub mod structure;
pub mod usage;

verus! {

/// One stride of the trie.
pub struct Node {
    /// Bit `i` is set when a subtree exists under nibble `i`.
    pub(crate) child_bitmap: u16,
    /// Bit `slot(len, tail)` is set when the prefix that ends here with `len`
    /// bits of value `tail` is stored.
    pub(crate) result_bitmap: u32,
    /// The slot of the node arena that holds the children, or 0.
    pub(crate) child_base: usize,
    /// The slot of the result arena that holds the results, or 0.
    pub(crate) result_base: usize,
    /// The nibbles skipped between the parent's stride and this one.
    pub(crate) skip: Vec<u8>,
    /// The nibbles that lead from the root to this stride.
    pub(crate) path: Ghost<Seq<u8>>,
}

/// A stored value with the mask length it was stored under.
pub struct Entry<V> {
    pub(crate) value: V,
    pub(crate) masklen: u32,
    /// The prefix that the value is stored under.
    pub(crate) key: Ghost<Prefix>,
}

/// Why the table turned a request down.
#[derive(Clone, Copy, Debug, PartialEq, Eq, Structural)]
pub enum TableError {
    /// The mask length is larger than the number of bits in the key.
    InvalidMask,
}

/// A map from prefixes to values that answers exact and longest-match
/// queries.
pub struct TreeBitmap<V> {
    pub(crate) nodes: Arena<Node>,
    pub(crate) results: Arena<Entry<V>>,
    pub(crate) root: usize,
    pub(crate) count: usize,
    pub(crate) model: Ghost<Map<Prefix, V>>,
    /// Where the node of each path lies: the slot and the place in it.
    pub(crate) index: Ghost<Map<Seq<u8>, (int, int)>>,
}

impl<V> TreeBitmap<V> {
    /// The stored prefixes with their values.
    pub open(crate) spec fn view(&self) -> Map<Prefix, V> {
        self.model@
    }
}

/// What `m` holds under the first `masklen` bits of `key`.
pub open spec fn stored<V>(m: Map<Prefix, V>, key: Seq<u8>, masklen: int) -> Option<V> {
    if m.dom().contains(prefix_of(key, masklen)) {
        Some(m[prefix_of(key, masklen)])
    } else {
        None
    }
}

/// Whether `masklen` is the length of the longest stored prefix that covers
/// `key`.
pub open spec fn is_longest_match<V>(m: Map<Prefix, V>, key: Seq<u8>, masklen: int) -> bool {
    &&& 0 <= masklen <= 4 * key.len()
    &&& m.dom().contains(prefix_of(key, masklen))
    &&& forall|l: int|
        masklen < l <= 4 * key.len() ==> !m.dom().contains(#[trigger] prefix_of(key, l))
}

/// Whether no stored prefix covers `key`.
pub open spec fn no_match<V>(m: Map<Prefix, V>, key: Seq<u8>) -> bool {
    forall|l: int| 0 <= l <= 4 * key.len() ==> !m.dom().contains(#[trigger] prefix_of(key, l))
}

impl<V: Copy> TreeBitmap<V> {
    /// An empty table with storage reserved for `n` entries.
    pub fn with_capacity(n: usize) -> (r: Self)
        ensures
            r.wf(),
            r@ == Map::<Prefix, V>::empty(),
            r.slots() == (1int, 0int),
            r.live_nodes() == 1,
            r.live_results() == 0,
            r.free_nodes() == 0,
            r.free_results() == 0,
    {
        let mut nodes: Arena<Node> = Arena::with_capacity(n);
        let results: Arena<Entry<V>> = Arena::with_capacity(n);
        let root: usize = nodes.allocate();
        let node = Node {
            child_bitmap: 0,
            result_bitmap: 0,
            child_base: 0,
            result_base: 0,
            skip: Vec::new(),
            path: Ghost(Seq::empty()),
        };
        nodes.get_mut(root).push(node);
        let r = TreeBitmap {
            nodes,
            results,
            root,
            count: 0,
            model: Ghost(Map::empty()),
            index: Ghost(Map::empty().insert(Seq::empty(), (root as int, 0int))),
        };
        proof {
            lemma_empty();
            assert(r.nodes.blocks()[root as int].len() == 1);
            assert(r.at(root as int, 0).path@ =~= Seq::<u8>::empty());
            assert forall|b: int, j: int| #[trigger] r.live_at(b, j) implies r.node_ok(b, j) by {
                assert(b == root && j == 0);
                let n = r.at(b, j);
                assert(n.path@.skip(0) =~= n.skip@);
                r.lemma_node_intro(b, j);
            }
        }
        r
    }

    /// An empty table.
    pub fn new() -> (r: Self)
        ensures
            r.wf(),
            r@ == Map::<Prefix, V>::empty(),
            r.slots() == (1int, 0int),
            r.live_nodes() == 1,
            r.live_results() == 0,
            r.free_nodes() == 0,
            r.free_results() == 0,
    {
        Self::with_capacity(0)
    }

    /// The number of stored prefixes.
    pub fn len(&self) -> (r: usize)
        requires
            self.wf(),
        ensures
            r == self@.dom().len(),
    {
        self.count
    }

    /// The sizes of the node arena and of the result arena: the slots of
    /// each, live and freed alike.
    pub fn mem_usage(&self) -> (r: (usize, usize))
        requires
            self.wf(),
        ensures
            (r.0 as int, r.1 as int) == self.slots(),
            r.0 == self.live_nodes() + self.free_nodes(),
            r.1 == self.live_results() + self.free_results(),
    {
        (self.nodes.mem_usage(), self.results.mem_usage())
    }
}

} // verus!
