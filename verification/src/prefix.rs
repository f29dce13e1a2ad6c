//! The mathematical model of keys and prefixes.
//!
//! A key is a sequence of nibbles, most significant first. A mask length
//! selects its leading bits; that selection is a prefix. The table stores the
//! prefix at the stride that holds its last bit, so a prefix is written as the
//! whole nibbles before that stride (`stem`) and the `len` leading bits of the
//! stride's own nibble (`tail`).

use vstd::prelude::*;

verus! {

/// The longest key, in nibbles.
pub const MAX_NIBBLES: usize = 32;

/// The leading bits of a key.
pub struct Prefix {
    /// The whole nibbles before the last stride.
    pub stem: Seq<u8>,
    /// How many bits of the last stride belong to the prefix: 1 to 4, or 0
    /// for the prefix of no bits.
    pub len: int,
    /// The value of those bits.
    pub tail: int,
}

impl Prefix {
    /// The number of bits in the prefix.
    pub open spec fn masklen(self) -> int {
        4 * self.stem.len() + self.len
    }

    /// Whether the prefix is written in the one form that the table uses.
    pub open spec fn wf(self) -> bool {
        &&& 0 <= self.len <= 4
        &&& 0 <= self.tail < span(self.len)
        &&& self.len == 0 ==> self.stem.len() == 0
    }

    /// Whether `key` begins with the bits of this prefix.
    pub open spec fn covers(self, key: Seq<u8>) -> bool {
        &&& 0 <= self.masklen() <= 4 * key.len()
        &&& prefix_of(key, self.masklen()) == self
    }
}

/// The number of values that `len` bits can take, for `len` up to 4.
pub open spec fn span(len: int) -> int {
    if len <= 0 {
        1
    } else if len == 1 {
        2
    } else if len == 2 {
        4
    } else if len == 3 {
        8
    } else {
        16
    }
}

/// A key is at most 32 nibbles, each below 16.
pub open spec fn valid_key(key: Seq<u8>) -> bool {
    &&& key.len() <= MAX_NIBBLES
    &&& forall|i: int| 0 <= i < key.len() ==> #[trigger] key[i] < 16
}

/// The number of whole nibbles before the stride that holds bit `masklen`.
pub open spec fn stride_of(masklen: int) -> int {
    if masklen <= 0 {
        0
    } else {
        (masklen - 1) / 4
    }
}

/// The first `masklen` bits of `key`.
pub open spec fn prefix_of(key: Seq<u8>, masklen: int) -> Prefix {
    if masklen <= 0 {
        Prefix { stem: Seq::empty(), len: 0, tail: 0 }
    } else {
        let d = stride_of(masklen);
        let len = masklen - 4 * d;
        Prefix { stem: key.take(d), len, tail: key[d] as int / span(4 - len) }
    }
}

/// The position, in a node's result bitmap, of the prefix that ends in this
/// node with `len` bits of value `tail`. Lengths are laid out in ascending
/// order: position 0 for no bits, then 2, 4, 8 and 16 positions.
pub open spec fn slot(len: int, tail: int) -> int {
    span(len) - 1 + tail
}

/// The length that a result position stands for.
pub open spec fn slot_len(s: int) -> int {
    if s < 1 {
        0
    } else if s < 3 {
        1
    } else if s < 7 {
        2
    } else if s < 15 {
        3
    } else {
        4
    }
}

/// The bits that a result position stands for.
pub open spec fn slot_tail(s: int) -> int {
    s - (span(slot_len(s)) - 1)
}

/// Positions and (length, bits) pairs correspond one to one.
pub proof fn lemma_slot_inverse(len: int, tail: int)
    requires
        0 <= len <= 4,
        0 <= tail < span(len),
    ensures
        0 <= slot(len, tail) < 31,
        slot_len(slot(len, tail)) == len,
        slot_tail(slot(len, tail)) == tail,
{
}

/// Every result position stands for one (length, bits) pair.
pub proof fn lemma_slot_of_parts(s: int)
    requires
        0 <= s < 31,
    ensures
        0 <= slot_len(s) <= 4,
        0 <= slot_tail(s) < span(slot_len(s)),
        slot(slot_len(s), slot_tail(s)) == s,
{
}

/// The prefix of a valid key is well formed, and its mask length is the one
/// it was taken with.
pub proof fn lemma_prefix_of_wf(key: Seq<u8>, masklen: int)
    requires
        valid_key(key),
        0 <= masklen <= 4 * key.len(),
    ensures
        prefix_of(key, masklen).wf(),
        prefix_of(key, masklen).masklen() == masklen,
        prefix_of(key, masklen).covers(key),
        masklen > 0 ==> 1 <= prefix_of(key, masklen).len,
        0 <= stride_of(masklen),
        masklen > 0 ==> stride_of(masklen) < key.len(),
{
    if masklen > 0 {
        let d = stride_of(masklen);
        assert(key[d] < 16);
    }
}

/// The stride and the result position of the prefix that `masklen` selects
/// from a key whose nibble at that stride is `nibble`.
pub fn locate(masklen: u32, nibble: u8) -> (r: (usize, u32))
    requires
        1 <= masklen <= 128,
        nibble < 16,
    ensures
        r.0 == stride_of(masklen as int),
        r.1 == slot(masklen - 4 * r.0, nibble as int / span(4 - (masklen - 4 * r.0))),
        r.1 < 31,
        1 <= slot_len(r.1 as int) <= 4,
        slot_len(r.1 as int) == masklen - 4 * r.0,
        slot_tail(r.1 as int) == nibble as int / span(4 - (masklen - 4 * r.0)),
{
    let d: u32 = (masklen - 1) / 4;
    let len: u32 = masklen - 4 * d;
    let n: u32 = nibble as u32;
    let s: u32 = if len == 1 {
        1 + n / 8
    } else if len == 2 {
        3 + n / 4
    } else if len == 3 {
        7 + n / 2
    } else {
        15 + n
    };
    (d as usize, s)
}

} // verus!
