//! Addresses as callers give them, their nibbles, and masking.

use vstd::prelude::*;
use vstd::std_specs::convert::FromSpecImpl;
use crate::nibbles::{Nibbles, NibblesV4, NibblesV6};
use crate::prefix::span;

verus! {

/// The nibbles of a sequence of octets, the high nibble of each first.
pub open spec fn nibbles_of(octets: Seq<u8>) -> Seq<u8> {
    Seq::new(
        2 * octets.len(),
        |i: int|
            if i % 2 == 0 {
                (octets[i / 2] / 16) as u8
            } else {
                (octets[i / 2] % 16) as u8
            },
    )
}

/// The two octets of a segment, by shifting and by dividing.
proof fn lemma_halves(x: u16)
    by (bit_vector)
    ensures
        (x >> 8) == x / 256,
        (x >> 8) < 256,
        (x & 0xff) == x % 256,
{
}

/// A segment is its two octets put together.
proof fn lemma_joined(x: u16)
    by (bit_vector)
    ensures
        ((x / 256) as u8 as u16) << 8 | ((x % 256) as u8 as u16) == x,
{
}

/// The two nibbles of an octet, by shifting and by dividing.
proof fn lemma_nibbles(x: u8)
    by (bit_vector)
    ensures
        x >> 4 == x / 16,
        x & 0xf == x % 16,
{
}

/// The four octets of a number, by shifting and by dividing.
proof fn lemma_quarters(x: u32)
    by (bit_vector)
    ensures
        (x >> 24) == x / 0x1000000,
        (x >> 24) < 0x100,
        (x >> 16) & 0xff == (x / 0x10000) % 0x100,
        (x >> 8) & 0xff == (x / 0x100) % 0x100,
        x & 0xff == x % 0x100,
{
}

/// A number is its four octets put together.
proof fn lemma_number(x: u32, y: u32, z: u32, w: u32)
    by (bit_vector)
    requires
        x < 0x100,
        y < 0x100,
        z < 0x100,
        w < 0x100,
    ensures
        x << 24 | y << 16 | z << 8 | w == x * 0x1000000 + y * 0x10000 + z * 0x100 + w,
        (x << 24 | y << 16 | z << 8 | w) >> 24 == x,
        ((x << 24 | y << 16 | z << 8 | w) >> 16) & 0xff == y,
        ((x << 24 | y << 16 | z << 8 | w) >> 8) & 0xff == z,
        (x << 24 | y << 16 | z << 8 | w) & 0xff == w,
{
}

/// An IPv4 address: its four octets, the first in `a`.
#[derive(Debug, Clone, Copy)]
pub struct TupleV4 {
    pub a: u8,
    pub b: u8,
    pub c: u8,
    pub d: u8,
}

impl TupleV4 {
    /// The four octets in network order.
    pub open spec fn octets_spec(self) -> Seq<u8> {
        seq![self.a, self.b, self.c, self.d]
    }

    /// The address as one number, the first octet in the highest place.
    pub open spec fn number(self) -> int {
        self.a * 0x1000000 + self.b * 0x10000 + self.c * 0x100 + self.d
    }

    /// The eight nibbles of the address, as an array.
    pub open spec fn key_array(self) -> [u8; 8] {
        [
            (self.a / 16) as u8,
            (self.a % 16) as u8,
            (self.b / 16) as u8,
            (self.b % 16) as u8,
            (self.c / 16) as u8,
            (self.c % 16) as u8,
            (self.d / 16) as u8,
            (self.d % 16) as u8,
        ]
    }

    /// The address of four octets.
    pub fn new(a1: u8, a2: u8, a3: u8, a4: u8) -> (r: Self)
        ensures
            r == (TupleV4 { a: a1, b: a2, c: a3, d: a4 }),
    {
        TupleV4 { a: a1, b: a2, c: a3, d: a4 }
    }

    /// The address that `num` stands for, its highest octet first.
    pub fn from(num: u32) -> (r: Self)
        ensures
            r.number() == num,
            r.a == num / 0x1000000,
            r.b == (num / 0x10000) % 0x100,
            r.c == (num / 0x100) % 0x100,
            r.d == num % 0x100,
    {
        proof {
            lemma_quarters(num);
        }
        TupleV4 {
            a: (num >> 24) as u8,
            b: ((num >> 16) & 0xff) as u8,
            c: ((num >> 8) & 0xff) as u8,
            d: (num & 0xff) as u8,
        }
    }

    /// The four octets in network order.
    pub fn octets(&self) -> (r: [u8; 4])
        ensures
            r@ == self.octets_spec(),
    {
        let r: [u8; 4] = [self.a, self.b, self.c, self.d];
        assert(r@ =~= self.octets_spec());
        r
    }
}

impl From<TupleV4> for u32 {
    /// The address as one number, the first octet in the highest place.
    fn from(a: TupleV4) -> (r: u32)
        ensures
            r == a.number(),
    {
        let x: u32 = a.a as u32;
        let y: u32 = a.b as u32;
        let z: u32 = a.c as u32;
        let w: u32 = a.d as u32;
        proof {
            lemma_number(x, y, z, w);
        }
        x << 24 | y << 16 | z << 8 | w
    }
}

impl FromSpecImpl<TupleV4> for u32 {
    /// The conversion returns what `from_spec` says.
    open spec fn obeys_from_spec() -> bool {
        true
    }

    /// The address as one number.
    open spec fn from_spec(a: TupleV4) -> u32 {
        a.number() as u32
    }
}

impl From<TupleV4> for Nibbles {
    /// The eight nibbles of the address.
    fn from(a: TupleV4) -> (r: Nibbles)
        ensures
            r is V4,
            r@ == a.key(),
    {
        let mut ret: [u8; 8] = [0;8];
        let bytes: [u8; 4] = a.octets();
        let mut i: usize = 0;
        while i < 4
            invariant
                i <= 4,
                bytes@ == a.octets_spec(),
                forall|k: int| 0 <= k < 2 * i ==> ret@[k] == a.key()[k],
            decreases 4 - i,
        {
            let byte: u8 = bytes[i];
            proof {
                lemma_nibbles(byte);
            }
            ret[i * 2] = byte >> 4;
            ret[i * 2 + 1] = byte & 0xf;
            i = i + 1;
        }
        assert(ret@ =~= a.key());
        assert(ret =~= a.key_array());
        Nibbles::V4(NibblesV4 { n: ret })
    }
}

impl FromSpecImpl<TupleV4> for Nibbles {
    /// The conversion returns what `from_spec` says.
    open spec fn obeys_from_spec() -> bool {
        true
    }

    /// The eight nibbles of the address.
    open spec fn from_spec(a: TupleV4) -> Nibbles {
        Nibbles::V4(NibblesV4 { n: a.key_array() })
    }
}

/// An IPv6 address: its eight segments of sixteen bits, the first in `a1`.
#[derive(Debug, Clone, Copy)]
pub struct TupleV6 {
    pub a1: u16,
    pub a2: u16,
    pub a3: u16,
    pub a4: u16,
    pub a5: u16,
    pub a6: u16,
    pub a7: u16,
    pub a8: u16,
}

impl TupleV6 {
    /// The eight segments in network order.
    pub open spec fn segments_spec(self) -> Seq<u16> {
        seq![self.a1, self.a2, self.a3, self.a4, self.a5, self.a6, self.a7, self.a8]
    }

    /// The sixteen octets in network order.
    pub open spec fn octets_spec(self) -> Seq<u8> {
        seq![
            (self.a1 / 256) as u8,
            (self.a1 % 256) as u8,
            (self.a2 / 256) as u8,
            (self.a2 % 256) as u8,
            (self.a3 / 256) as u8,
            (self.a3 % 256) as u8,
            (self.a4 / 256) as u8,
            (self.a4 % 256) as u8,
            (self.a5 / 256) as u8,
            (self.a5 % 256) as u8,
            (self.a6 / 256) as u8,
            (self.a6 % 256) as u8,
            (self.a7 / 256) as u8,
            (self.a7 % 256) as u8,
            (self.a8 / 256) as u8,
            (self.a8 % 256) as u8,
        ]
    }

    /// The thirty-two nibbles of the address, as an array.
    pub open spec fn key_array(self) -> [u8; 32] {
        [
            ((self.a1 / 256) / 16) as u8,
            ((self.a1 / 256) % 16) as u8,
            ((self.a1 % 256) / 16) as u8,
            ((self.a1 % 256) % 16) as u8,
            ((self.a2 / 256) / 16) as u8,
            ((self.a2 / 256) % 16) as u8,
            ((self.a2 % 256) / 16) as u8,
            ((self.a2 % 256) % 16) as u8,
            ((self.a3 / 256) / 16) as u8,
            ((self.a3 / 256) % 16) as u8,
            ((self.a3 % 256) / 16) as u8,
            ((self.a3 % 256) % 16) as u8,
            ((self.a4 / 256) / 16) as u8,
            ((self.a4 / 256) % 16) as u8,
            ((self.a4 % 256) / 16) as u8,
            ((self.a4 % 256) % 16) as u8,
            ((self.a5 / 256) / 16) as u8,
            ((self.a5 / 256) % 16) as u8,
            ((self.a5 % 256) / 16) as u8,
            ((self.a5 % 256) % 16) as u8,
            ((self.a6 / 256) / 16) as u8,
            ((self.a6 / 256) % 16) as u8,
            ((self.a6 % 256) / 16) as u8,
            ((self.a6 % 256) % 16) as u8,
            ((self.a7 / 256) / 16) as u8,
            ((self.a7 / 256) % 16) as u8,
            ((self.a7 % 256) / 16) as u8,
            ((self.a7 % 256) % 16) as u8,
            ((self.a8 / 256) / 16) as u8,
            ((self.a8 / 256) % 16) as u8,
            ((self.a8 % 256) / 16) as u8,
            ((self.a8 % 256) % 16) as u8,
        ]
    }

    /// The address of eight segments.
    pub fn new(a1: u16, a2: u16, a3: u16, a4: u16, a5: u16, a6: u16, a7: u16, a8: u16) -> (r: Self)
        ensures
            r == (TupleV6 { a1, a2, a3, a4, a5, a6, a7, a8 }),
    {
        TupleV6 { a1, a2, a3, a4, a5, a6, a7, a8 }
    }

    /// The sixteen octets in network order.
    pub fn octets(&self) -> (r: [u8; 16])
        ensures
            r@ == self.octets_spec(),
    {
        proof {
            lemma_halves(self.a1);
            lemma_halves(self.a2);
            lemma_halves(self.a3);
            lemma_halves(self.a4);
            lemma_halves(self.a5);
            lemma_halves(self.a6);
            lemma_halves(self.a7);
            lemma_halves(self.a8);
        }
        let r: [u8; 16] = [
            (self.a1 >> 8) as u8,
            (self.a1 & 0xff) as u8,
            (self.a2 >> 8) as u8,
            (self.a2 & 0xff) as u8,
            (self.a3 >> 8) as u8,
            (self.a3 & 0xff) as u8,
            (self.a4 >> 8) as u8,
            (self.a4 & 0xff) as u8,
            (self.a5 >> 8) as u8,
            (self.a5 & 0xff) as u8,
            (self.a6 >> 8) as u8,
            (self.a6 & 0xff) as u8,
            (self.a7 >> 8) as u8,
            (self.a7 & 0xff) as u8,
            (self.a8 >> 8) as u8,
            (self.a8 & 0xff) as u8,
        ];
        assert(r@ =~= self.octets_spec());
        r
    }

    /// The eight segments in network order.
    pub fn segments(&self) -> (r: [u16; 8])
        ensures
            r@ == self.segments_spec(),
    {
        let bytes = self.octets();
        proof {
            lemma_joined(self.a1);
            lemma_joined(self.a2);
            lemma_joined(self.a3);
            lemma_joined(self.a4);
            lemma_joined(self.a5);
            lemma_joined(self.a6);
            lemma_joined(self.a7);
            lemma_joined(self.a8);
        }
        let r: [u16; 8] = [
            (bytes[0] as u16) << 8 | (bytes[1] as u16),
            (bytes[2] as u16) << 8 | (bytes[3] as u16),
            (bytes[4] as u16) << 8 | (bytes[5] as u16),
            (bytes[6] as u16) << 8 | (bytes[7] as u16),
            (bytes[8] as u16) << 8 | (bytes[9] as u16),
            (bytes[10] as u16) << 8 | (bytes[11] as u16),
            (bytes[12] as u16) << 8 | (bytes[13] as u16),
            (bytes[14] as u16) << 8 | (bytes[15] as u16),
        ];
        assert(r@ =~= self.segments_spec());
        r
    }
}

/// What is left of a nibble of which the first `keep` bits are kept and
/// the others cleared.
pub open spec fn masked_nibble(nibble: u8, keep: int) -> u8 {
    if keep >= 4 {
        nibble
    } else if keep <= 0 {
        0
    } else {
        ((nibble as int / span(4 - keep)) * span(4 - keep)) as u8
    }
}

/// The key with all bits beyond the first `masklen` cleared.
pub open spec fn masked_key(key: Seq<u8>, masklen: int) -> Seq<u8> {
    Seq::new(key.len(), |t: int| masked_nibble(key[t], masklen - 4 * t))
}

/// The number of all ones, by complement and as a literal.
proof fn lemma_ones()
    by (bit_vector)
    ensures
        !0u32 == 0xffffffffu32,
        !0u16 == 0xffffu16,
{
}

/// The eight nibbles of a number, by dividing and by shifting.
proof fn lemma_number_nibbles(x: u32)
    by (bit_vector)
    ensures
        (x / 0x1000000) / 16 == (x >> 28) & 0xf,
        (x / 0x1000000) % 16 == (x >> 24) & 0xf,
        ((x / 0x10000) % 0x100) / 16 == (x >> 20) & 0xf,
        ((x / 0x10000) % 0x100) % 16 == (x >> 16) & 0xf,
        ((x / 0x100) % 0x100) / 16 == (x >> 12) & 0xf,
        ((x / 0x100) % 0x100) % 16 == (x >> 8) & 0xf,
        (x % 0x100) / 16 == (x >> 4) & 0xf,
        (x % 0x100) % 16 == (x >> 0) & 0xf,
{
}

/// Nibble `t` of a number of which the first `n` bits are kept.
proof fn lemma_mask_number(v: u32, n: u32, t: u32)
    by (bit_vector)
    requires
        1 <= n <= 32,
        t < 8,
    ensures
        ({
            let x = (v & (0xffffffffu32 << ((32 - n) as u32))) >> ((28 - 4 * t) as u32) & 0xf;
            let o = (v >> ((28 - 4 * t) as u32)) & 0xf;
            if n >= 4 * t + 4 {
                x == o
            } else if n <= 4 * t {
                x == 0
            } else if n == 4 * t + 1 {
                x == (o / 8) * 8
            } else if n == 4 * t + 2 {
                x == (o / 4) * 4
            } else {
                x == (o / 2) * 2
            }
        }),
{
}

/// The four nibbles of a segment, by dividing and by shifting.
proof fn lemma_segment_nibbles(x: u16)
    by (bit_vector)
    ensures
        (x / 0x100) / 16 == (x >> 12) & 0xf,
        (x / 0x100) % 16 == (x >> 8) & 0xf,
        (x % 0x100) / 16 == (x >> 4) & 0xf,
        (x % 0x100) % 16 == x & 0xf,
{
}

/// Nibble `q` of a segment of which the first `n` bits are kept.
proof fn lemma_mask_segment(v: u16, n: u16, q: u16)
    by (bit_vector)
    requires
        1 <= n <= 15,
        q < 4,
    ensures
        ({
            let x = (v & (0xffffu16 << ((16 - n) as u16))) >> ((12 - 4 * q) as u16) & 0xf;
            let o = (v >> ((12 - 4 * q) as u16)) & 0xf;
            if n >= 4 * q + 4 {
                x == o
            } else if n <= 4 * q {
                x == 0
            } else if n == 4 * q + 1 {
                x == (o / 8) * 8
            } else if n == 4 * q + 2 {
                x == (o / 4) * 4
            } else {
                x == (o / 2) * 2
            }
        }),
{
}

/// What is left of a segment of which the first `keep` bits are kept.
pub open spec fn masked_segment(segment: u16, keep: int) -> u16 {
    if keep >= 16 {
        segment
    } else if keep <= 0 {
        0
    } else {
        segment & (0xffffu16 << ((16 - keep) as u16))
    }
}

/// Nibble `t` of a number of thirty-two bits, the highest first.
pub open spec fn number_nibble(x: u32, t: int) -> u8 {
    if t == 0 {
        ((x / 0x1000000) / 16) as u8
    } else if t == 1 {
        ((x / 0x1000000) % 16) as u8
    } else if t == 2 {
        (((x / 0x10000) % 0x100) / 16) as u8
    } else if t == 3 {
        (((x / 0x10000) % 0x100) % 16) as u8
    } else if t == 4 {
        (((x / 0x100) % 0x100) / 16) as u8
    } else if t == 5 {
        (((x / 0x100) % 0x100) % 16) as u8
    } else if t == 6 {
        ((x % 0x100) / 16) as u8
    } else {
        ((x % 0x100) % 16) as u8
    }
}

/// Nibble `q` of a segment of sixteen bits, the highest first.
pub open spec fn segment_nibble(x: u16, q: int) -> u8 {
    if q == 0 {
        ((x / 0x100) / 16) as u8
    } else if q == 1 {
        ((x / 0x100) % 16) as u8
    } else if q == 2 {
        ((x % 0x100) / 16) as u8
    } else {
        ((x % 0x100) % 16) as u8
    }
}

/// What is left of a number of which the first `keep` bits are kept.
pub open spec fn masked_number(number: u32, keep: int) -> u32 {
    if keep >= 32 {
        number
    } else if keep <= 0 {
        0
    } else {
        number & (0xffffffffu32 << ((32 - keep) as u32))
    }
}

/// Clearing the bits of a number beyond the first `keep` clears those bits
/// of each nibble.
proof fn lemma_masked_number_nibble(v: u32, keep: int, t: int)
    requires
        0 <= keep <= 32,
        0 <= t < 8,
    ensures
        number_nibble(masked_number(v, keep), t) == masked_nibble(
            number_nibble(v, t),
            keep - 4 * t,
        ),
{
    lemma_number_nibbles(v);
    lemma_number_nibbles(masked_number(v, keep));
    if 0 < keep < 32 {
        let n = keep as u32;
        let x = v & (0xffffffffu32 << ((32 - n) as u32));
        assert(x == masked_number(v, keep));
        if t == 0 {
            lemma_mask_number(v, n, 0);
        } else if t == 1 {
            lemma_mask_number(v, n, 1);
        } else if t == 2 {
            lemma_mask_number(v, n, 2);
        } else if t == 3 {
            lemma_mask_number(v, n, 3);
        } else if t == 4 {
            lemma_mask_number(v, n, 4);
        } else if t == 5 {
            lemma_mask_number(v, n, 5);
        } else if t == 6 {
            lemma_mask_number(v, n, 6);
        } else {
            lemma_mask_number(v, n, 7);
            assert(x >> 0u32 == x && v >> 0u32 == v) by (bit_vector);
        }
    }
}

/// Clearing the bits of a segment beyond the first `keep` clears those bits
/// of each nibble.
proof fn lemma_masked_segment_nibble(v: u16, keep: int, q: int)
    requires
        0 <= q < 4,
    ensures
        segment_nibble(masked_segment(v, keep), q) == masked_nibble(
            segment_nibble(v, q),
            keep - 4 * q,
        ),
{
    lemma_segment_nibbles(v);
    lemma_segment_nibbles(masked_segment(v, keep));
    if 0 < keep < 16 {
        let n = keep as u16;
        let x = v & (0xffffu16 << ((16 - n) as u16));
        assert(x == masked_segment(v, keep));
        if q == 0 {
            lemma_mask_segment(v, n, 0);
            assert(segment_nibble(x, 0) == (x >> 12) & 0xf);
        } else if q == 1 {
            lemma_mask_segment(v, n, 1);
            assert(segment_nibble(x, 1) == (x >> 8) & 0xf);
        } else if q == 2 {
            lemma_mask_segment(v, n, 2);
            assert(segment_nibble(x, 2) == (x >> 4) & 0xf);
        } else {
            lemma_mask_segment(v, n, 3);
            assert(x >> 0u16 == x && v >> 0u16 == v) by (bit_vector);
            assert(segment_nibble(x, 3) == x & 0xf);
        }
    }
}

/// An address of which the bits beyond a mask length can be cleared.
pub trait Maskable: Sized {
    /// The nibbles of the address, most significant first.
    spec fn key(self) -> Seq<u8>;

    /// The address with all bits beyond the first `masklen` cleared.
    fn mask(self, masklen: u32) -> (r: Self)
        requires
            masklen <= 4 * self.key().len(),
        ensures
            r.key() == masked_key(self.key(), masklen as int),
    ;
}

impl TupleV4 {
    /// The nibbles of the address are those of its number.
    pub proof fn lemma_key(self, t: int)
        requires
            0 <= t < 8,
        ensures
            self.key().len() == 8,
            self.key()[t] == number_nibble(self.number() as u32, t),
    {
        let x = self.number() as u32;
        lemma_number(self.a as u32, self.b as u32, self.c as u32, self.d as u32);
        lemma_quarters(x);
    }
}

impl Maskable for TupleV4 {
    /// The eight nibbles of the address.
    open spec fn key(self) -> Seq<u8> {
        nibbles_of(self.octets_spec())
    }

    /// The address with all bits beyond the first `masklen` cleared, for a
    /// mask length of at most 32.
    fn mask(self, masklen: u32) -> (r: Self) {
        let ip: u32 = u32::from(self);
        let masked: u32 = if masklen == 0 {
            0
        } else {
            proof {
                lemma_ones();
            }
            ip & (!0u32 << (32 - masklen))
        };
        assert(masked == masked_number(ip, masklen as int)) by {
            lemma_ones();
            if masklen == 32 {
                assert(ip & (0xffffffffu32 << 0u32) == ip) by (bit_vector);
            }
        }
        assert(ip == self.number());
        let r = TupleV4::from(masked);
        proof {
            assert forall|t: int| 0 <= t < 8 implies r.key()[t] == masked_nibble(
                self.key()[t],
                masklen - 4 * t,
            ) by {
                self.lemma_key(t);
                r.lemma_key(t);
                lemma_masked_number_nibble(ip, masklen as int, t);
            }
            assert(r.key() =~= masked_key(self.key(), masklen as int));
        }
        r
    }
}

impl TupleV6 {
    /// The nibbles of the address are those of its segments.
    pub proof fn lemma_key(self, t: int)
        requires
            0 <= t < 32,
        ensures
            self.key().len() == 32,
            self.key()[t] == segment_nibble(self.segments_spec()[t / 4], t % 4),
    {
    }
}

impl Maskable for TupleV6 {
    /// The thirty-two nibbles of the address.
    open spec fn key(self) -> Seq<u8> {
        nibbles_of(self.octets_spec())
    }

    /// The address with all bits beyond the first `masklen` cleared, for a
    /// mask length of at most 128.
    fn mask(self, masklen: u32) -> (r: Self) {
        let mut ret: [u16; 8] = self.segments();
        let ghost before = ret@;
        let first: usize = ((masklen + 15) / 16) as usize;
        let mut i: usize = first;
        while i < 8
            invariant
                first <= i,
                first <= 8,
                ret@.len() == 8,
                forall|g: int| 0 <= g < first ==> ret@[g] == before[g],
                forall|g: int| first <= g < i && g < 8 ==> ret@[g] == 0,
            decreases 8 - i,
        {
            ret[i] = 0;
            i = i + 1;
        }
        if masklen % 16 != 0 {
            let k: usize = (masklen / 16) as usize;
            let keep: u32 = masklen % 16;
            proof {
                lemma_ones();
            }
            ret[k] = ret[k] & (!0u16 << (16 - keep));
        }
        assert forall|g: int| 0 <= g < 8 implies ret@[g] == masked_segment(
            before[g],
            masklen - 16 * g,
        ) by {}
        let r = Self::new(ret[0], ret[1], ret[2], ret[3], ret[4], ret[5], ret[6], ret[7]);
        proof {
            assert(r.segments_spec() =~= ret@);
            assert forall|t: int| 0 <= t < 32 implies r.key()[t] == masked_nibble(
                self.key()[t],
                masklen - 4 * t,
            ) by {
                self.lemma_key(t);
                r.lemma_key(t);
                lemma_masked_segment_nibble(before[t / 4], masklen - 16 * (t / 4), t % 4);
            }
            assert(r.key() =~= masked_key(self.key(), masklen as int));
        }
        r
    }
}

impl From<TupleV6> for Nibbles {
    /// The thirty-two nibbles of the address.
    fn from(a: TupleV6) -> (r: Nibbles)
        ensures
            r is V6,
            r@ == a.key(),
    {
        let mut ret: [u8; 32] = [0;32];
        let bytes: [u8; 16] = a.octets();
        let mut i: usize = 0;
        while i < 16
            invariant
                i <= 16,
                bytes@ == a.octets_spec(),
                forall|k: int| 0 <= k < 2 * i ==> ret@[k] == a.key()[k],
            decreases 16 - i,
        {
            let byte: u8 = bytes[i];
            proof {
                lemma_nibbles(byte);
            }
            ret[i * 2] = byte >> 4;
            ret[i * 2 + 1] = byte & 0xf;
            i = i + 1;
        }
        assert(ret@ =~= a.key());
        assert(ret =~= a.key_array());
        Nibbles::V6(NibblesV6 { n: ret })
    }
}

impl FromSpecImpl<TupleV6> for Nibbles {
    /// The conversion returns what `from_spec` says.
    open spec fn obeys_from_spec() -> bool {
        true
    }

    /// The thirty-two nibbles of the address.
    open spec fn from_spec(a: TupleV6) -> Nibbles {
        Nibbles::V6(NibblesV6 { n: a.key_array() })
    }
}

/// An address of either family.
#[derive(Clone, Copy)]
pub enum AddrTuple {
    V4(TupleV4),
    V6(TupleV6),
}

impl Maskable for AddrTuple {
    /// The nibbles of the address: eight for IPv4, thirty-two for IPv6.
    open spec fn key(self) -> Seq<u8> {
        match self {
            AddrTuple::V4(v4) => v4.key(),
            AddrTuple::V6(v6) => v6.key(),
        }
    }

    /// The address with all bits beyond the first `masklen` cleared, for a
    /// mask length of at most the width of its family.
    fn mask(self, masklen: u32) -> (r: Self) {
        match self {
            AddrTuple::V4(v4) => AddrTuple::V4(v4.mask(masklen)),
            AddrTuple::V6(v6) => AddrTuple::V6(v6.mask(masklen)),
        }
    }
}

impl From<AddrTuple> for Nibbles {
    /// The nibbles of the address: eight for IPv4, thirty-two for IPv6.
    fn from(a: AddrTuple) -> (r: Nibbles)
        ensures
            r@ == a.key(),
            a is V4 <==> r is V4,
    {
        match a {
            AddrTuple::V4(v4) => Nibbles::from(v4),
            AddrTuple::V6(v6) => Nibbles::from(v6),
        }
    }
}

impl FromSpecImpl<AddrTuple> for Nibbles {
    /// The conversion returns what `from_spec` says.
    open spec fn obeys_from_spec() -> bool {
        true
    }

    /// The nibbles of the address.
    open spec fn from_spec(a: AddrTuple) -> Nibbles {
        match a {
            AddrTuple::V4(v4) => Nibbles::V4(NibblesV4 { n: v4.key_array() }),
            AddrTuple::V6(v6) => Nibbles::V6(NibblesV6 { n: v6.key_array() }),
        }
    }
}

} // verus!
