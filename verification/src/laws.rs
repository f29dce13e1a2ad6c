//! What holds between the operations of the table, stated over its model.
//!
//! The contracts of `insert`, `remove`, `exact_match` and `longest_match`
//! say what each call does to the map of stored prefixes and what it returns
//! from it. The lemmas here follow a map through several calls.

use vstd::prelude::*;
use crate::addrs::{masked_key, masked_nibble, Maskable, TupleV4, TupleV6};
use crate::prefix::{lemma_prefix_of_wf, prefix_of, span, stride_of, valid_key, Prefix};
use crate::tree_bitmap::{is_longest_match, no_match, stored};

verus! {

/// What is stored under a prefix is found under it: after
/// `insert(key, masklen, value)`, `exact_match(key, masklen)` returns
/// `value`.
pub proof fn lemma_insert_then_exact_match<V>(
    m: Map<Prefix, V>,
    key: Seq<u8>,
    masklen: int,
    value: V,
)
    ensures
        stored(m.insert(prefix_of(key, masklen), value), key, masklen) == Some(value),
{
}

/// Storing twice under one prefix: the second `insert` returns the first
/// value, and `exact_match` then returns the second.
pub proof fn lemma_reinsert<V>(m: Map<Prefix, V>, key: Seq<u8>, masklen: int, first: V, second: V)
    ensures
        stored(m.insert(prefix_of(key, masklen), first), key, masklen) == Some(first),
        stored(
            m.insert(prefix_of(key, masklen), first).insert(prefix_of(key, masklen), second),
            key,
            masklen,
        ) == Some(second),
        m.insert(prefix_of(key, masklen), first).insert(prefix_of(key, masklen), second)
            == m.insert(prefix_of(key, masklen), second),
{
    let p = prefix_of(key, masklen);
    assert(m.insert(p, first).insert(p, second) =~= m.insert(p, second));
}

/// Taking out what was stored: `remove` after `insert` returns the stored
/// value, and a second `remove` finds nothing and changes nothing.
pub proof fn lemma_insert_then_remove<V>(m: Map<Prefix, V>, key: Seq<u8>, masklen: int, value: V)
    ensures
        stored(m.insert(prefix_of(key, masklen), value), key, masklen) == Some(value),
        stored(
            m.insert(prefix_of(key, masklen), value).remove(prefix_of(key, masklen)),
            key,
            masklen,
        ) == None::<V>,
        m.insert(prefix_of(key, masklen), value).remove(prefix_of(key, masklen)).remove(
            prefix_of(key, masklen),
        ) == m.insert(prefix_of(key, masklen), value).remove(prefix_of(key, masklen)),
{
    let p = prefix_of(key, masklen);
    assert(m.insert(p, value).remove(p).remove(p) =~= m.insert(p, value).remove(p));
}

/// Two keys that agree in their first `masklen` bits name the same prefix
/// of that length.
pub proof fn lemma_same_prefix(a: Seq<u8>, b: Seq<u8>, masklen: int)
    requires
        0 <= masklen,
        masklen <= 4 * a.len(),
        masklen <= 4 * b.len(),
        a.take(stride_of(masklen)) == b.take(stride_of(masklen)),
        masklen > 0 ==> a[stride_of(masklen)] as int / span(4 - (masklen - 4 * stride_of(masklen)))
            == b[stride_of(masklen)] as int / span(4 - (masklen - 4 * stride_of(masklen))),
    ensures
        prefix_of(a, masklen) == prefix_of(b, masklen),
{
}

/// Clearing the bits of a key beyond a mask length keeps every prefix of at
/// most that length.
pub proof fn lemma_masked_key_keeps_prefix(key: Seq<u8>, masklen: int, shorter: int)
    requires
        valid_key(key),
        0 <= shorter <= masklen <= 4 * key.len(),
    ensures
        valid_key(masked_key(key, masklen)),
        prefix_of(masked_key(key, masklen), shorter) == prefix_of(key, shorter),
{
    let cut = masked_key(key, masklen);
    assert forall|i: int| 0 <= i < cut.len() implies #[trigger] cut[i] < 16 by {
        assert(key[i] < 16);
    }
    if shorter > 0 {
        let d = stride_of(shorter);
        let len = shorter - 4 * d;
        assert(key[d] < 16);
        assert forall|i: int| 0 <= i < d implies cut[i] == key[i] by {}
        assert(cut.take(d) =~= key.take(d));
        let keep = masklen - 4 * d;
        assert(keep >= len);
        assert(masked_nibble(key[d], keep) as int / span(4 - len) == key[d] as int / span(4 - len));
    }
}

/// A stored prefix of no bits covers every address: after `0/0` is stored,
/// `longest_match` returns it for every key that no longer stored prefix
/// covers.
pub proof fn lemma_default_route<V>(m: Map<Prefix, V>, any: Seq<u8>, value: V, key: Seq<u8>)
    requires
        valid_key(key),
        forall|l: int| 1 <= l <= 4 * key.len() ==> !m.dom().contains(#[trigger] prefix_of(key, l)),
    ensures
        is_longest_match(m.insert(prefix_of(any, 0), value), key, 0),
        m.insert(prefix_of(any, 0), value)[prefix_of(key, 0)] == value,
{
    let after = m.insert(prefix_of(any, 0), value);
    assert(prefix_of(any, 0) == prefix_of(key, 0));
    assert forall|l: int| 0 < l <= 4 * key.len() implies !after.dom().contains(
        #[trigger] prefix_of(key, l),
    ) by {
        lemma_prefix_of_wf(key, l);
    }
}

/// The number of stored prefixes after a call: storing under a new prefix
/// adds one, storing under a stored prefix adds none; taking a stored prefix
/// out takes one away, taking out what is not stored takes none.
pub proof fn lemma_len_follows<V>(m: Map<Prefix, V>, p: Prefix, value: V)
    requires
        m.dom().finite(),
    ensures
        m.insert(p, value).dom().finite(),
        m.remove(p).dom().finite(),
        m.insert(p, value).dom().len() == m.dom().len() + if m.dom().contains(p) {
            0int
        } else {
            1int
        },
        m.remove(p).dom().len() == m.dom().len() - if m.dom().contains(p) {
            1int
        } else {
            0int
        },
{
    assert(m.insert(p, value).dom() =~= m.dom().insert(p));
    assert(m.remove(p).dom() =~= m.dom().remove(p));
}

/// Storing or taking out one prefix leaves what is stored under every other
/// prefix as it was.
pub proof fn lemma_other_prefixes_untouched<V>(
    m: Map<Prefix, V>,
    p: Prefix,
    value: V,
    key: Seq<u8>,
    masklen: int,
)
    requires
        prefix_of(key, masklen) != p,
    ensures
        stored(m.insert(p, value), key, masklen) == stored(m, key, masklen),
        stored(m.remove(p), key, masklen) == stored(m, key, masklen),
{
}

/// Storing or taking out a prefix that does not cover a key leaves the
/// longest match of that key as it was.
pub proof fn lemma_longest_match_untouched<V>(
    m: Map<Prefix, V>,
    p: Prefix,
    value: V,
    key: Seq<u8>,
    masklen: int,
)
    requires
        valid_key(key),
        !p.covers(key),
    ensures
        is_longest_match(m.insert(p, value), key, masklen) == is_longest_match(m, key, masklen),
        is_longest_match(m.remove(p), key, masklen) == is_longest_match(m, key, masklen),
        is_longest_match(m, key, masklen) ==> m.insert(p, value)[prefix_of(key, masklen)]
            == m[prefix_of(key, masklen)] && m.remove(p)[prefix_of(key, masklen)] == m[prefix_of(
            key,
            masklen,
        )],
        no_match(m.insert(p, value), key) == no_match(m, key),
        no_match(m.remove(p), key) == no_match(m, key),
{
    assert forall|l: int| 0 <= l <= 4 * key.len() implies #[trigger] prefix_of(key, l) != p by {
        lemma_prefix_of_wf(key, l);
    }
    let a = m.insert(p, value);
    let r = m.remove(p);
    assert forall|l: int| 0 <= l <= 4 * key.len() implies (a.dom().contains(
        #[trigger] prefix_of(key, l),
    ) == m.dom().contains(prefix_of(key, l))) && (r.dom().contains(prefix_of(key, l))
        == m.dom().contains(prefix_of(key, l))) by {}
    if is_longest_match(m, key, masklen) {
        assert(is_longest_match(a, key, masklen));
        assert(is_longest_match(r, key, masklen));
    }
    if is_longest_match(a, key, masklen) {
        assert forall|l: int| masklen < l <= 4 * key.len() implies !m.dom().contains(
            #[trigger] prefix_of(key, l),
        ) by {
            assert(!a.dom().contains(prefix_of(key, l)));
        }
    }
    if is_longest_match(r, key, masklen) {
        assert forall|l: int| masklen < l <= 4 * key.len() implies !m.dom().contains(
            #[trigger] prefix_of(key, l),
        ) by {
            assert(!r.dom().contains(prefix_of(key, l)));
        }
    }
    if no_match(m, key) {
        assert(no_match(a, key));
        assert(no_match(r, key));
    }
    if no_match(a, key) {
        assert forall|l: int| 0 <= l <= 4 * key.len() implies !m.dom().contains(
            #[trigger] prefix_of(key, l),
        ) by {
            assert(!a.dom().contains(prefix_of(key, l)));
        }
    }
    if no_match(r, key) {
        assert forall|l: int| 0 <= l <= 4 * key.len() implies !m.dom().contains(
            #[trigger] prefix_of(key, l),
        ) by {
            assert(!r.dom().contains(prefix_of(key, l)));
        }
    }
}

/// One table holds both families: what is stored under a prefix of an IPv4
/// address is found under it whatever is stored under prefixes of IPv6
/// addresses, and the other way round, as long as the two prefixes are not
/// the same bits.
pub proof fn lemma_families_apart<V>(
    m: Map<Prefix, V>,
    v4: TupleV4,
    len4: int,
    value4: V,
    v6: TupleV6,
    len6: int,
    value6: V,
)
    requires
        prefix_of(v4.key(), len4) != prefix_of(v6.key(), len6),
    ensures
        stored(m.insert(prefix_of(v4.key(), len4), value4), v6.key(), len6) == stored(
            m,
            v6.key(),
            len6,
        ),
        stored(m.insert(prefix_of(v6.key(), len6), value6), v4.key(), len4) == stored(
            m,
            v4.key(),
            len4,
        ),
        stored(
            m.insert(prefix_of(v4.key(), len4), value4).insert(prefix_of(v6.key(), len6), value6),
            v4.key(),
            len4,
        ) == Some(value4),
        stored(
            m.insert(prefix_of(v4.key(), len4), value4).insert(prefix_of(v6.key(), len6), value6),
            v6.key(),
            len6,
        ) == Some(value6),
{
}

} // verus!
