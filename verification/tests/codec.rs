use treebitmap::addrs::{AddrTuple, Maskable, TupleV4, TupleV6};
use treebitmap::nibbles::Nibbles;

fn nibbles_of(ip: AddrTuple) -> Vec<u8> {
    Nibbles::from(ip).as_ref().to_vec()
}

#[test]
fn v4_new_keeps_octets() {
    let a = TupleV4::new(192, 168, 1, 2);
    assert_eq!((a.a, a.b, a.c, a.d), (192, 168, 1, 2));
    assert_eq!(a.octets(), [192, 168, 1, 2]);
}

#[test]
fn v4_from_number() {
    let a = TupleV4::from(0xc0a80102);
    assert_eq!(a.octets(), [192, 168, 1, 2]);
    assert_eq!(TupleV4::from(0).octets(), [0, 0, 0, 0]);
    assert_eq!(TupleV4::from(u32::MAX).octets(), [255, 255, 255, 255]);
    assert_eq!(TupleV4::from(0x01020304).octets(), [1, 2, 3, 4]);
}

#[test]
fn v4_to_number() {
    assert_eq!(u32::from(TupleV4::new(192, 168, 1, 2)), 0xc0a80102);
    assert_eq!(u32::from(TupleV4::new(0, 0, 0, 0)), 0);
    assert_eq!(u32::from(TupleV4::new(255, 255, 255, 255)), u32::MAX);
    for n in [0u32, 1, 255, 256, 0xdeadbeef, 0x80000000, u32::MAX] {
        assert_eq!(u32::from(TupleV4::from(n)), n);
    }
}

#[test]
fn v4_nibbles() {
    let n = Nibbles::from(TupleV4::new(0xc0, 0xa8, 0x01, 0x2f));
    assert!(matches!(n, Nibbles::V4(_)));
    assert_eq!(n.as_ref(), &[0xc, 0x0, 0xa, 0x8, 0x0, 0x1, 0x2, 0xf]);
}

#[test]
fn v4_mask_exact_values() {
    let a = TupleV4::new(0xff, 0xff, 0xff, 0xff);
    assert_eq!(a.mask(0).octets(), [0, 0, 0, 0]);
    assert_eq!(a.mask(1).octets(), [0x80, 0, 0, 0]);
    assert_eq!(a.mask(7).octets(), [0xfe, 0, 0, 0]);
    assert_eq!(a.mask(8).octets(), [0xff, 0, 0, 0]);
    assert_eq!(a.mask(9).octets(), [0xff, 0x80, 0, 0]);
    assert_eq!(a.mask(20).octets(), [0xff, 0xff, 0xf0, 0]);
    assert_eq!(a.mask(31).octets(), [0xff, 0xff, 0xff, 0xfe]);
    assert_eq!(a.mask(32).octets(), [0xff, 0xff, 0xff, 0xff]);
    let b = TupleV4::new(10, 1, 2, 5);
    assert_eq!(b.mask(24).octets(), [10, 1, 2, 0]);
    assert_eq!(b.mask(16).octets(), [10, 1, 0, 0]);
    assert_eq!(b.mask(8).octets(), [10, 0, 0, 0]);
    assert_eq!(b.mask(30).octets(), [10, 1, 2, 4]);
}

#[test]
fn v6_new_keeps_segments() {
    let a = TupleV6::new(1, 2, 3, 4, 5, 6, 7, 8);
    assert_eq!(a.segments(), [1, 2, 3, 4, 5, 6, 7, 8]);
    assert_eq!((a.a1, a.a8), (1, 8));
}

#[test]
fn v6_octets() {
    let a = TupleV6::new(0x2001, 0x0db8, 0, 0xff, 0xff00, 0x1234, 0xabcd, 0x0001);
    assert_eq!(
        a.octets(),
        [0x20, 0x01, 0x0d, 0xb8, 0, 0, 0, 0xff, 0xff, 0, 0x12, 0x34, 0xab, 0xcd, 0, 1]
    );
    assert_eq!(a.segments(), [0x2001, 0x0db8, 0, 0xff, 0xff00, 0x1234, 0xabcd, 0x0001]);
}

#[test]
fn v6_nibbles() {
    let n = Nibbles::from(TupleV6::new(0x2001, 0x0db8, 0, 0xff, 0xff00, 0x1234, 0xabcd, 0x0001));
    assert!(matches!(n, Nibbles::V6(_)));
    assert_eq!(
        n.as_ref(),
        &[
            2, 0, 0, 1, 0, 0xd, 0xb, 8, 0, 0, 0, 0, 0, 0, 0xf, 0xf, 0xf, 0xf, 0, 0, 1, 2, 3, 4,
            0xa, 0xb, 0xc, 0xd, 0, 0, 0, 1
        ]
    );
}

#[test]
fn v6_mask_exact_values() {
    let a = TupleV6::new(0xffff, 0xffff, 0xffff, 0xffff, 0xffff, 0xffff, 0xffff, 0xffff);
    assert_eq!(a.mask(0).segments(), [0; 8]);
    assert_eq!(a.mask(1).segments(), [0x8000, 0, 0, 0, 0, 0, 0, 0]);
    assert_eq!(a.mask(15).segments(), [0xfffe, 0, 0, 0, 0, 0, 0, 0]);
    assert_eq!(a.mask(16).segments(), [0xffff, 0, 0, 0, 0, 0, 0, 0]);
    assert_eq!(a.mask(17).segments(), [0xffff, 0x8000, 0, 0, 0, 0, 0, 0]);
    assert_eq!(a.mask(64).segments(), [0xffff, 0xffff, 0xffff, 0xffff, 0, 0, 0, 0]);
    assert_eq!(
        a.mask(100).segments(),
        [0xffff, 0xffff, 0xffff, 0xffff, 0xffff, 0xffff, 0xf000, 0]
    );
    assert_eq!(
        a.mask(127).segments(),
        [0xffff, 0xffff, 0xffff, 0xffff, 0xffff, 0xffff, 0xffff, 0xfffe]
    );
    assert_eq!(a.mask(128).segments(), [0xffff; 8]);
    let b = TupleV6::new(0x2001, 0xdb8, 0xabcd, 0x12, 0, 0, 0, 1);
    assert_eq!(b.mask(48).segments(), [0x2001, 0xdb8, 0xabcd, 0, 0, 0, 0, 0]);
    assert_eq!(b.mask(33).segments(), [0x2001, 0xdb8, 0x8000, 0, 0, 0, 0, 0]);
}

#[test]
fn addr_tuple_mask_keeps_family() {
    let a = AddrTuple::V4(TupleV4::new(10, 1, 2, 5));
    match a.mask(24) {
        AddrTuple::V4(m) => assert_eq!(m.octets(), [10, 1, 2, 0]),
        AddrTuple::V6(_) => panic!("family changed"),
    }
    let b = AddrTuple::V6(TupleV6::new(0x2001, 0xdb8, 0xabcd, 0x12, 0, 0, 0, 1));
    match b.mask(32) {
        AddrTuple::V6(m) => assert_eq!(m.segments(), [0x2001, 0xdb8, 0, 0, 0, 0, 0, 0]),
        AddrTuple::V4(_) => panic!("family changed"),
    }
}

#[test]
fn addr_tuple_nibbles() {
    assert_eq!(
        nibbles_of(AddrTuple::V4(TupleV4::new(10, 1, 2, 5))),
        vec![0, 0xa, 0, 1, 0, 2, 0, 5]
    );
    let six = nibbles_of(AddrTuple::V6(TupleV6::new(0x2001, 0, 0, 0, 0, 0, 0, 0xf)));
    assert_eq!(six.len(), 32);
    assert_eq!(&six[..4], &[2, 0, 0, 1]);
    assert_eq!(six[31], 0xf);
}

#[test]
fn masking_clears_exactly_the_bits_beyond_the_mask() {
    let ip = TupleV4::new(0xac, 0x5d, 0x93, 0xe7);
    let bits = u32::from(ip);
    for len in 0..=32u32 {
        let expected = if len == 0 { 0 } else { bits & (u32::MAX << (32 - len)) };
        assert_eq!(u32::from(ip.mask(len)), expected, "mask length {}", len);
    }
    let six = TupleV6::new(0xac5d, 0x93e7, 0xffff, 0x1234, 0x8001, 0x7fff, 0xaaaa, 0x5555);
    let wide = six.segments().iter().fold(0u128, |acc, s| (acc << 16) | (*s as u128));
    for len in 0..=128u32 {
        let expected = if len == 0 { 0 } else { wide & (u128::MAX << (128 - len)) };
        let got = six.mask(len).segments().iter().fold(0u128, |acc, s| (acc << 16) | (*s as u128));
        assert_eq!(got, expected, "mask length {}", len);
    }
}
