use treebitmap::addrs::{AddrTuple, TupleV4, TupleV6};
use treebitmap::table::Table;
use treebitmap::tree_bitmap::TableError;

fn v4(a: u8, b: u8, c: u8, d: u8) -> AddrTuple {
    AddrTuple::V4(TupleV4::new(a, b, c, d))
}

fn v6(s: [u16; 8]) -> AddrTuple {
    AddrTuple::V6(TupleV6::new(s[0], s[1], s[2], s[3], s[4], s[5], s[6], s[7]))
}

fn octets_of(ip: AddrTuple) -> Vec<u8> {
    match ip {
        AddrTuple::V4(a) => a.octets().to_vec(),
        AddrTuple::V6(a) => a.octets().to_vec(),
    }
}

#[test]
fn new_table_is_empty() {
    let t = Table::new();
    assert_eq!(t.length(), 0);
    assert_eq!(t.memory(), (1, 0));
    assert_eq!(t.longest_match(v4(10, 0, 0, 1)).map(|m| (m.1, m.2)), None);
    assert_eq!(t.exact_match(v4(10, 0, 0, 0), 8), Ok(None));
}

#[test]
fn new_with_capacity_is_empty() {
    let t = Table::new_with_capacity(1000);
    assert_eq!(t.length(), 0);
    assert_eq!(t.memory(), (1, 0));
}

#[test]
fn insert_then_exact_match_returns_value() {
    let mut t = Table::new();
    assert_eq!(t.add(v4(192, 168, 1, 0), 24, 7), Ok(None));
    assert_eq!(t.exact_match(v4(192, 168, 1, 0), 24), Ok(Some(7)));
    assert_eq!(t.length(), 1);
}

#[test]
fn exact_match_ignores_bits_beyond_mask() {
    let mut t = Table::new();
    assert_eq!(t.add(v4(192, 168, 1, 77), 24, 7), Ok(None));
    assert_eq!(t.exact_match(v4(192, 168, 1, 200), 24), Ok(Some(7)));
    assert_eq!(t.exact_match(v4(192, 168, 2, 0), 24), Ok(None));
}

#[test]
fn exact_match_needs_same_length() {
    let mut t = Table::new();
    t.add(v4(10, 0, 0, 0), 8, 1).unwrap();
    assert_eq!(t.exact_match(v4(10, 0, 0, 0), 7), Ok(None));
    assert_eq!(t.exact_match(v4(10, 0, 0, 0), 9), Ok(None));
    assert_eq!(t.exact_match(v4(10, 0, 0, 0), 16), Ok(None));
    assert_eq!(t.exact_match(v4(10, 0, 0, 0), 8), Ok(Some(1)));
}

#[test]
fn reinsert_returns_prior_value() {
    let mut t = Table::new();
    assert_eq!(t.add(v4(10, 1, 0, 0), 16, 100), Ok(None));
    assert_eq!(t.add(v4(10, 1, 0, 0), 16, 200), Ok(Some(100)));
    assert_eq!(t.exact_match(v4(10, 1, 0, 0), 16), Ok(Some(200)));
    assert_eq!(t.length(), 1);
}

#[test]
fn remove_returns_value_then_absent() {
    let mut t = Table::new();
    t.add(v4(10, 1, 2, 0), 24, 5).unwrap();
    assert_eq!(t.remove(v4(10, 1, 2, 0), 24), Ok(Some(5)));
    assert_eq!(t.remove(v4(10, 1, 2, 0), 24), Ok(None));
    assert_eq!(t.exact_match(v4(10, 1, 2, 0), 24), Ok(None));
    assert_eq!(t.length(), 0);
}

#[test]
fn remove_of_absent_prefix_changes_nothing() {
    let mut t = Table::new();
    t.add(v4(10, 1, 2, 0), 24, 5).unwrap();
    assert_eq!(t.remove(v4(10, 1, 2, 0), 23), Ok(None));
    assert_eq!(t.remove(v4(10, 1, 3, 0), 24), Ok(None));
    assert_eq!(t.remove(v4(11, 0, 0, 0), 8), Ok(None));
    assert_eq!(t.length(), 1);
    assert_eq!(t.exact_match(v4(10, 1, 2, 0), 24), Ok(Some(5)));
}

#[test]
fn longest_match_with_overlapping_prefixes() {
    let mut t = Table::new();
    t.add(v4(10, 0, 0, 0), 8, 0xa).unwrap();
    t.add(v4(10, 1, 0, 0), 16, 0xb).unwrap();
    t.add(v4(10, 1, 2, 0), 24, 0xc).unwrap();

    let m = t.longest_match(v4(10, 1, 2, 5)).unwrap();
    assert_eq!((octets_of(m.0), m.1, m.2), (vec![10, 1, 2, 0], 24, 0xc));
    let m = t.longest_match(v4(10, 1, 9, 9)).unwrap();
    assert_eq!((octets_of(m.0), m.1, m.2), (vec![10, 1, 0, 0], 16, 0xb));
    let m = t.longest_match(v4(10, 9, 9, 9)).unwrap();
    assert_eq!((octets_of(m.0), m.1, m.2), (vec![10, 0, 0, 0], 8, 0xa));
    assert!(t.longest_match(v4(192, 168, 0, 1)).is_none());
}

#[test]
fn longest_match_order_of_insertion_does_not_matter() {
    let mut t = Table::new();
    t.add(v4(10, 1, 2, 0), 24, 0xc).unwrap();
    t.add(v4(10, 0, 0, 0), 8, 0xa).unwrap();
    t.add(v4(10, 1, 0, 0), 16, 0xb).unwrap();
    assert_eq!(t.longest_match(v4(10, 1, 2, 5)).map(|m| (m.1, m.2)), Some((24, 0xc)));
    assert_eq!(t.longest_match(v4(10, 1, 9, 9)).map(|m| (m.1, m.2)), Some((16, 0xb)));
    assert_eq!(t.longest_match(v4(10, 9, 9, 9)).map(|m| (m.1, m.2)), Some((8, 0xa)));
    assert_eq!(t.longest_match(v4(11, 1, 2, 5)).map(|m| (m.1, m.2)), None);
}

#[test]
fn default_route_matches_everything_else() {
    let mut t = Table::new();
    t.add(v4(10, 0, 0, 0), 8, 1).unwrap();
    assert!(t.longest_match(v4(192, 168, 0, 1)).is_none());
    assert_eq!(t.add(v4(0, 0, 0, 0), 0, 99), Ok(None));
    let m = t.longest_match(v4(192, 168, 0, 1)).unwrap();
    assert_eq!((octets_of(m.0), m.1, m.2), (vec![0, 0, 0, 0], 0, 99));
    let m = t.longest_match(v4(10, 3, 3, 3)).unwrap();
    assert_eq!((octets_of(m.0), m.1, m.2), (vec![10, 0, 0, 0], 8, 1));
    assert_eq!(t.exact_match(v4(1, 2, 3, 4), 0), Ok(Some(99)));
    assert_eq!(t.remove(v4(200, 0, 0, 0), 0), Ok(Some(99)));
    assert!(t.longest_match(v4(192, 168, 0, 1)).is_none());
}

#[test]
fn host_routes_are_stored() {
    let mut t = Table::new();
    t.add(v4(1, 2, 3, 4), 32, 1).unwrap();
    t.add(v4(1, 2, 3, 5), 32, 2).unwrap();
    t.add(v4(1, 2, 3, 4), 31, 3).unwrap();
    assert_eq!(t.longest_match(v4(1, 2, 3, 4)).map(|m| (m.1, m.2)), Some((32, 1)));
    assert_eq!(t.longest_match(v4(1, 2, 3, 5)).map(|m| (m.1, m.2)), Some((32, 2)));
    assert_eq!(t.exact_match(v4(1, 2, 3, 5), 31), Ok(Some(3)));
    assert_eq!(t.remove(v4(1, 2, 3, 4), 32), Ok(Some(1)));
    assert_eq!(t.longest_match(v4(1, 2, 3, 4)).map(|m| (m.1, m.2)), Some((31, 3)));
    assert_eq!(t.length(), 2);
}

#[test]
fn every_mask_length_of_one_address() {
    let mut t = Table::new();
    let ip = v4(0xac, 0x5d, 0x93, 0xe7);
    for len in 0..=32u32 {
        assert_eq!(t.add(ip, len, 1000 + len), Ok(None));
    }
    assert_eq!(t.length(), 33);
    for len in 0..=32u32 {
        assert_eq!(t.exact_match(ip, len), Ok(Some(1000 + len)));
    }
    assert_eq!(t.longest_match(ip).map(|m| (m.1, m.2)), Some((32, 1032)));
    for len in (0..=32u32).rev() {
        assert_eq!(t.longest_match(ip).map(|m| (m.1, m.2)), Some((len, 1000 + len)));
        assert_eq!(t.remove(ip, len), Ok(Some(1000 + len)));
    }
    assert!(t.longest_match(ip).is_none());
    assert_eq!(t.length(), 0);
}

#[test]
fn invalid_mask_is_refused_for_ipv4() {
    let mut t = Table::new();
    t.add(v4(10, 0, 0, 0), 8, 1).unwrap();
    let before = t.memory();
    assert_eq!(t.add(v4(10, 0, 0, 0), 33, 2), Err(TableError::InvalidMask));
    assert_eq!(t.remove(v4(10, 0, 0, 0), 33), Err(TableError::InvalidMask));
    assert_eq!(t.exact_match(v4(10, 0, 0, 0), 33), Err(TableError::InvalidMask));
    assert_eq!(t.add(v4(10, 0, 0, 0), u32::MAX, 2), Err(TableError::InvalidMask));
    assert_eq!(t.length(), 1);
    assert_eq!(t.memory(), before);
    assert_eq!(t.exact_match(v4(10, 0, 0, 0), 8), Ok(Some(1)));
}

#[test]
fn invalid_mask_is_refused_for_ipv6() {
    let mut t = Table::new();
    let ip = v6([0x2001, 0xdb8, 0, 0, 0, 0, 0, 1]);
    assert_eq!(t.add(ip, 129, 2), Err(TableError::InvalidMask));
    assert_eq!(t.remove(ip, 129), Err(TableError::InvalidMask));
    assert_eq!(t.exact_match(ip, 129), Err(TableError::InvalidMask));
    assert_eq!(t.add(ip, 128, 2), Ok(None));
    assert_eq!(t.add(ip, 33, 3), Ok(None));
    assert_eq!(t.length(), 2);
}

#[test]
fn ipv6_longest_match() {
    let mut t = Table::new();
    t.add(v6([0x2001, 0xdb8, 0, 0, 0, 0, 0, 0]), 32, 1).unwrap();
    t.add(v6([0x2001, 0xdb8, 0xabcd, 0, 0, 0, 0, 0]), 48, 2).unwrap();
    t.add(v6([0x2001, 0xdb8, 0xabcd, 0x12, 0, 0, 0, 1]), 128, 3).unwrap();

    let m = t.longest_match(v6([0x2001, 0xdb8, 0xabcd, 0x12, 0, 0, 0, 1])).unwrap();
    assert_eq!((m.1, m.2), (128, 3));
    let m = t.longest_match(v6([0x2001, 0xdb8, 0xabcd, 0x12, 0, 0, 0, 2])).unwrap();
    assert_eq!((m.1, m.2), (48, 2));
    match m.0 {
        AddrTuple::V6(p) => assert_eq!(p.segments(), [0x2001, 0xdb8, 0xabcd, 0, 0, 0, 0, 0]),
        AddrTuple::V4(_) => panic!("an IPv6 query gave an IPv4 prefix"),
    }
    let m = t.longest_match(v6([0x2001, 0xdb8, 0xffff, 0x12, 0, 0, 0, 2])).unwrap();
    assert_eq!((m.1, m.2), (32, 1));
    assert!(t.longest_match(v6([0x2002, 0xdb8, 0, 0, 0, 0, 0, 0])).is_none());
}

#[test]
fn both_families_in_one_table() {
    let mut t = Table::new();
    t.add(v4(10, 0, 0, 0), 8, 4).unwrap();
    t.add(v4(192, 168, 0, 0), 16, 44).unwrap();
    t.add(v6([0x2001, 0xdb8, 0, 0, 0, 0, 0, 0]), 32, 6).unwrap();
    t.add(v6([0xfe80, 0, 0, 0, 0, 0, 0, 0]), 10, 66).unwrap();
    assert_eq!(t.length(), 4);

    assert_eq!(t.longest_match(v4(10, 2, 3, 4)).map(|m| (m.1, m.2)), Some((8, 4)));
    assert_eq!(t.longest_match(v4(192, 168, 3, 4)).map(|m| (m.1, m.2)), Some((16, 44)));
    assert_eq!(
        t.longest_match(v6([0x2001, 0xdb8, 1, 2, 3, 4, 5, 6])).map(|m| (m.1, m.2)),
        Some((32, 6))
    );
    assert_eq!(
        t.longest_match(v6([0xfe80, 0, 0, 0, 1, 2, 3, 4])).map(|m| (m.1, m.2)),
        Some((10, 66))
    );
    assert_eq!(t.exact_match(v6([0x2001, 0xdb8, 0, 0, 0, 0, 0, 0]), 32), Ok(Some(6)));
    assert_eq!(t.exact_match(v4(10, 0, 0, 0), 8), Ok(Some(4)));

    assert_eq!(t.remove(v4(10, 0, 0, 0), 8), Ok(Some(4)));
    assert_eq!(
        t.longest_match(v6([0x2001, 0xdb8, 1, 2, 3, 4, 5, 6])).map(|m| (m.1, m.2)),
        Some((32, 6))
    );
    assert_eq!(t.remove(v6([0x2001, 0xdb8, 0, 0, 0, 0, 0, 0]), 32), Ok(Some(6)));
    assert_eq!(t.longest_match(v4(192, 168, 3, 4)).map(|m| (m.1, m.2)), Some((16, 44)));
    assert_eq!(t.length(), 2);
}

#[test]
fn families_with_the_same_leading_bits_share_a_prefix() {
    // The table keys on bits alone: 10.0.0.0/8 and a00::/8 are the same eight bits.
    let mut t = Table::new();
    assert_eq!(t.add(v4(10, 0, 0, 0), 8, 4), Ok(None));
    assert_eq!(t.add(v6([0x0a00, 0, 0, 0, 0, 0, 0, 0]), 8, 6), Ok(Some(4)));
    assert_eq!(t.exact_match(v4(10, 0, 0, 0), 8), Ok(Some(6)));
    assert_eq!(t.length(), 1);
}

#[test]
fn length_counts_distinct_prefixes() {
    let mut t = Table::new();
    assert_eq!(t.length(), 0);
    t.add(v4(10, 0, 0, 0), 8, 1).unwrap();
    assert_eq!(t.length(), 1);
    t.add(v4(10, 200, 0, 0), 8, 2).unwrap();
    assert_eq!(t.length(), 1);
    t.add(v4(10, 0, 0, 0), 9, 3).unwrap();
    assert_eq!(t.length(), 2);
    t.add(v4(10, 128, 0, 0), 9, 4).unwrap();
    assert_eq!(t.length(), 3);
    t.remove(v4(10, 0, 0, 0), 10).unwrap();
    assert_eq!(t.length(), 3);
    t.remove(v4(10, 1, 0, 0), 9).unwrap();
    assert_eq!(t.length(), 2);
    t.remove(v4(10, 1, 0, 0), 9).unwrap();
    assert_eq!(t.length(), 2);
    t.remove(v4(10, 0, 0, 0), 8).unwrap();
    t.remove(v4(10, 128, 0, 0), 9).unwrap();
    assert_eq!(t.length(), 0);
}

#[test]
fn memory_counts_slots_live_and_freed() {
    let mut t = Table::new();
    assert_eq!(t.memory(), (1, 0));
    t.add(v4(10, 0, 0, 0), 8, 1).unwrap();
    // the root's child slot with one node, and that node's result slot
    assert_eq!(t.memory(), (2, 1));
    t.add(v4(10, 0, 0, 0), 6, 2).unwrap();
    // both prefixes end in the same stride: one more result in the same slot
    assert_eq!(t.memory(), (2, 1));
    t.remove(v4(10, 0, 0, 0), 8).unwrap();
    t.remove(v4(10, 0, 0, 0), 6).unwrap();
    // freed slots stay in the storage
    assert_eq!(t.memory(), (2, 1));
    t.add(v4(172, 16, 0, 0), 12, 3).unwrap();
    // and are handed out again
    assert_eq!(t.memory(), (2, 1));
}

#[test]
fn removing_everything_frees_everything() {
    let mut t = Table::new();
    let prefixes: Vec<(AddrTuple, u32)> = vec![
        (v4(10, 0, 0, 0), 8),
        (v4(10, 1, 0, 0), 16),
        (v4(10, 1, 2, 0), 24),
        (v4(10, 1, 2, 3), 32),
        (v4(10, 1, 3, 0), 24),
        (v4(192, 168, 0, 0), 16),
        (v4(0, 0, 0, 0), 0),
        (v6([0x2001, 0xdb8, 0, 0, 0, 0, 0, 0]), 32),
        (v6([0x2001, 0xdb8, 0, 0, 0, 0, 0, 1]), 128),
        (v6([0x2001, 0xdb8, 0, 0, 0, 0, 0, 2]), 127),
    ];
    for (i, (ip, len)) in prefixes.iter().enumerate() {
        assert_eq!(t.add(*ip, *len, i as u32), Ok(None));
    }
    let grown = t.memory();
    for (i, (ip, len)) in prefixes.iter().enumerate() {
        assert_eq!(t.remove(*ip, *len), Ok(Some(i as u32)));
    }
    assert_eq!(t.length(), 0);
    // nothing was allocated while removing
    assert_eq!(t.memory(), grown);
    // storing the same prefixes again needs no new slot
    for (i, (ip, len)) in prefixes.iter().enumerate() {
        assert_eq!(t.add(*ip, *len, i as u32), Ok(None));
    }
    assert_eq!(t.memory(), grown);
}
