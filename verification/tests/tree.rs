use treebitmap::tree_bitmap::{TableError, TreeBitmap};

/// The nibbles of a number of thirty-two bits.
fn key32(x: u32) -> Vec<u8> {
    (0..8).map(|i| ((x >> (28 - 4 * i)) & 0xf) as u8).collect()
}

/// The nibbles of a number of 128 bits.
fn key128(x: u128) -> Vec<u8> {
    (0..32).map(|i| ((x >> (124 - 4 * i)) & 0xf) as u8).collect()
}

/// The first `len` bits of a key, as a number and its length.
fn bits_of(key: &[u8], len: u32) -> (u128, u32) {
    let mut v: u128 = 0;
    for i in 0..len {
        let nibble = key[(i / 4) as usize];
        let bit = (nibble >> (3 - (i % 4))) & 1;
        v = (v << 1) | bit as u128;
    }
    (v, len)
}

/// A table that is searched by going through all of it.
struct Plain {
    entries: Vec<((u128, u32), u32)>,
}

impl Plain {
    fn insert(&mut self, key: &[u8], len: u32, value: u32) -> Option<u32> {
        let p = bits_of(key, len);
        for e in self.entries.iter_mut() {
            if e.0 == p {
                let old = e.1;
                e.1 = value;
                return Some(old);
            }
        }
        self.entries.push((p, value));
        None
    }

    fn remove(&mut self, key: &[u8], len: u32) -> Option<u32> {
        let p = bits_of(key, len);
        let at = self.entries.iter().position(|e| e.0 == p)?;
        Some(self.entries.remove(at).1)
    }

    fn exact(&self, key: &[u8], len: u32) -> Option<u32> {
        let p = bits_of(key, len);
        self.entries.iter().find(|e| e.0 == p).map(|e| e.1)
    }

    fn longest(&self, key: &[u8]) -> Option<(u32, u32)> {
        let width = 4 * key.len() as u32;
        for len in (0..=width).rev() {
            if let Some(v) = self.exact(key, len) {
                return Some((len, v));
            }
        }
        None
    }
}

struct Lcg(u64);

impl Lcg {
    fn next(&mut self) -> u64 {
        self.0 = self.0.wrapping_mul(6364136223846793005).wrapping_add(1442695040888963407);
        self.0 >> 11
    }
}

#[test]
fn tree_new_is_empty() {
    let t: TreeBitmap<u32> = TreeBitmap::new();
    assert_eq!(t.len(), 0);
    assert_eq!(t.mem_usage(), (1, 0));
    assert_eq!(t.live_usage(), (1, 0));
    assert_eq!(t.longest_match(&key32(0x0a000001)), None);
    assert_eq!(t.exact_match(&key32(0x0a000000), 8), Ok(None));
}

#[test]
fn tree_with_capacity_is_empty() {
    let t: TreeBitmap<u64> = TreeBitmap::with_capacity(4096);
    assert_eq!(t.len(), 0);
    assert_eq!(t.mem_usage(), (1, 0));
    assert_eq!(t.live_usage(), (1, 0));
}

#[test]
fn tree_values_of_any_copy_type() {
    let mut t: TreeBitmap<(u8, char)> = TreeBitmap::new();
    assert_eq!(t.insert(&key32(0x0a000000), 8, (1, 'a')), Ok(None));
    assert_eq!(t.insert(&key32(0x0a000000), 8, (2, 'b')), Ok(Some((1, 'a'))));
    assert_eq!(t.longest_match(&key32(0x0a010203)), Some((8, (2, 'b'))));
}

#[test]
fn tree_empty_key_holds_the_prefix_of_no_bits() {
    let mut t: TreeBitmap<u32> = TreeBitmap::new();
    assert_eq!(t.insert(&[], 0, 5), Ok(None));
    assert_eq!(t.insert(&[], 1, 5), Err(TableError::InvalidMask));
    assert_eq!(t.longest_match(&[]), Some((0, 5)));
    assert_eq!(t.longest_match(&key32(7)), Some((0, 5)));
    assert_eq!(t.exact_match(&[], 0), Ok(Some(5)));
    assert_eq!(t.remove(&[], 0), Ok(Some(5)));
    assert_eq!(t.len(), 0);
}

#[test]
fn tree_mask_is_checked_against_the_key() {
    let mut t: TreeBitmap<u32> = TreeBitmap::new();
    let short = [1u8, 2, 3];
    assert_eq!(t.insert(&short, 12, 1), Ok(None));
    assert_eq!(t.insert(&short, 13, 1), Err(TableError::InvalidMask));
    assert_eq!(t.exact_match(&short, 13), Err(TableError::InvalidMask));
    assert_eq!(t.remove(&short, 13), Err(TableError::InvalidMask));
    assert_eq!(t.len(), 1);
}

#[test]
fn tree_a_new_prefix_hangs_on_one_node_with_a_skipped_run() {
    let mut t: TreeBitmap<u32> = TreeBitmap::new();
    // a host route: one node below the root, whatever the depth
    t.insert(&key128(0x20010db8_00000000_00000000_00000001), 128, 1).unwrap();
    assert_eq!(t.mem_usage(), (2, 1));
    assert_eq!(t.live_usage(), (2, 1));
    assert_eq!(
        t.longest_match(&key128(0x20010db8_00000000_00000000_00000001)),
        Some((128, 1))
    );
    assert_eq!(t.longest_match(&key128(0x20010db8_00000000_00000000_00000002)), None);
}

#[test]
fn tree_a_run_is_split_where_a_key_leaves_it() {
    let mut t: TreeBitmap<u32> = TreeBitmap::new();
    t.insert(&key32(0x12345678), 32, 1).unwrap();
    assert_eq!(t.live_usage(), (2, 1));
    // leaves the run of the first node at its fourth nibble
    t.insert(&key32(0x12395678), 32, 2).unwrap();
    // the branching node, and the slot of its two children
    assert_eq!(t.live_usage(), (3, 2));
    assert_eq!(t.longest_match(&key32(0x12345678)), Some((32, 1)));
    assert_eq!(t.longest_match(&key32(0x12395678)), Some((32, 2)));
    assert_eq!(t.longest_match(&key32(0x12305678)), None);
    assert_eq!(t.longest_match(&key32(0x12345679)), None);
}

#[test]
fn tree_a_run_is_split_where_a_shorter_prefix_ends_in_it() {
    let mut t: TreeBitmap<u32> = TreeBitmap::new();
    t.insert(&key32(0x12345678), 32, 1).unwrap();
    t.insert(&key32(0x12340000), 16, 2).unwrap();
    assert_eq!(t.live_usage(), (3, 2));
    assert_eq!(t.longest_match(&key32(0x12345678)), Some((32, 1)));
    assert_eq!(t.longest_match(&key32(0x12345679)), Some((16, 2)));
    assert_eq!(t.longest_match(&key32(0x1234ffff)), Some((16, 2)));
    assert_eq!(t.longest_match(&key32(0x1235ffff)), None);
    // a prefix that ends in the stride of the branching node is stored in it
    t.insert(&key32(0x12340000), 13, 3).unwrap();
    assert_eq!(t.live_usage(), (3, 2));
    assert_eq!(t.longest_match(&key32(0x1237ffff)), Some((13, 3)));
}

#[test]
fn tree_a_split_run_is_joined_again() {
    let mut t: TreeBitmap<u32> = TreeBitmap::new();
    t.insert(&key32(0x12345678), 32, 1).unwrap();
    let single = t.live_usage();
    assert_eq!(single, (2, 1));
    t.insert(&key32(0x12395678), 32, 2).unwrap();
    assert_eq!(t.live_usage(), (3, 2));
    // the branching node is left with one child and no result: it goes
    assert_eq!(t.remove(&key32(0x12395678), 32), Ok(Some(2)));
    assert_eq!(t.live_usage(), single);
    assert_eq!(t.longest_match(&key32(0x12345678)), Some((32, 1)));
    assert_eq!(t.longest_match(&key32(0x12395678)), None);
    assert_eq!(t.exact_match(&key32(0x12345678), 32), Ok(Some(1)));
    // and the joined run can be split again, elsewhere
    t.insert(&key32(0x12345608), 32, 3).unwrap();
    assert_eq!(t.live_usage(), (3, 2));
    assert_eq!(t.longest_match(&key32(0x12345678)), Some((32, 1)));
    assert_eq!(t.longest_match(&key32(0x12345608)), Some((32, 3)));
    // two prefixes that end in one stride need no split
    t.insert(&key32(0x12345679), 32, 4).unwrap();
    assert_eq!(t.live_usage(), (3, 2));
    assert_eq!(t.longest_match(&key32(0x12345679)), Some((32, 4)));
}

#[test]
fn tree_a_node_that_loses_its_result_is_joined_with_its_one_child() {
    let mut t: TreeBitmap<u32> = TreeBitmap::new();
    t.insert(&key32(0x12345678), 32, 1).unwrap();
    t.insert(&key32(0x12340000), 16, 2).unwrap();
    assert_eq!(t.live_usage(), (3, 2));
    assert_eq!(t.remove(&key32(0x12340000), 16), Ok(Some(2)));
    assert_eq!(t.live_usage(), (2, 1));
    assert_eq!(t.longest_match(&key32(0x12345678)), Some((32, 1)));
    assert_eq!(t.longest_match(&key32(0x12345679)), None);
    assert_eq!(t.remove(&key32(0x12345678), 32), Ok(Some(1)));
    assert_eq!(t.live_usage(), (1, 0));
}

#[test]
fn tree_a_node_with_two_children_stays() {
    let mut t: TreeBitmap<u32> = TreeBitmap::new();
    t.insert(&key32(0x12345678), 32, 1).unwrap();
    t.insert(&key32(0x12395678), 32, 2).unwrap();
    t.insert(&key32(0x12340000), 16, 3).unwrap();
    // the branching node holds the third prefix
    assert_eq!(t.live_usage(), (3, 3));
    assert_eq!(t.remove(&key32(0x12340000), 16), Ok(Some(3)));
    assert_eq!(t.live_usage(), (3, 2));
    // a prefix that ends one stride higher gets a node of its own
    t.insert(&key32(0x12300000), 12, 5).unwrap();
    assert_eq!(t.live_usage(), (4, 3));
    assert_eq!(t.longest_match(&key32(0x123fffff)), Some((12, 5)));
    assert_eq!(t.remove(&key32(0x12300000), 12), Ok(Some(5)));
    assert_eq!(t.live_usage(), (3, 2));
    assert_eq!(t.longest_match(&key32(0x12345678)), Some((32, 1)));
    assert_eq!(t.longest_match(&key32(0x12395678)), Some((32, 2)));
}

#[test]
fn tree_prefixes_of_one_stride_share_a_node() {
    let mut t: TreeBitmap<u32> = TreeBitmap::new();
    // lengths 5 to 8 end in the second stride
    t.insert(&key32(0xa0000000), 5, 5).unwrap();
    t.insert(&key32(0xa8000000), 5, 55).unwrap();
    t.insert(&key32(0xa0000000), 6, 6).unwrap();
    t.insert(&key32(0xa0000000), 7, 7).unwrap();
    t.insert(&key32(0xa0000000), 8, 8).unwrap();
    t.insert(&key32(0xa1000000), 8, 81).unwrap();
    assert_eq!(t.len(), 6);
    assert_eq!(t.live_usage(), (2, 1));
    assert_eq!(t.longest_match(&key32(0xa0ffffff)), Some((8, 8)));
    assert_eq!(t.longest_match(&key32(0xa1ffffff)), Some((8, 81)));
    assert_eq!(t.longest_match(&key32(0xa2ffffff)), Some((6, 6)));
    assert_eq!(t.longest_match(&key32(0xa4ffffff)), Some((5, 5)));
    assert_eq!(t.longest_match(&key32(0xafffffff)), Some((5, 55)));
    assert_eq!(t.longest_match(&key32(0xb0ffffff)), None);
    assert_eq!(t.remove(&key32(0xa0000000), 6), Ok(Some(6)));
    assert_eq!(t.longest_match(&key32(0xa2ffffff)), Some((5, 5)));
    assert_eq!(t.longest_match(&key32(0xa0ffffff)), Some((8, 8)));
}

#[test]
fn tree_sixteen_children_of_one_node() {
    let mut t: TreeBitmap<u32> = TreeBitmap::new();
    // stored in an order that is not the order of the nibbles
    let order = [7u32, 0, 15, 3, 12, 1, 9, 4, 14, 2, 11, 5, 8, 6, 13, 10];
    for n in order {
        assert_eq!(t.insert(&key32(n << 28 | 0x0123456), 32, n), Ok(None));
    }
    assert_eq!(t.len(), 16);
    // one slot for the root, one for its sixteen children
    assert_eq!(t.live_usage().0, 2);
    for n in 0..16u32 {
        assert_eq!(t.longest_match(&key32(n << 28 | 0x0123456)), Some((32, n)));
        assert_eq!(t.longest_match(&key32(n << 28 | 0x0123457)), None);
    }
    for n in order {
        assert_eq!(t.remove(&key32(n << 28 | 0x0123456), 32), Ok(Some(n)));
        assert_eq!(t.longest_match(&key32(n << 28 | 0x0123456)), None);
    }
    assert_eq!(t.live_usage(), (1, 0));
}

#[test]
fn tree_removal_cuts_off_empty_nodes_up_to_the_root() {
    let mut t: TreeBitmap<u32> = TreeBitmap::new();
    t.insert(&key32(0x12345678), 32, 1).unwrap();
    t.insert(&key32(0x12345679), 32, 2).unwrap();
    t.insert(&key32(0x12345000), 20, 3).unwrap();
    t.insert(&key32(0x12000000), 8, 4).unwrap();
    let grown = t.mem_usage();
    assert_eq!(t.remove(&key32(0x12345678), 32), Ok(Some(1)));
    assert_eq!(t.longest_match(&key32(0x12345678)), Some((20, 3)));
    assert_eq!(t.remove(&key32(0x12345000), 20), Ok(Some(3)));
    assert_eq!(t.longest_match(&key32(0x12345678)), Some((8, 4)));
    assert_eq!(t.longest_match(&key32(0x12345679)), Some((32, 2)));
    assert_eq!(t.remove(&key32(0x12000000), 8), Ok(Some(4)));
    assert_eq!(t.longest_match(&key32(0x12345678)), None);
    assert_eq!(t.remove(&key32(0x12345679), 32), Ok(Some(2)));
    assert_eq!(t.len(), 0);
    assert_eq!(t.live_usage(), (1, 0));
    assert_eq!(t.mem_usage(), grown);
}

#[test]
fn tree_insert_n_remove_n_leaves_what_a_new_table_holds() {
    let fresh: TreeBitmap<u32> = TreeBitmap::new();
    let mut t: TreeBitmap<u32> = TreeBitmap::new();
    let mut rng = Lcg(7);
    let mut stored: Vec<(Vec<u8>, u32)> = Vec::new();
    for i in 0..500u32 {
        let key = key32(rng.next() as u32);
        let len = (rng.next() % 33) as u32;
        if t.insert(&key, len, i).unwrap().is_none() {
            stored.push((key, len));
        }
    }
    assert_eq!(t.len(), stored.len());
    assert!(t.live_usage().0 > 1);
    for (key, len) in stored.iter() {
        assert!(t.remove(key, *len).unwrap().is_some());
    }
    assert_eq!(t.len(), 0);
    assert_eq!(t.live_usage(), fresh.live_usage());
    assert_eq!(t.live_usage(), (1, 0));
}

#[test]
fn tree_agrees_with_a_plain_table_on_ipv4() {
    let mut t: TreeBitmap<u32> = TreeBitmap::new();
    let mut plain = Plain { entries: Vec::new() };
    let mut rng = Lcg(42);
    for step in 0..4000u32 {
        // few distinct high bits, so that prefixes overlap
        let x = ((rng.next() % 4) as u32) << 30 | ((rng.next() as u32) & 0x00ff_f0ff);
        let key = key32(x);
        let len = (rng.next() % 33) as u32;
        match rng.next() % 4 {
            0 | 1 => assert_eq!(t.insert(&key, len, step), Ok(plain.insert(&key, len, step))),
            2 => assert_eq!(t.remove(&key, len), Ok(plain.remove(&key, len))),
            _ => assert_eq!(t.exact_match(&key, len), Ok(plain.exact(&key, len))),
        }
        assert_eq!(t.len(), plain.entries.len());
        let probe = key32(((rng.next() % 4) as u32) << 30 | ((rng.next() as u32) & 0x00ff_f0ff));
        assert_eq!(t.longest_match(&probe), plain.longest(&probe));
        // no more slots are live than the stored prefixes need
        let (nodes, results) = t.live_usage();
        assert!(results <= t.len());
        assert!(nodes <= t.len() + 1);
    }
    let all: Vec<((u128, u32), u32)> = plain.entries.clone();
    for ((bits, len), value) in all {
        let x = if len == 0 { 0 } else { (bits as u32) << (32 - len) };
        assert_eq!(t.remove(&key32(x), len), Ok(Some(value)));
    }
    assert_eq!(t.len(), 0);
    assert_eq!(t.live_usage(), (1, 0));
}

#[test]
fn tree_agrees_with_a_plain_table_on_ipv6() {
    let mut t: TreeBitmap<u32> = TreeBitmap::new();
    let mut plain = Plain { entries: Vec::new() };
    let mut rng = Lcg(4242);
    let pool: Vec<u128> = (0..24)
        .map(|_| {
            let hi = (rng.next() as u128) << 64 | rng.next() as u128;
            let lo = (rng.next() as u128) << 64 | rng.next() as u128;
            // long runs of equal bits between the random ones
            (hi ^ (lo << 3)) & 0xffff0000_00ff0000_0000000f_00000fff
        })
        .collect();
    for step in 0..3000u32 {
        let key = key128(pool[(rng.next() % 24) as usize]);
        let len = (rng.next() % 129) as u32;
        match rng.next() % 3 {
            0 => assert_eq!(t.insert(&key, len, step), Ok(plain.insert(&key, len, step))),
            1 => assert_eq!(t.remove(&key, len), Ok(plain.remove(&key, len))),
            _ => assert_eq!(t.exact_match(&key, len), Ok(plain.exact(&key, len))),
        }
        assert_eq!(t.len(), plain.entries.len());
        let probe = key128(pool[(rng.next() % 24) as usize]);
        assert_eq!(t.longest_match(&probe), plain.longest(&probe));
        let (nodes, results) = t.live_usage();
        assert!(results <= t.len());
        assert!(nodes <= t.len() + 1);
        let (all_nodes, all_results) = t.mem_usage();
        assert!(nodes <= all_nodes && results <= all_results);
    }
}

#[test]
fn tree_keys_of_both_widths() {
    let mut t: TreeBitmap<u32> = TreeBitmap::new();
    t.insert(&key32(0xc0a80000), 16, 4).unwrap();
    t.insert(&key128(0xfe800000_00000000_00000000_00000000), 10, 6).unwrap();
    assert_eq!(t.longest_match(&key32(0xc0a80101)), Some((16, 4)));
    assert_eq!(t.longest_match(&key128(0xfe800000_00000000_00000000_00000001)), Some((10, 6)));
    assert_eq!(t.longest_match(&key128(0xc0a80000_00000000_00000000_00000001)), Some((16, 4)));
    assert_eq!(t.longest_match(&key32(0x0a000001)), None);
}
