use treebitmap::prefix::{locate, MAX_NIBBLES};

#[test]
fn longest_key_is_thirty_two_nibbles() {
    assert_eq!(MAX_NIBBLES, 32);
}

#[test]
fn locate_gives_stride_and_position() {
    // one bit: the first stride, positions 1 and 2
    assert_eq!(locate(1, 0x0), (0, 1));
    assert_eq!(locate(1, 0x7), (0, 1));
    assert_eq!(locate(1, 0x8), (0, 2));
    assert_eq!(locate(1, 0xf), (0, 2));
    // two bits: positions 3 to 6
    assert_eq!(locate(2, 0x0), (0, 3));
    assert_eq!(locate(2, 0x4), (0, 4));
    assert_eq!(locate(2, 0xb), (0, 5));
    assert_eq!(locate(2, 0xf), (0, 6));
    // three bits: positions 7 to 14
    assert_eq!(locate(3, 0x0), (0, 7));
    assert_eq!(locate(3, 0x5), (0, 9));
    assert_eq!(locate(3, 0xf), (0, 14));
    // four bits: positions 15 to 30
    assert_eq!(locate(4, 0x0), (0, 15));
    assert_eq!(locate(4, 0xa), (0, 25));
    assert_eq!(locate(4, 0xf), (0, 30));
}

#[test]
fn locate_counts_whole_nibbles_before_the_stride() {
    assert_eq!(locate(5, 0x8), (1, 2));
    assert_eq!(locate(8, 0x3), (1, 18));
    assert_eq!(locate(9, 0x0), (2, 1));
    assert_eq!(locate(24, 0x2), (5, 17));
    assert_eq!(locate(32, 0xf), (7, 30));
    assert_eq!(locate(33, 0xf), (8, 2));
    assert_eq!(locate(127, 0x1), (31, 7));
    assert_eq!(locate(128, 0x1), (31, 16));
}

#[test]
fn locate_positions_are_distinct_within_a_stride() {
    let mut seen = [false; 31];
    for len in 1..=4u32 {
        for tail in 0..(1u8 << len) {
            let nibble = tail << (4 - len);
            let (stride, at) = locate(len, nibble);
            assert_eq!(stride, 0);
            assert!(at >= 1 && at < 31);
            assert!(!seen[at as usize]);
            seen[at as usize] = true;
        }
    }
    assert_eq!(seen.iter().filter(|s| **s).count(), 30);
}
