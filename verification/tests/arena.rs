use treebitmap::arena::Arena;
use treebitmap::bitmap::{clear_bit, rank_of, set_bit, test_bit};

#[test]
fn arena_starts_with_the_reserved_slot_only() {
    let a: Arena<u32> = Arena::new();
    assert_eq!(a.mem_usage(), 0);
    assert_eq!(a.live(), 0);
    let b: Arena<u32> = Arena::with_capacity(64);
    assert_eq!(b.mem_usage(), 0);
    assert_eq!(b.live(), 0);
}

#[test]
fn arena_allocates_from_one() {
    let mut a: Arena<u32> = Arena::new();
    assert_eq!(a.allocate(), 1);
    assert_eq!(a.allocate(), 2);
    assert_eq!(a.allocate(), 3);
    assert_eq!(a.mem_usage(), 3);
    assert_eq!(a.live(), 3);
    assert!(a.get(2).is_empty());
}

#[test]
fn arena_reuses_the_most_recently_freed_slot() {
    let mut a: Arena<u32> = Arena::new();
    for _ in 0..4 {
        a.allocate();
    }
    a.free(2);
    a.free(4);
    a.free(1);
    assert_eq!(a.mem_usage(), 4);
    assert_eq!(a.live(), 1);
    assert_eq!(a.allocate(), 1);
    assert_eq!(a.allocate(), 4);
    assert_eq!(a.allocate(), 2);
    assert_eq!(a.allocate(), 5);
    assert_eq!(a.mem_usage(), 5);
    assert_eq!(a.live(), 5);
}

#[test]
fn arena_slots_hold_arrays() {
    let mut a: Arena<u32> = Arena::new();
    let s = a.allocate();
    let t = a.allocate();
    a.get_mut(s).push(10);
    a.get_mut(s).push(30);
    a.get_mut(s).insert(1, 20);
    a.get_mut(t).push(99);
    assert_eq!(a.get(s), &vec![10, 20, 30]);
    assert_eq!(a.get(t), &vec![99]);
    assert_eq!(a.get_mut(s).remove(0), 10);
    assert_eq!(a.get(s), &vec![20, 30]);
}

#[test]
fn arena_free_empties_the_slot_and_keeps_the_storage() {
    let mut a: Arena<u32> = Arena::new();
    let s = a.allocate();
    a.get_mut(s).push(10);
    a.free(s);
    assert_eq!(a.mem_usage(), 1);
    assert_eq!(a.live(), 0);
    let again = a.allocate();
    assert_eq!(again, s);
    assert!(a.get(again).is_empty());
}

#[test]
fn bitmap_set_test_clear() {
    let mut b: u32 = 0;
    assert!(!test_bit(b, 5));
    b = set_bit(b, 5);
    b = set_bit(b, 0);
    b = set_bit(b, 31);
    assert_eq!(b, 0x8000_0021);
    assert!(test_bit(b, 5) && test_bit(b, 0) && test_bit(b, 31));
    assert!(!test_bit(b, 4));
    b = clear_bit(b, 5);
    assert_eq!(b, 0x8000_0001);
    assert_eq!(clear_bit(b, 7), b);
    assert_eq!(set_bit(b, 0), b);
}

#[test]
fn bitmap_rank_counts_bits_below() {
    let b: u32 = 0b1011_0100;
    assert_eq!(rank_of(b, 0), 0);
    assert_eq!(rank_of(b, 2), 0);
    assert_eq!(rank_of(b, 3), 1);
    assert_eq!(rank_of(b, 5), 2);
    assert_eq!(rank_of(b, 7), 3);
    assert_eq!(rank_of(b, 8), 4);
    assert_eq!(rank_of(b, 32), 4);
    assert_eq!(rank_of(u32::MAX, 32), 32);
    assert_eq!(rank_of(u32::MAX, 17), 17);
    for i in 0..=32u32 {
        let below = if i == 32 { b } else { b & ((1u32 << i) - 1) };
        assert_eq!(rank_of(b, i), below.count_ones() as usize);
    }
}
