use buddy_allocator::bit_set::BitSet;
use buddy_allocator::list::SkipList;
use buddy_allocator::lvl::LevelVec;
use buddy_allocator::node::{block_struct_size, Block};

#[test]
fn bit_set_starts_clear() {
    let mut b = BitSet::new();
    assert_eq!(b.size(), 0);
    assert!(b.is_set(0));
    b.init(0x2000, 20, 1);
    assert_eq!(b.size(), 3);
    for i in 0..20 {
        assert!(!b.is_set(i));
    }
    assert!(b.is_set(20));
    b.set_bit(19);
    b.set_bit(0);
    assert!(b.is_set(19) && b.is_set(0) && !b.is_set(1));
    b.set_bit(19);
    assert!(b.is_set(19));
    b.clear_bit(19);
    assert!(!b.is_set(19));
    b.clear_bit(5);
    assert!(!b.is_set(5));
}

#[test]
fn bit_set_size_is_padded_to_alignment() {
    let mut b = BitSet::new();
    b.init(0, 20, 8);
    assert_eq!(b.size(), 8);
    b.init(0, 64, 8);
    assert_eq!(b.size(), 8);
    b.init(0, 65, 8);
    assert_eq!(b.size(), 16);
    b.init(0, 0, 16);
    assert_eq!(b.size(), 0);
    b.init(0, 9, 4096);
    assert_eq!(b.size(), 4096);
}

#[test]
fn block_level_is_word_index_in_page() {
    let word = std::mem::size_of::<usize>();
    assert_eq!(block_struct_size(), word);
    assert_eq!(Block::level(0x1000, 4096), 0);
    assert_eq!(Block::level(0x1000 + 3 * word, 4096), 3);
    assert_eq!(Block::level(0x7000 + 4095, 4096), 4095 / word);
    let b = Block { next: 0 };
    assert_eq!(b.next, 0);
}

#[test]
fn level_heads_are_consecutive_words() {
    let word = std::mem::size_of::<usize>();
    let v = LevelVec::new(0x8000, 3);
    let mut it = v.into_iter();
    assert_eq!(it.next(), Some(0x8000));
    assert_eq!(it.next(), Some(0x8000 + word));
    assert_eq!(it.next(), Some(0x8000 + 2 * word));
    assert_eq!(it.next(), None);
    assert_eq!(it.next(), None);
}

#[test]
fn dangling_level_heads_have_no_level() {
    let v = LevelVec::dangling();
    let mut it = v.into_iter();
    assert_eq!(it.next(), None);
    LevelVec::from_addr(0x1000, 1);
}

#[test]
fn skip_list_block_index_divides_by_block_size() {
    let mut l = SkipList::new();
    l.init(0x1000, 4096, 4);
    assert_eq!(l.block_index(0x5123), 5);
    assert_eq!(l.block_index(0xfff), 0);
    assert_eq!(l.block_index(0x1000), 1);
    l.init(0x1000, 1, 1);
    assert_eq!(l.block_index(77), 77);
    l.insert(0x3000, 3);
    l.push(0x3000);
    assert_eq!(l.block_index(12), 12);
}

#[test]
fn skip_list_block_index_of_other_sizes() {
    // a block size of 12 (two trailing zeros) clears the low three bits and
    // shifts by two
    let mut l = SkipList::new();
    l.init(0x1000, 12, 2);
    assert_eq!(l.block_index(0b1111_1111), (0b1111_1111 & !11usize) >> 2);
}
