use chess_engine::bitboard::Bitboard;
use std::collections::HashMap;

#[test]
fn set_clear_is_set_roundtrip() {
    let mut b = Bitboard::new(0);
    assert!(!b.is_set(3, 4));
    b.set(3, 4);
    assert!(b.is_set(3, 4));
    assert_eq!(b.val, 1u64 << 28);
    b.set(0, 0);
    assert!(b.is_set(0, 0));
    b.clear(3, 4);
    assert!(!b.is_set(3, 4));
    assert!(b.is_set(0, 0));
    assert_eq!(b.val, 1);
}

#[test]
fn count_ones_concrete() {
    assert_eq!(Bitboard::new(0).count_ones(), 0);
    assert_eq!(Bitboard::new(0b1011).count_ones(), 3);
    assert_eq!(Bitboard::new(u64::MAX).count_ones(), 64);
    assert_eq!(Bitboard::new(0x8000_0000_0000_0001).count_ones(), 2);
}

#[test]
fn trailing_zeros_concrete() {
    assert_eq!(Bitboard::new(0).trailing_zeros(), 64);
    assert_eq!(Bitboard::new(1).trailing_zeros(), 0);
    assert_eq!(Bitboard::new(0b1010_0000).trailing_zeros(), 5);
    assert_eq!(Bitboard::new(1u64 << 63).trailing_zeros(), 63);
}

#[test]
fn get_ones_ascending() {
    let b = Bitboard::new((1u64 << 2) | (1u64 << 17) | (1u64 << 63));
    let ones = b.get_ones();
    assert_eq!(ones, vec![2, 17, 63]);
    assert_eq!(Bitboard::new(0).get_ones(), Vec::<usize>::new());
}

#[test]
fn subsets_of_three_bits() {
    // a board with three squares yields exactly eight distinct subsets,
    // including the empty board and the board itself
    let b = Bitboard::new((1u64 << 1) | (1u64 << 9) | (1u64 << 40));
    let subs = b.generate_subsets();
    assert_eq!(subs.len(), 8);
    // binary-counter order: the empty board first, the lowest square next,
    // the full board last
    assert_eq!(subs[0].val, 0);
    assert_eq!(subs[1].val, 1u64 << 1);
    assert_eq!(subs[2].val, 1u64 << 9);
    assert_eq!(subs[3].val, (1u64 << 1) | (1u64 << 9));
    assert_eq!(subs[7].val, b.val);
    let mut vals: Vec<u64> = subs.iter().map(|s| s.val).collect();
    vals.sort();
    vals.dedup();
    assert_eq!(vals.len(), 8);
    assert!(vals.contains(&0));
    assert!(vals.contains(&b.val));
    for v in vals.iter() {
        assert_eq!(v & !b.val, 0);
    }
}

#[test]
fn subsets_of_empty_board() {
    let subs = Bitboard::new(0).generate_subsets();
    assert_eq!(subs.len(), 1);
    assert_eq!(subs[0].val, 0);
}

#[test]
fn bitwise_operations() {
    let a = Bitboard::new(0b1100);
    let b = Bitboard::new(0b1010);
    assert_eq!(a.bit_and(b).val, 0b1000);
    assert_eq!(a.bit_or(b).val, 0b1110);
    assert_eq!(a.bit_not().val, !0b1100u64);
    assert_eq!(a.shl(2).val, 0b110000);
    assert_eq!(a.shr(2).val, 0b11);
}

#[test]
fn minus_is_set_difference_for_subsets() {
    let taken = Bitboard::new(0b1111_0110);
    let white = Bitboard::new(0b0101_0010);
    let black = taken.minus(white);
    assert_eq!(black.val, 0b1010_0100);
    assert_eq!(black.val, taken.val & !white.val);
}

#[test]
fn bitboards_order_and_hash_by_value() {
    assert!(Bitboard::new(1) < Bitboard::new(2));
    assert!(Bitboard::new(0x10) > Bitboard::new(0x0F));
    let mut m: HashMap<Bitboard, u32> = HashMap::new();
    m.insert(Bitboard::new(7), 1);
    m.insert(Bitboard::new(7), 2);
    assert_eq!(m.len(), 1);
    assert_eq!(m[&Bitboard::new(7)], 2);
}
