use boardgames::bitboard::Bitboard;

#[test]
fn from_hex_reads_bits() {
    let b: Bitboard<u128> = Bitboard::from_hex("18001800000000");
    assert_eq!(b.values(), vec![35, 36, 51, 52]);
    let v: Bitboard<u64> = Bitboard::from_hex("400000");
    assert_eq!(v.values(), vec![22]);
    assert_eq!(Bitboard::<u64>::from_hex("+ff").count_ones(), 8);
}

#[test]
fn add_remove_contains() {
    let mut b = Bitboard::<u64>::zeros();
    assert!(b.is_zeros());
    b.add(3);
    b.add(63);
    assert!(b.contains(3) && b.contains(63) && !b.contains(4));
    assert_eq!(b.count_ones(), 2);
    b.remove(3);
    assert_eq!(b.values(), vec![63]);
    assert_eq!(Bitboard::<u64>::single(5).value, 32);
}

#[test]
fn next_pops_the_lowest() {
    let mut b = Bitboard::<u128>::from_hex("8000000000000000000000000000000a");
    assert_eq!(b.next(), Some(1));
    assert_eq!(b.next(), Some(3));
    assert_eq!(b.next(), Some(127));
    assert_eq!(b.next(), None);
}

#[test]
fn set_operations() {
    let a = Bitboard::<u64>::new(0b1100);
    let b = Bitboard::<u64>::new(0b1010);
    assert_eq!(a.and(b).value, 0b1000);
    assert_eq!(a.or(b).value, 0b1110);
    assert_eq!(a.not().value, !0b1100u64);
    assert_eq!(Bitboard::<u64>::ones().count_ones(), 64);
    assert_eq!(Bitboard::<u128>::ones().count_ones(), 128);
    assert!(a.equals(&Bitboard::new(12)));
}

#[test]
fn bitboards_show_their_word_in_hexadecimal() {
    assert_eq!(Bitboard::<u64>::zeros().render(), "Bitboard 0");
    assert_eq!(Bitboard::<u64>::from_hex("1a2b").render(), "Bitboard 1a2b");
    let big: Bitboard<u128> = Bitboard::from_hex("10019801e00400000");
    assert_eq!(big.render(), "Bitboard 10019801e00400000");
    assert_eq!(big.render(), format!("Bitboard {:x}", big.value));
    let mut full = Bitboard::<u128>::zeros();
    full.add(127);
    assert_eq!(full.render(), format!("Bitboard {:x}", 1u128 << 127));
}

#[test]
fn rendered_digits_read_back() {
    for hex in ["0", "1a2b", "ffffffffffffffff", "8000000000000001"] {
        let b: Bitboard<u64> = Bitboard::from_hex(hex);
        let text = b.render();
        assert_eq!(Bitboard::<u64>::from_hex(&text["Bitboard ".len()..]), b);
    }
    for hex in ["10019801e00400000", "ffffffffffffffffffffffffffffffff", "7"] {
        let b: Bitboard<u128> = Bitboard::from_hex(hex);
        let text = b.render();
        assert_eq!(Bitboard::<u128>::from_hex(&text["Bitboard ".len()..]), b);
    }
}
