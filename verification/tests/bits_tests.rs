use register_rs::bits::{read_bits, relocate_bits, write_bits, BitRange, Endian};

#[test]
fn bit_range_ends() {
    assert_eq!(BitRange::Bit(5).start(), 5);
    assert_eq!(BitRange::Bit(5).end(), 5);
    assert_eq!(BitRange::Bits((6, 7)).start(), 6);
    assert_eq!(BitRange::Bits((6, 7)).end(), 7);
}

#[test]
fn bit_range_norm() {
    assert_eq!(BitRange::Bit(13).norm(8), BitRange::Bit(5));
    assert_eq!(BitRange::Bits((9, 12)).norm(8), BitRange::Bits((1, 4)));
    assert_eq!(BitRange::Bits((3, 4)).norm(8), BitRange::Bits((3, 4)));
}

#[test]
fn endian_parse() {
    assert_eq!(Endian::parse("big"), Some(Endian::Big));
    assert_eq!(Endian::parse("little"), Some(Endian::Little));
    assert_eq!(Endian::parse("Big"), None);
    assert_eq!(Endian::parse(" big"), None);
    assert_eq!(Endian::parse(""), None);
    assert_eq!(Endian::parse("middle"), None);
}

#[test]
fn relocate_little_endian() {
    assert_eq!(relocate_bits(Endian::Little, BitRange::Bits((9, 12)), 8, 2), (1, BitRange::Bits((1, 4))));
    assert_eq!(relocate_bits(Endian::Little, BitRange::Bit(5), 8, 1), (0, BitRange::Bit(5)));
    assert_eq!(relocate_bits(Endian::Little, BitRange::Bit(23), 8, 3), (2, BitRange::Bit(7)));
}

#[test]
fn relocate_big_endian_uses_last_word() {
    assert_eq!(relocate_bits(Endian::Big, BitRange::Bits((0, 4)), 8, 1), (0, BitRange::Bits((0, 4))));
    assert_eq!(relocate_bits(Endian::Big, BitRange::Bits((9, 12)), 8, 2), (1, BitRange::Bits((1, 4))));
    assert_eq!(relocate_bits(Endian::Big, BitRange::Bit(2), 8, 4), (3, BitRange::Bit(2)));
}

#[test]
fn read_bits_of_word() {
    assert_eq!(read_bits(0b1100_0000, BitRange::Bits((6, 7))), 3);
    assert_eq!(read_bits(0b1011_0111, BitRange::Bits((0, 3))), 7);
    assert_eq!(read_bits(0b0010_0000, BitRange::Bit(5)), 1);
    assert_eq!(read_bits(0b1101_1111, BitRange::Bit(5)), 0);
    assert_eq!(read_bits(0xA5, BitRange::Bits((0, 7))), 0xA5);
}

#[test]
fn write_bits_of_word() {
    assert_eq!(write_bits(0, BitRange::Bits((6, 7)), 2), 0b1000_0000);
    assert_eq!(write_bits(0xFF, BitRange::Bits((4, 5)), 0), 0b1100_1111);
    assert_eq!(write_bits(0b0000_0111, BitRange::Bit(5), 1), 0b0010_0111);
    assert_eq!(write_bits(0x12, BitRange::Bits((0, 7)), 0xA5), 0xA5);
}

#[test]
fn read_after_write_gives_value() {
    for word in 0..=255u8 {
        for value in 0..4u8 {
            let w = write_bits(word, BitRange::Bits((3, 4)), value);
            assert_eq!(read_bits(w, BitRange::Bits((3, 4))), value);
            assert_eq!(read_bits(w, BitRange::Bits((0, 2))), read_bits(word, BitRange::Bits((0, 2))));
            assert_eq!(read_bits(w, BitRange::Bits((5, 7))), read_bits(word, BitRange::Bits((5, 7))));
        }
        let back = write_bits(word, BitRange::Bits((2, 6)), read_bits(word, BitRange::Bits((2, 6))));
        assert_eq!(back, word);
    }
}
