use register_rs::bits::{BitRange, Endian};
use register_rs::constructor::{constructor_plan, ConstructorName};
use register_rs::layout::{decode_fields, encode_fields, field_locations, read_field, write_field};

#[test]
fn locations_of_fields() {
    let fields = vec![BitRange::Bits((6, 7)), BitRange::Bit(12), BitRange::Bits((0, 3))];
    assert_eq!(
        field_locations(Endian::Little, 2, &fields),
        vec![(0, BitRange::Bits((6, 7))), (1, BitRange::Bit(4)), (0, BitRange::Bits((0, 3)))]
    );
    assert_eq!(
        field_locations(Endian::Big, 2, &fields),
        vec![(1, BitRange::Bits((6, 7))), (1, BitRange::Bit(4)), (1, BitRange::Bits((0, 3)))]
    );
}

#[test]
fn encode_then_decode() {
    let fields = vec![BitRange::Bits((6, 7)), BitRange::Bits((4, 5)), BitRange::Bits((0, 3))];
    let values = vec![2u8, 1, 9];
    let words = encode_fields(Endian::Little, 1, &fields, &values);
    assert_eq!(words, vec![0b1001_1001]);
    assert_eq!(decode_fields(&words, Endian::Little, 1, &fields), values);
}

#[test]
fn encode_two_words() {
    let fields = vec![BitRange::Bits((0, 7)), BitRange::Bits((8, 11)), BitRange::Bit(15)];
    let values = vec![0xABu8, 0x5, 1];
    let words = encode_fields(Endian::Little, 2, &fields, &values);
    assert_eq!(words, vec![0xAB, 0x85]);
    assert_eq!(decode_fields(&words, Endian::Little, 2, &fields), values);
}

#[test]
fn write_then_read_one_field() {
    let mut words = vec![0xFFu8, 0x00];
    write_field(&mut words, Endian::Little, 2, BitRange::Bits((9, 10)), 3);
    assert_eq!(words, vec![0xFF, 0b0000_0110]);
    assert_eq!(read_field(&words, Endian::Little, 2, BitRange::Bits((9, 10))), 3);
    assert_eq!(read_field(&words, Endian::Little, 2, BitRange::Bits((0, 7))), 0xFF);
}

#[test]
fn constructor_takes_public_fields() {
    let plan = constructor_plan(&vec![true, false, true], false);
    assert_eq!(plan.name, ConstructorName::New);
    assert_eq!(plan.params, vec![0, 2]);
    assert!(plan.fill_default);
}

#[test]
fn constructor_expanded_takes_all_fields() {
    let plan = constructor_plan(&vec![true, false, true], true);
    assert_eq!(plan.name, ConstructorName::NewExpanded);
    assert_eq!(plan.params, vec![0, 1, 2]);
    assert!(!plan.fill_default);
}

#[test]
fn constructor_all_public() {
    let plan = constructor_plan(&vec![true, true], false);
    assert_eq!(plan.params, vec![0, 1]);
    assert!(!plan.fill_default);
    let plan = constructor_plan(&Vec::new(), false);
    assert_eq!(plan.params, Vec::<usize>::new());
    assert!(!plan.fill_default);
}
