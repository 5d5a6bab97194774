use register_rs::attributes::{parse_bit_range, parse_register_attributes, AttributeError, BitsError, FieldBits};
use register_rs::bits::{BitRange, Endian};

#[test]
fn single_bit() {
    assert_eq!(parse_bit_range(Some("5"), None), Ok(BitRange::Bit(5)));
    assert_eq!(parse_bit_range(Some("+3"), None), Ok(BitRange::Bit(3)));
    assert_eq!(parse_bit_range(Some("007"), None), Ok(BitRange::Bit(7)));
}

#[test]
fn single_bit_is_not_trimmed() {
    assert_eq!(parse_bit_range(Some(" 5"), None), Err(BitsError::InvalidNumber));
    assert_eq!(parse_bit_range(Some("5 "), None), Err(BitsError::InvalidNumber));
}

#[test]
fn single_bit_bad_numbers() {
    assert_eq!(parse_bit_range(Some(""), None), Err(BitsError::InvalidNumber));
    assert_eq!(parse_bit_range(Some("+"), None), Err(BitsError::InvalidNumber));
    assert_eq!(parse_bit_range(Some("-3"), None), Err(BitsError::InvalidNumber));
    assert_eq!(parse_bit_range(Some("x"), None), Err(BitsError::InvalidNumber));
    assert_eq!(parse_bit_range(Some("1_0"), None), Err(BitsError::InvalidNumber));
    let too_big = format!("{}0", usize::MAX);
    assert_eq!(parse_bit_range(Some(too_big.as_str()), None), Err(BitsError::InvalidNumber));
    let max = format!("{}", usize::MAX);
    assert_eq!(parse_bit_range(Some(max.as_str()), None), Ok(BitRange::Bit(usize::MAX)));
}

#[test]
fn bit_ranges() {
    assert_eq!(parse_bit_range(None, Some("0..4")), Ok(BitRange::Bits((0, 4))));
    assert_eq!(parse_bit_range(None, Some("6..7")), Ok(BitRange::Bits((6, 7))));
    assert_eq!(parse_bit_range(None, Some(" 6 .. 7\t")), Ok(BitRange::Bits((6, 7))));
    assert_eq!(parse_bit_range(None, Some("7..6")), Ok(BitRange::Bits((7, 6))));
    assert_eq!(parse_bit_range(None, Some("\u{3000}1..\u{a0}2")), Ok(BitRange::Bits((1, 2))));
}

#[test]
fn bit_range_format_errors() {
    assert_eq!(parse_bit_range(None, Some("04")), Err(BitsError::InvalidRange));
    assert_eq!(parse_bit_range(None, Some("0..4..5")), Err(BitsError::InvalidRange));
    assert_eq!(parse_bit_range(None, Some("0.4")), Err(BitsError::InvalidRange));
    assert_eq!(parse_bit_range(None, Some("0....4")), Err(BitsError::InvalidRange));
}

#[test]
fn bit_range_number_errors() {
    assert_eq!(parse_bit_range(None, Some("0...4")), Err(BitsError::InvalidNumber));
    assert_eq!(parse_bit_range(None, Some("..4")), Err(BitsError::InvalidNumber));
    assert_eq!(parse_bit_range(None, Some("0..")), Err(BitsError::InvalidNumber));
    assert_eq!(parse_bit_range(None, Some("a..4")), Err(BitsError::InvalidNumber));
}

#[test]
fn bit_and_bits_exclusive() {
    assert_eq!(parse_bit_range(None, None), Err(BitsError::MissingBits));
    assert_eq!(parse_bit_range(Some("1"), Some("0..4")), Err(BitsError::MissingBits));
}

fn field(bit: Option<&str>, bits: Option<&str>) -> FieldBits {
    FieldBits { bit: bit.map(|s| s.to_string()), bits: bits.map(|s| s.to_string()) }
}

#[test]
fn register_attributes() {
    let fields = vec![field(None, Some("0..4")), field(Some("5"), None), field(None, Some("6..7"))];
    let r = parse_register_attributes("big", &fields);
    assert_eq!(
        r,
        Ok((Endian::Big, vec![BitRange::Bits((0, 4)), BitRange::Bit(5), BitRange::Bits((6, 7))]))
    );
    assert_eq!(parse_register_attributes("little", &Vec::new()), Ok((Endian::Little, Vec::new())));
}

#[test]
fn register_attributes_errors() {
    let fields = vec![field(None, Some("0..4")), field(Some("x"), None), field(None, None)];
    assert_eq!(parse_register_attributes("little", &fields), Err(AttributeError::Field(1, BitsError::InvalidNumber)));
    assert_eq!(parse_register_attributes("LITTLE", &fields), Err(AttributeError::InvalidEndian));
    let fields = vec![field(None, Some("0..4")), field(None, None)];
    assert_eq!(parse_register_attributes("big", &fields), Err(AttributeError::Field(1, BitsError::MissingBits)));
}

#[test]
fn error_messages() {
    assert_eq!(AttributeError::InvalidEndian.message(), "Must specify `endian = \"big\" | \"little\"`");
    assert_eq!(BitsError::InvalidNumber.message(), "Unable to parse number");
    assert_eq!(BitsError::InvalidRange.message(), "Range must be in format `start..end`");
    assert_eq!(
        AttributeError::Field(0, BitsError::MissingBits).message(),
        "Must have one of `register(bit = \"...\")` or `register(bits = \"...\")` set"
    );
}
