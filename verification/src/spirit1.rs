use vstd::prelude::*;

use crate::bits::{get_field, set_field, BitRange, Endian};
use crate::layout::{read_field, write_field};
use crate::register::{Register, ReadableRegister, RegisterError, RegisterResult, WriteableRegister};
use crate::valued::{
    first_standing_for, law_from_value_first_variant, law_try_into_value_of_variant,
    spec_from_value, spec_try_into_value,
};

verus! {

/// Format of packet (*see Section 9.7*).
#[derive(Clone, Copy, Debug, PartialEq, Eq, Structural)]
pub enum PacketFormat {
    Basic,
    WMBus,
    STack,
    /// Any value that names no format; it cannot be written.
    Invalid,
}

impl PacketFormat {
    /// The format that a 2-bit value names.
    pub open spec fn spec_from_word(value: u8) -> PacketFormat {
        if value == 0 {
            PacketFormat::Basic
        } else if value == 1 {
            PacketFormat::WMBus
        } else if value == 2 {
            PacketFormat::STack
        } else {
            PacketFormat::Invalid
        }
    }

    /// The value that stands for the format, if it has one.
    pub open spec fn spec_into_word(self) -> RegisterResult<u8> {
        match self {
            PacketFormat::Basic => Ok(0),
            PacketFormat::WMBus => Ok(1),
            PacketFormat::STack => Ok(2),
            PacketFormat::Invalid => Err(RegisterError::InvalidConfiguration),
        }
    }

    /// The values the variants stand for, in declaration order: 0, 1, 2,
    /// and none for `Invalid`, which is also the default.
    pub open spec fn values_table() -> Seq<Option<u64>> {
        seq![Some(0u64), Some(1u64), Some(2u64), None]
    }

    /// Position of the variant in declaration order.
    pub open spec fn variant_index(self) -> usize {
        match self {
            PacketFormat::Basic => 0,
            PacketFormat::WMBus => 1,
            PacketFormat::STack => 2,
            PacketFormat::Invalid => 3,
        }
    }

    /// Reads a format; a value that names none reads as `Invalid`.
    pub fn from_word(value: u8) -> (r: PacketFormat)
        ensures
            r == Self::spec_from_word(value),
    {
        if value == 0 {
            PacketFormat::Basic
        } else if value == 1 {
            PacketFormat::WMBus
        } else if value == 2 {
            PacketFormat::STack
        } else {
            PacketFormat::Invalid
        }
    }

    /// The value of a format; `Invalid` has none.
    pub fn try_into_word(self) -> (r: RegisterResult<u8>)
        ensures
            r == self.spec_into_word(),
    {
        match self {
            PacketFormat::Basic => Ok(0),
            PacketFormat::WMBus => Ok(1),
            PacketFormat::STack => Ok(2),
            PacketFormat::Invalid => Err(RegisterError::InvalidConfiguration),
        }
    }
}

impl Default for PacketFormat {
    fn default() -> (r: Self)
        ensures
            r == PacketFormat::Invalid,
    {
        PacketFormat::Invalid
    }
}

/// `RX_MODE`: where received data goes.
#[derive(Clone, Copy, Debug, PartialEq, Eq, Structural)]
pub enum RxMode {
    Normal,
    DirectFifo,
    DirectGpio,
    /// Any value that names no mode; it cannot be written.
    Invalid,
}

impl RxMode {
    /// The mode that a 2-bit value names.
    pub open spec fn spec_from_word(value: u8) -> RxMode {
        if value == 0 {
            RxMode::Normal
        } else if value == 1 {
            RxMode::DirectFifo
        } else if value == 2 {
            RxMode::DirectGpio
        } else {
            RxMode::Invalid
        }
    }

    /// The value that stands for the mode, if it has one.
    pub open spec fn spec_into_word(self) -> RegisterResult<u8> {
        match self {
            RxMode::Normal => Ok(0),
            RxMode::DirectFifo => Ok(1),
            RxMode::DirectGpio => Ok(2),
            RxMode::Invalid => Err(RegisterError::InvalidConfiguration),
        }
    }

    /// The values the variants stand for, in declaration order: 0, 1, 2,
    /// and none for `Invalid`, which is also the default.
    pub open spec fn values_table() -> Seq<Option<u64>> {
        seq![Some(0u64), Some(1u64), Some(2u64), None]
    }

    /// Position of the variant in declaration order.
    pub open spec fn variant_index(self) -> usize {
        match self {
            RxMode::Normal => 0,
            RxMode::DirectFifo => 1,
            RxMode::DirectGpio => 2,
            RxMode::Invalid => 3,
        }
    }

    /// Reads a mode; a value that names none reads as `Invalid`.
    pub fn from_word(value: u8) -> (r: RxMode)
        ensures
            r == Self::spec_from_word(value),
    {
        if value == 0 {
            RxMode::Normal
        } else if value == 1 {
            RxMode::DirectFifo
        } else if value == 2 {
            RxMode::DirectGpio
        } else {
            RxMode::Invalid
        }
    }

    /// The value of a mode; `Invalid` has none.
    pub fn try_into_word(self) -> (r: RegisterResult<u8>)
        ensures
            r == self.spec_into_word(),
    {
        match self {
            RxMode::Normal => Ok(0),
            RxMode::DirectFifo => Ok(1),
            RxMode::DirectGpio => Ok(2),
            RxMode::Invalid => Err(RegisterError::InvalidConfiguration),
        }
    }
}

impl Default for RxMode {
    fn default() -> (r: Self)
        ensures
            r == RxMode::Invalid,
    {
        RxMode::Invalid
    }
}

/// Packet control register 3 of the SPIRIT1 radio, one byte at `0x31`,
/// little endian: `pckt_frmt` in bits 6..=7, `rx_mode` in bits 4..=5 and
/// `len_wid` in bits 0..=3.
#[derive(Clone, Copy, Debug, PartialEq, Eq, Structural)]
pub struct PcktCtrl3 {
    /// Format of packet (*see Section 9.7*)
    pub pckt_frmt: PacketFormat,
    /// `RX_MODE`
    pub rx_mode: RxMode,
    /// Size in number of binary digit of length field
    pub len_wid: u8,
}

impl Register<u8> for PcktCtrl3 {
    const ADDRESS: u8 = 0x31;

    const LENGTH: usize = 1;

    open spec fn spec_reset_value() -> Self {
        PcktCtrl3 { pckt_frmt: PacketFormat::Basic, rx_mode: RxMode::Normal, len_wid: 0b0111 }
    }

    fn reset_value() -> (r: Self) {
        PcktCtrl3 { pckt_frmt: PacketFormat::Basic, rx_mode: RxMode::Normal, len_wid: 0b0111 }
    }
}

/// A readable register defaults to its reset value.
impl Default for PcktCtrl3 {
    fn default() -> (r: Self)
        ensures
            r == Self::spec_reset_value(),
    {
        Self::reset_value()
    }
}

impl ReadableRegister<u8> for PcktCtrl3 {
    open spec fn spec_from_bytes(buffer: Seq<u8>) -> RegisterResult<Self> {
        Ok(
            PcktCtrl3 {
                pckt_frmt: PacketFormat::spec_from_word(get_field(buffer[0], 6, 7)),
                rx_mode: RxMode::spec_from_word(get_field(buffer[0], 4, 5)),
                len_wid: get_field(buffer[0], 0, 3),
            },
        )
    }

    fn from_bytes(buffer: &[u8]) -> (r: RegisterResult<Self>) {
        let pckt_frmt = PacketFormat::from_word(
            read_field(buffer, Endian::Little, 1, BitRange::Bits((6, 7))),
        );
        let rx_mode = RxMode::from_word(read_field(buffer, Endian::Little, 1, BitRange::Bits((4, 5))));
        let len_wid = read_field(buffer, Endian::Little, 1, BitRange::Bits((0, 3)));
        Ok(PcktCtrl3 { pckt_frmt, rx_mode, len_wid })
    }
}

impl WriteableRegister<u8> for PcktCtrl3 {
    open spec fn spec_into_bytes(&self) -> RegisterResult<Seq<u8>> {
        match (self.pckt_frmt.spec_into_word(), self.rx_mode.spec_into_word()) {
            (Ok(f), Ok(m)) => if self.len_wid < 16 {
                Ok(seq![(f * 64 + m * 16 + self.len_wid) as u8])
            } else {
                Err(RegisterError::InvalidConfiguration)
            },
            (Err(e), _) => Err(e),
            (_, Err(e)) => Err(e),
        }
    }

    fn into_bytes(&self) -> (r: RegisterResult<Vec<u8>>) {
        let f = self.pckt_frmt.try_into_word()?;
        let m = self.rx_mode.try_into_word()?;
        if self.len_wid >= 16 {
            return Err(RegisterError::InvalidConfiguration);
        }
        let mut buffer: Vec<u8> = Vec::new();
        buffer.push(0u8);
        proof {
            assert(0xffu8 >> 6u8 == 3) by (bit_vector);
            assert(0xffu8 >> 4u8 == 15) by (bit_vector);
        }
        write_field(&mut buffer, Endian::Little, 1, BitRange::Bits((6, 7)), f);
        assert(buffer@ =~= seq![set_field(0u8, 6, 7, f)]);
        write_field(&mut buffer, Endian::Little, 1, BitRange::Bits((4, 5)), m);
        assert(buffer@ =~= seq![set_field(set_field(0u8, 6, 7, f), 4, 5, m)]);
        write_field(&mut buffer, Endian::Little, 1, BitRange::Bits((0, 3)), self.len_wid);
        assert(buffer@ =~= seq![set_field(set_field(set_field(0u8, 6, 7, f), 4, 5, m), 0, 3, self.len_wid)]);
        proof {
            let l = self.len_wid;
            assert(set_field(set_field(set_field(0u8, 6, 7, f), 4, 5, m), 0, 3, l) == (f * 64 + m
                * 16 + l) as u8) by (bit_vector)
                requires
                    f < 4,
                    m < 4,
                    l < 16,
            ;
        }
        Ok(buffer)
    }
}

/// Reading back the byte that a `PcktCtrl3` is written as gives the same
/// register.
pub proof fn law_pckt_ctrl3_round_trip(reg: PcktCtrl3)
    requires
        reg.spec_into_bytes() is Ok,
    ensures
        PcktCtrl3::spec_from_bytes(reg.spec_into_bytes()->Ok_0) == Ok::<
            PcktCtrl3,
            RegisterError,
        >(reg),
{
    let f = reg.pckt_frmt.spec_into_word()->Ok_0;
    let m = reg.rx_mode.spec_into_word()->Ok_0;
    let l = reg.len_wid;
    let b = (f * 64 + m * 16 + l) as u8;
    assert(get_field(b, 6, 7) == f && get_field(b, 4, 5) == m && get_field(b, 0, 3) == l)
        by (bit_vector)
        requires
            f < 4,
            m < 4,
            l < 16,
            b == (f * 64 + m * 16 + l) as u8,
    ;
}

/// Writing back a byte read as a `PcktCtrl3` gives the same byte, unless a
/// field of it named no format or mode.
pub proof fn law_pckt_ctrl3_byte_round_trip(byte: u8)
    requires
        get_field(byte, 6, 7) < 3,
        get_field(byte, 4, 5) < 3,
    ensures
        PcktCtrl3::spec_from_bytes(seq![byte])->Ok_0.spec_into_bytes() == Ok::<
            Seq<u8>,
            RegisterError,
        >(seq![byte]),
{
    let f = get_field(byte, 6, 7);
    let m = get_field(byte, 4, 5);
    let l = get_field(byte, 0, 3);
    assert(l < 16 && (f * 64 + m * 16 + l) as u8 == byte) by (bit_vector)
        requires
            f == get_field(byte, 6, 7),
            m == get_field(byte, 4, 5),
            l == get_field(byte, 0, 3),
    ;
}

/// Field-by-field access to the byte of `PcktCtrl3`.
#[allow(non_camel_case_types)]
pub struct __PcktCtrl3_repr();

impl __PcktCtrl3_repr {
    pub const LENGTH: usize = 1;

    pub const ADDRESS: u8 = 0x31;

    /// The byte of the register after reset.
    pub const RESET_MASK: u8 = 0b0000_0111;

    /// Format of packet (*see Section 9.7*): writes it into bits 6..=7,
    /// leaving the other bits as they were; `Invalid` cannot be written.
    pub fn set_pckt_frmt(base: &mut [u8; 1], value: PacketFormat) -> (r: RegisterResult<()>)
        ensures
            match value.spec_into_word() {
                Ok(f) => r == Ok::<(), RegisterError>(()) && final(base)@ == seq![
                    set_field(old(base)@[0], 6, 7, f),
                ],
                Err(e) => r == Err::<(), RegisterError>(e) && final(base)@ == old(base)@,
            },
    {
        let f = value.try_into_word()?;
        let mut words: Vec<u8> = Vec::new();
        words.push(base[0]);
        proof {
            assert(0xffu8 >> 6u8 == 3) by (bit_vector);
        }
        write_field(&mut words, Endian::Little, 1, BitRange::Bits((6, 7)), f);
        base[0] = words[0];
        assert(base@ =~= seq![set_field(old(base)@[0], 6, 7, f)]);
        Ok(())
    }

    /// Format of packet, read from bits 6..=7.
    pub fn get_pckt_frmt(base: &[u8; 1]) -> (r: RegisterResult<PacketFormat>)
        ensures
            r == Ok::<PacketFormat, RegisterError>(
                PacketFormat::spec_from_word(get_field(base@[0], 6, 7)),
            ),
    {
        Ok(PacketFormat::from_word(read_field(base.as_slice(), Endian::Little, 1, BitRange::Bits((6, 7)))))
    }
}

/// A register whose one byte, at `0xFF`, is its value.
#[derive(Clone, Copy, Debug, PartialEq, Eq, Structural)]
pub struct SimpleRegister(pub u8);

impl Register<u8> for SimpleRegister {
    const ADDRESS: u8 = 0xFF;

    const LENGTH: usize = 1;

    open spec fn spec_reset_value() -> Self {
        SimpleRegister(0)
    }

    fn reset_value() -> (r: Self) {
        SimpleRegister(0)
    }
}

/// A readable register defaults to its reset value.
impl Default for SimpleRegister {
    fn default() -> (r: Self)
        ensures
            r == Self::spec_reset_value(),
    {
        Self::reset_value()
    }
}

impl ReadableRegister<u8> for SimpleRegister {
    open spec fn spec_from_bytes(buffer: Seq<u8>) -> RegisterResult<Self> {
        Ok(SimpleRegister(buffer[0]))
    }

    fn from_bytes(buffer: &[u8]) -> (r: RegisterResult<Self>) {
        Ok(SimpleRegister(buffer[0]))
    }
}

/// The conversions of `PacketFormat` are those of an enum whose variants stand
/// for 0, 1, 2 and no value, with `Invalid` as default: a value converts to
/// the first variant standing for it, else to the default; a variant
/// converts to its value, or fails with `InvalidConfiguration`.
pub proof fn law_packet_format_matches_values(value: u8, variant: PacketFormat)
    ensures
        spec_from_value(PacketFormat::values_table(), Some(3usize), value as u64) == Some(
            PacketFormat::spec_from_word(value).variant_index(),
        ),
        match variant.spec_into_word() {
            Ok(w) => spec_try_into_value(PacketFormat::values_table(), variant.variant_index())
                == Ok::<u64, RegisterError>(w as u64),
            Err(e) => spec_try_into_value(PacketFormat::values_table(), variant.variant_index())
                == Err::<u64, RegisterError>(e),
        },
{
    let t = PacketFormat::values_table();
    let x = value as u64;
    law_from_value_first_variant(t, Some(3usize), x);
    law_try_into_value_of_variant(t, variant.variant_index());
    if value == 0 {
        assert(first_standing_for(t, x, 0));
    } else if value == 1 {
        assert(first_standing_for(t, x, 1));
    } else if value == 2 {
        assert(first_standing_for(t, x, 2));
    } else {
        assert(forall|j: int| 0 <= j < t.len() ==> t[j] != Some(x));
    }
}

/// Converting a value that names a variant to it and back gives the value;
/// converting a variant with a value to it and back gives the variant.
pub proof fn law_packet_format_round_trip(value: u8, variant: PacketFormat)
    ensures
        PacketFormat::spec_from_word(value) != PacketFormat::Invalid ==> PacketFormat::spec_from_word(
            value,
        ).spec_into_word() == Ok::<u8, RegisterError>(value),
        variant.spec_into_word() is Ok ==> PacketFormat::spec_from_word(
            variant.spec_into_word()->Ok_0,
        ) == variant,
        variant.spec_into_word() is Err <==> variant == PacketFormat::Invalid,
{
}

/// The conversions of `RxMode` are those of an enum whose variants stand
/// for 0, 1, 2 and no value, with `Invalid` as default: a value converts to
/// the first variant standing for it, else to the default; a variant
/// converts to its value, or fails with `InvalidConfiguration`.
pub proof fn law_rx_mode_matches_values(value: u8, variant: RxMode)
    ensures
        spec_from_value(RxMode::values_table(), Some(3usize), value as u64) == Some(
            RxMode::spec_from_word(value).variant_index(),
        ),
        match variant.spec_into_word() {
            Ok(w) => spec_try_into_value(RxMode::values_table(), variant.variant_index())
                == Ok::<u64, RegisterError>(w as u64),
            Err(e) => spec_try_into_value(RxMode::values_table(), variant.variant_index())
                == Err::<u64, RegisterError>(e),
        },
{
    let t = RxMode::values_table();
    let x = value as u64;
    law_from_value_first_variant(t, Some(3usize), x);
    law_try_into_value_of_variant(t, variant.variant_index());
    if value == 0 {
        assert(first_standing_for(t, x, 0));
    } else if value == 1 {
        assert(first_standing_for(t, x, 1));
    } else if value == 2 {
        assert(first_standing_for(t, x, 2));
    } else {
        assert(forall|j: int| 0 <= j < t.len() ==> t[j] != Some(x));
    }
}

/// Converting a value that names a variant to it and back gives the value;
/// converting a variant with a value to it and back gives the variant.
pub proof fn law_rx_mode_round_trip(value: u8, variant: RxMode)
    ensures
        RxMode::spec_from_word(value) != RxMode::Invalid ==> RxMode::spec_from_word(
            value,
        ).spec_into_word() == Ok::<u8, RegisterError>(value),
        variant.spec_into_word() is Ok ==> RxMode::spec_from_word(
            variant.spec_into_word()->Ok_0,
        ) == variant,
        variant.spec_into_word() is Err <==> variant == RxMode::Invalid,
{
}

/// A `SimpleRegister` read from a byte holds exactly that byte.
pub proof fn law_simple_register_holds_byte(byte: u8)
    ensures
        SimpleRegister::spec_from_bytes(seq![byte]) == Ok::<SimpleRegister, RegisterError>(
            SimpleRegister(byte),
        ),
        forall|other: u8|
            other != byte ==> #[trigger] SimpleRegister::spec_from_bytes(seq![other])
                != SimpleRegister::spec_from_bytes(seq![byte]),
{
}

/// `PcktCtrl3` is read from its byte `b` as: format `b / 64`, mode
/// `(b / 16) % 4`, length width `b % 16`.
pub proof fn law_pckt_ctrl3_fields_of_byte(byte: u8)
    ensures
        PcktCtrl3::spec_from_bytes(seq![byte]) == Ok::<PcktCtrl3, RegisterError>(
            PcktCtrl3 {
                pckt_frmt: PacketFormat::spec_from_word((byte / 64) as u8),
                rx_mode: RxMode::spec_from_word(((byte / 16) % 4) as u8),
                len_wid: (byte % 16) as u8,
            },
        ),
{
    assert(get_field(byte, 6, 7) == byte / 64 && get_field(byte, 4, 5) == (byte / 16) % 4
        && get_field(byte, 0, 3) == byte % 16) by (bit_vector);
}

} // verus!
