use vstd::prelude::*;

use crate::bits::{get_field, set_field, BitRange, Endian};
use crate::layout::{read_field, write_field};
use crate::register::{Register, ReadableRegister, RegisterError, RegisterResult, WriteableRegister};
use crate::valued::{
    first_standing_for, law_try_from_value_first_variant, law_try_into_value_of_variant,
    spec_try_from_value, spec_try_into_value,
};

verus! {

/// A state stored in two bits; `Invalid` stands for no value.
#[derive(Clone, Copy, Debug, PartialEq, Eq, Structural)]
pub enum SomeState {
    StateOne,
    StateTwo,
    Invalid,
}

impl SomeState {
    /// The state a value converts to; values other than 0 and 1 fail.
    pub open spec fn spec_try_from_word(value: u8) -> RegisterResult<SomeState> {
        if value == 0 {
            Ok(SomeState::StateOne)
        } else if value == 1 {
            Ok(SomeState::StateTwo)
        } else {
            Err(RegisterError::ConversionError)
        }
    }

    /// The value a state converts to; `Invalid` fails.
    pub open spec fn spec_try_into_word(self) -> RegisterResult<u8> {
        match self {
            SomeState::StateOne => Ok(0),
            SomeState::StateTwo => Ok(1),
            SomeState::Invalid => Err(RegisterError::InvalidConfiguration),
        }
    }

    /// The values the variants stand for, in declaration order:
    /// `StateOne` is 0, `StateTwo` is 1, `Invalid` stands for none.
    pub open spec fn values_table() -> Seq<Option<u64>> {
        seq![Some(0u64), Some(1u64), None]
    }

    /// Position of the variant in declaration order.
    pub open spec fn variant_index(self) -> usize {
        match self {
            SomeState::StateOne => 0,
            SomeState::StateTwo => 1,
            SomeState::Invalid => 2,
        }
    }

    pub fn try_from_word(value: u8) -> (r: RegisterResult<SomeState>)
        ensures
            r == Self::spec_try_from_word(value),
    {
        if value == 0 {
            Ok(SomeState::StateOne)
        } else if value == 1 {
            Ok(SomeState::StateTwo)
        } else {
            Err(RegisterError::ConversionError)
        }
    }

    pub fn try_into_word(self) -> (r: RegisterResult<u8>)
        ensures
            r == self.spec_try_into_word(),
    {
        match self {
            SomeState::StateOne => Ok(0),
            SomeState::StateTwo => Ok(1),
            SomeState::Invalid => Err(RegisterError::InvalidConfiguration),
        }
    }
}

/// A one-byte register at `0xC0`, big endian: five reserved bits 0..=4, a
/// flag in bit 5 and a state in bits 6..=7.
#[derive(Clone, Copy, Debug, PartialEq, Eq, Structural)]
pub struct MyReadableRegister {
    /// Reserved
    pub _reserved: u8,
    /// A Boolean register
    pub boolean_state: bool,
    /// A non-specified option
    pub something_else: SomeState,
}

impl Register<u8> for MyReadableRegister {
    const ADDRESS: u8 = 0xC0;

    const LENGTH: usize = 1;

    open spec fn spec_reset_value() -> Self {
        MyReadableRegister {
            _reserved: 0b11111,
            boolean_state: false,
            something_else: SomeState::StateOne,
        }
    }

    fn reset_value() -> (r: Self) {
        MyReadableRegister {
            _reserved: 0b11111,
            boolean_state: false,
            something_else: SomeState::StateOne,
        }
    }
}

/// A readable register defaults to its reset value.
impl Default for MyReadableRegister {
    fn default() -> (r: Self)
        ensures
            r == Self::spec_reset_value(),
    {
        Self::reset_value()
    }
}

impl ReadableRegister<u8> for MyReadableRegister {
    open spec fn spec_from_bytes(buffer: Seq<u8>) -> RegisterResult<Self> {
        match SomeState::spec_try_from_word(get_field(buffer[0], 6, 7)) {
            Ok(state) => Ok(
                MyReadableRegister {
                    _reserved: get_field(buffer[0], 0, 4),
                    boolean_state: get_field(buffer[0], 5, 5) == 1,
                    something_else: state,
                },
            ),
            Err(e) => Err(e),
        }
    }

    fn from_bytes(buffer: &[u8]) -> (r: RegisterResult<Self>) {
        let _reserved = read_field(buffer, Endian::Big, 1, BitRange::Bits((0, 4)));
        let boolean_state = read_field(buffer, Endian::Big, 1, BitRange::Bit(5)) == 1;
        let something_else = SomeState::try_from_word(
            read_field(buffer, Endian::Big, 1, BitRange::Bits((6, 7))),
        )?;
        Ok(MyReadableRegister { _reserved, boolean_state, something_else })
    }
}

impl WriteableRegister<u8> for MyReadableRegister {
    open spec fn spec_into_bytes(&self) -> RegisterResult<Seq<u8>> {
        if self._reserved >= 32 {
            Err(RegisterError::InvalidConfiguration)
        } else {
            match self.something_else.spec_try_into_word() {
                Ok(s) => Ok(
                    seq![(s * 64 + (if self.boolean_state {
                        32int
                    } else {
                        0int
                    }) + self._reserved) as u8],
                ),
                Err(e) => Err(e),
            }
        }
    }

    fn into_bytes(&self) -> (r: RegisterResult<Vec<u8>>) {
        if self._reserved >= 32 {
            return Err(RegisterError::InvalidConfiguration);
        }
        let flag: u8 = if self.boolean_state {
            1
        } else {
            0
        };
        let s = self.something_else.try_into_word()?;
        let mut buffer: Vec<u8> = Vec::new();
        buffer.push(0u8);
        proof {
            assert(0xffu8 >> 3u8 == 31) by (bit_vector);
            assert(0xffu8 >> 7u8 == 1) by (bit_vector);
            assert(0xffu8 >> 6u8 == 3) by (bit_vector);
        }
        let r = self._reserved;
        write_field(&mut buffer, Endian::Big, 1, BitRange::Bits((0, 4)), r);
        assert(buffer@ =~= seq![set_field(0u8, 0, 4, r)]);
        write_field(&mut buffer, Endian::Big, 1, BitRange::Bit(5), flag);
        assert(buffer@ =~= seq![set_field(set_field(0u8, 0, 4, r), 5, 5, flag)]);
        write_field(&mut buffer, Endian::Big, 1, BitRange::Bits((6, 7)), s);
        assert(buffer@ =~= seq![set_field(set_field(set_field(0u8, 0, 4, r), 5, 5, flag), 6, 7, s)]);
        proof {
            assert(set_field(set_field(set_field(0u8, 0, 4, r), 5, 5, flag), 6, 7, s) == (s * 64
                + flag * 32 + r) as u8) by (bit_vector)
                requires
                    r < 32,
                    flag < 2,
                    s < 4,
            ;
        }
        Ok(buffer)
    }
}

/// Reading back the byte that a `MyReadableRegister` is written as gives the
/// same register.
pub proof fn law_my_register_round_trip(reg: MyReadableRegister)
    requires
        reg.spec_into_bytes() is Ok,
    ensures
        MyReadableRegister::spec_from_bytes(reg.spec_into_bytes()->Ok_0) == Ok::<
            MyReadableRegister,
            RegisterError,
        >(reg),
{
    let s = reg.something_else.spec_try_into_word()->Ok_0;
    let flag: u8 = if reg.boolean_state {
        1
    } else {
        0
    };
    let r = reg._reserved;
    let b = (s * 64 + flag * 32 + r) as u8;
    assert(b == reg.spec_into_bytes()->Ok_0[0]);
    assert(get_field(b, 6, 7) == s && get_field(b, 5, 5) == flag && get_field(b, 0, 4) == r)
        by (bit_vector)
        requires
            s < 2,
            flag < 2,
            r < 32,
            b == (s * 64 + flag * 32 + r) as u8,
    ;
}

/// The conversions of `SomeState` are the fallible conversions of an enum
/// whose variants stand for 0, 1 and no value: converting a value gives the
/// first variant standing for it or `ConversionError`, and converting a
/// variant gives its value or `InvalidConfiguration`.
pub proof fn law_some_state_matches_values(value: u8, state: SomeState)
    ensures
        match SomeState::spec_try_from_word(value) {
            Ok(s) => spec_try_from_value(SomeState::values_table(), value as u64) == Ok::<
                usize,
                RegisterError,
            >(s.variant_index()),
            Err(e) => spec_try_from_value(SomeState::values_table(), value as u64) == Err::<
                usize,
                RegisterError,
            >(e),
        },
        match state.spec_try_into_word() {
            Ok(w) => spec_try_into_value(SomeState::values_table(), state.variant_index())
                == Ok::<u64, RegisterError>(w as u64),
            Err(e) => spec_try_into_value(SomeState::values_table(), state.variant_index())
                == Err::<u64, RegisterError>(e),
        },
{
    let t = SomeState::values_table();
    let x = value as u64;
    law_try_from_value_first_variant(t, x);
    law_try_into_value_of_variant(t, state.variant_index());
    if value == 0 {
        assert(first_standing_for(t, x, 0));
    } else if value == 1 {
        assert(first_standing_for(t, x, 1));
    } else {
        assert(forall|j: int| 0 <= j < t.len() ==> t[j] != Some(x));
    }
}

/// Converting a value to a `SomeState` and back gives the value, and
/// converting a state to its value and back gives the state.
pub proof fn law_some_state_round_trip(value: u8, state: SomeState)
    ensures
        SomeState::spec_try_from_word(value) is Ok ==> SomeState::spec_try_from_word(
            value,
        )->Ok_0.spec_try_into_word() == Ok::<u8, RegisterError>(value),
        state.spec_try_into_word() is Ok ==> SomeState::spec_try_from_word(
            state.spec_try_into_word()->Ok_0,
        ) == Ok::<SomeState, RegisterError>(state),
        SomeState::spec_try_from_word(value) is Err ==> SomeState::spec_try_from_word(value)
            == Err::<SomeState, RegisterError>(RegisterError::ConversionError),
        state.spec_try_into_word() is Err <==> state == SomeState::Invalid,
        state.spec_try_into_word() is Err ==> state.spec_try_into_word() == Err::<
            u8,
            RegisterError,
        >(RegisterError::InvalidConfiguration),
{
}

/// `MyReadableRegister` is read from its byte `b` as: reserved bits
/// `b % 32`, flag set when `(b / 32) % 2 == 1`, state from `b / 64`; a state
/// value that names no state fails with `ConversionError`.
pub proof fn law_my_register_fields_of_byte(byte: u8)
    ensures
        MyReadableRegister::spec_from_bytes(seq![byte]) == match SomeState::spec_try_from_word(
            (byte / 64) as u8,
        ) {
            Ok(state) => Ok::<MyReadableRegister, RegisterError>(
                MyReadableRegister {
                    _reserved: (byte % 32) as u8,
                    boolean_state: (byte / 32) % 2 == 1,
                    something_else: state,
                },
            ),
            Err(e) => Err::<MyReadableRegister, RegisterError>(e),
        },
{
    assert(get_field(byte, 6, 7) == byte / 64 && get_field(byte, 5, 5) == (byte / 32) % 2
        && get_field(byte, 0, 4) == byte % 32) by (bit_vector);
}

} // verus!
