use register_rs::example::{MyReadableRegister, SomeState};
use register_rs::register::{ReadableRegister, Register, RegisterError, WriteableRegister};
use register_rs::spirit1::{PacketFormat, PcktCtrl3, RxMode, SimpleRegister, __PcktCtrl3_repr};

#[test]
fn pckt_ctrl3_constants() {
    assert_eq!(<PcktCtrl3 as Register<u8>>::ADDRESS, 0x31);
    assert_eq!(<PcktCtrl3 as Register<u8>>::LENGTH, 1);
    assert_eq!(__PcktCtrl3_repr::ADDRESS, 0x31);
    assert_eq!(__PcktCtrl3_repr::LENGTH, 1);
}

#[test]
fn pckt_ctrl3_reset_value() {
    let r = PcktCtrl3::reset_value();
    assert_eq!(r, PcktCtrl3 { pckt_frmt: PacketFormat::Basic, rx_mode: RxMode::Normal, len_wid: 0b0111 });
    assert_eq!(PcktCtrl3::default(), r);
    assert_eq!(r.into_bytes(), Ok(vec![__PcktCtrl3_repr::RESET_MASK]));
    assert_eq!(r.into_bytes(), Ok(vec![0b0000_0111]));
}

#[test]
fn pckt_ctrl3_round_trip() {
    let r = PcktCtrl3 { pckt_frmt: PacketFormat::STack, rx_mode: RxMode::DirectFifo, len_wid: 12 };
    let bytes = r.into_bytes().unwrap();
    assert_eq!(bytes, vec![0b1001_1100]);
    assert_eq!(PcktCtrl3::from_bytes(&bytes), Ok(r));
}

#[test]
fn pckt_ctrl3_from_bytes() {
    let r = PcktCtrl3::from_bytes(&[0b0110_0101]).unwrap();
    assert_eq!(r, PcktCtrl3 { pckt_frmt: PacketFormat::WMBus, rx_mode: RxMode::DirectGpio, len_wid: 5 });
    let r = PcktCtrl3::from_bytes(&[0xFF]).unwrap();
    assert_eq!(r, PcktCtrl3 { pckt_frmt: PacketFormat::Invalid, rx_mode: RxMode::Invalid, len_wid: 15 });
}

#[test]
fn pckt_ctrl3_unwritable() {
    let r = PcktCtrl3 { pckt_frmt: PacketFormat::Invalid, rx_mode: RxMode::Normal, len_wid: 1 };
    assert_eq!(r.into_bytes(), Err(RegisterError::InvalidConfiguration));
    let r = PcktCtrl3 { pckt_frmt: PacketFormat::Basic, rx_mode: RxMode::Invalid, len_wid: 1 };
    assert_eq!(r.into_bytes(), Err(RegisterError::InvalidConfiguration));
    let r = PcktCtrl3 { pckt_frmt: PacketFormat::Basic, rx_mode: RxMode::Normal, len_wid: 16 };
    assert_eq!(r.into_bytes(), Err(RegisterError::InvalidConfiguration));
}

#[test]
fn pckt_ctrl3_every_byte() {
    for b in 0..=255u8 {
        let r = PcktCtrl3::from_bytes(&[b]).unwrap();
        if (b >> 6) < 3 && ((b >> 4) & 3) < 3 {
            assert_eq!(r.into_bytes(), Ok(vec![b]));
        } else {
            assert_eq!(r.into_bytes(), Err(RegisterError::InvalidConfiguration));
        }
    }
}

#[test]
fn pckt_frmt_accessors() {
    let mut base = [0b0001_0111u8];
    assert_eq!(__PcktCtrl3_repr::get_pckt_frmt(&base), Ok(PacketFormat::Basic));
    assert_eq!(__PcktCtrl3_repr::set_pckt_frmt(&mut base, PacketFormat::STack), Ok(()));
    assert_eq!(base, [0b1001_0111]);
    assert_eq!(__PcktCtrl3_repr::get_pckt_frmt(&base), Ok(PacketFormat::STack));
    assert_eq!(
        __PcktCtrl3_repr::set_pckt_frmt(&mut base, PacketFormat::Invalid),
        Err(RegisterError::InvalidConfiguration)
    );
    assert_eq!(base, [0b1001_0111]);
}

#[test]
fn enum_words() {
    assert_eq!(PacketFormat::from_word(0), PacketFormat::Basic);
    assert_eq!(PacketFormat::from_word(1), PacketFormat::WMBus);
    assert_eq!(PacketFormat::from_word(2), PacketFormat::STack);
    assert_eq!(PacketFormat::from_word(3), PacketFormat::Invalid);
    assert_eq!(PacketFormat::WMBus.try_into_word(), Ok(1));
    assert_eq!(PacketFormat::Invalid.try_into_word(), Err(RegisterError::InvalidConfiguration));
    assert_eq!(PacketFormat::default(), PacketFormat::Invalid);
    assert_eq!(RxMode::from_word(2), RxMode::DirectGpio);
    assert_eq!(RxMode::default(), RxMode::Invalid);
    assert_eq!(SomeState::try_from_word(1), Ok(SomeState::StateTwo));
    assert_eq!(SomeState::try_from_word(2), Err(RegisterError::ConversionError));
    assert_eq!(SomeState::Invalid.try_into_word(), Err(RegisterError::InvalidConfiguration));
}

#[test]
fn simple_register() {
    assert_eq!(<SimpleRegister as Register<u8>>::ADDRESS, 0xFF);
    assert_eq!(SimpleRegister::from_bytes(&[0x42]), Ok(SimpleRegister(0x42)));
    assert_eq!(SimpleRegister::reset_value(), SimpleRegister(0));
}

#[test]
fn my_register_reset_round_trip() {
    let r = MyReadableRegister::reset_value();
    assert_eq!(<MyReadableRegister as Register<u8>>::ADDRESS, 0xC0);
    assert_eq!(<MyReadableRegister as Register<u8>>::LENGTH, 1);
    let bytes = r.into_bytes().unwrap();
    assert_eq!(bytes, vec![0b0001_1111]);
    assert_eq!(MyReadableRegister::from_bytes(&bytes), Ok(r));
    assert_eq!(MyReadableRegister::default(), r);
}

#[test]
fn my_register_fields() {
    let r = MyReadableRegister { _reserved: 3, boolean_state: true, something_else: SomeState::StateTwo };
    let bytes = r.into_bytes().unwrap();
    assert_eq!(bytes, vec![0b0110_0011]);
    assert_eq!(MyReadableRegister::from_bytes(&bytes), Ok(r));
    assert_eq!(MyReadableRegister::from_bytes(&[0b1000_0000]), Err(RegisterError::ConversionError));
    let bad = MyReadableRegister { _reserved: 0, boolean_state: false, something_else: SomeState::Invalid };
    assert_eq!(bad.into_bytes(), Err(RegisterError::InvalidConfiguration));
    let bad = MyReadableRegister { _reserved: 32, boolean_state: false, something_else: SomeState::StateOne };
    assert_eq!(bad.into_bytes(), Err(RegisterError::InvalidConfiguration));
}
