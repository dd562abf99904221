use tau_supervisor::hw::gpio::{FSEL14, FSEL15, GPFSEL1, GPPUDCLK0, PUDCLK14, PUDCLK15};
use tau_supervisor::hw::uart::{AUX_MU_BAUD, AUX_MU_LCR, AUX_MU_LSR, DATA_SIZE, RATE, TX_EMPTY};
use tau_supervisor::regs::cnthctl_el2::{CNTHCTL_EL2, EL1PCEN, EL1PCTEN};
use tau_supervisor::regs::current_el::{CurrentEL, EL};
use tau_supervisor::regs::hcr_el2::{HCR_EL2, RW};
use tau_supervisor::regs::mpidr_el1::{Aff0, MPIDR_EL1};
use tau_supervisor::regs::spsr_el1::{self, SPSR_EL1};
use tau_supervisor::regs::spsr_el3::{self, SPSR_EL3};
use tau_supervisor::regs::{set_field64, RegisterGetField, RegisterSetField};

#[test]
fn enum_simple() {
    // a 9-bit field at bit 12 written with 0x321
    let v = set_field64(0x123456789, 12, 9, 0x321);
    assert_eq!(v, 0x123721789);
}

#[test]
fn enum_overflow() {
    // a field as wide as the register
    let v = set_field64(0x123456789, 0, 64, 0);
    assert_eq!(v, 0);
}

#[test]
fn bool_simple() {
    // a flag at bit 6 set
    let v = set_field64(0x123456789, 6, 1, 1);
    assert_eq!(v, 0x1234567c9);
}

#[test]
fn timer_control_bits() {
    let r = CNTHCTL_EL2::default().set_field(EL1PCTEN(true)).set_field(EL1PCEN(true));
    assert_eq!(r.0, 0b11);
    let EL1PCTEN(pcten) = r.get_field();
    assert!(pcten);
    let r = r.set_field(EL1PCTEN(false));
    assert_eq!(r.0, 0b10);
    let EL1PCEN(pcen) = r.get_field();
    assert!(pcen);
}

#[test]
fn exception_level() {
    assert_eq!(RegisterGetField::<EL>::get_field(&CurrentEL(0b0100)), EL::_1);
    assert_eq!(RegisterGetField::<EL>::get_field(&CurrentEL(0b1000)), EL::_2);
    assert_eq!(RegisterGetField::<EL>::get_field(&CurrentEL(0b1111)), EL::_3);
    assert_eq!(RegisterGetField::<EL>::get_field(&CurrentEL(0b0011)), EL::_0);
}

#[test]
fn hypervisor_rw() {
    let r = HCR_EL2(0x1).set_field(RW::EL1IsAarch64);
    assert_eq!(r.0, 0x8000_0001);
    assert_eq!(RegisterGetField::<RW>::get_field(&r), RW::EL1IsAarch64);
    let r = r.set_field(RW::AllLowerELsAreAarch32);
    assert_eq!(r.0, 0x1);
    assert_eq!(RegisterGetField::<RW>::get_field(&r), RW::AllLowerELsAreAarch32);
}

#[test]
fn core_id() {
    assert_eq!(MPIDR_EL1(0x8000_0002).core_id(), Aff0::_2);
    assert_eq!(MPIDR_EL1(0x7).core_id(), Aff0::_3);
}

#[test]
fn saved_program_status() {
    let r = SPSR_EL1(0xffff)
        .set_field(spsr_el1::M::EL1h)
        .set_field(spsr_el1::D(false))
        .set_field(spsr_el1::F(false));
    assert_eq!(r.0, 0xfdb5);
    let r = SPSR_EL3::default()
        .set_field(spsr_el3::M::EL2h)
        .set_field(spsr_el3::D(true))
        .set_field(spsr_el3::A(true))
        .set_field(spsr_el3::I(true))
        .set_field(spsr_el3::F(true));
    assert_eq!(r.0, 0x3c9);
}

#[test]
fn gpio_functions() {
    let r = GPFSEL1::default().set_field(FSEL15::RXD1).set_field(FSEL14::TXD1);
    assert_eq!(r.0, (0b010 << 15) | (0b010 << 12));
    let r = GPFSEL1(u32::MAX).set_field(FSEL14::Input);
    assert_eq!(r.0, u32::MAX & !(0b111 << 12));
    let r = GPPUDCLK0::default().set_field(PUDCLK15::AssertClock).set_field(PUDCLK14::AssertClock);
    assert_eq!(r.0, 0b11 << 14);
}

#[test]
fn uart_fields() {
    assert_eq!(AUX_MU_LCR::default().set_field(DATA_SIZE::EightBit).0, 0b11);
    assert_eq!(AUX_MU_BAUD::default().set_field(RATE(270)).0, 270);
    let TX_EMPTY(empty) = AUX_MU_LSR(0x20).get_field();
    assert!(empty);
    let TX_EMPTY(empty) = AUX_MU_LSR(0x01).get_field();
    assert!(!empty);
}
