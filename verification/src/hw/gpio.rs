//! Register values of the BCM2837 GPIO block used to route the mini UART.
use vstd::prelude::*;

use crate::regs::{
    lemma_field_widths, lemma_with_field32_bits, set_field32, with_field32, RegisterSetField,
};

verus! {

/// GPIO Function Select 1.
#[allow(non_camel_case_types)]
#[derive(Debug, Clone, Copy, PartialEq, Eq, Structural)]
pub struct GPFSEL1(pub u32);

impl Default for GPFSEL1 {
    fn default() -> (r: Self)
        ensures
            r.0 == 0,
    {
        GPFSEL1(0)
    }
}

/// Function of pin 15; `RXD1` is the mini UART's alternate function 5.
#[allow(non_camel_case_types)]
#[derive(Debug, Clone, Copy, PartialEq, Eq, Structural)]
pub enum FSEL15 {
    Input,
    Output,
    RXD1,
}

impl FSEL15 {
    /// Encoding of the value.
    pub open spec fn bits_spec(self) -> u32 {
        match self {
            FSEL15::Input => 0b000,
            FSEL15::Output => 0b001,
            FSEL15::RXD1 => 0b010,
        }
    }

    /// Encoding of the value.
    pub fn bits(self) -> (r: u32)
        ensures
            r == self.bits_spec(),
    {
        match self {
            FSEL15::Input => 0b000,
            FSEL15::Output => 0b001,
            FSEL15::RXD1 => 0b010,
        }
    }
}

/// Bits 15 to 17.
impl RegisterSetField<FSEL15> for GPFSEL1 {
    open spec fn with_field_spec(self, field: FSEL15) -> Self {
        GPFSEL1(with_field32(self.0, 15, 3, field.bits_spec()))
    }

    fn set_field(self, field: FSEL15) -> (r: Self) {
        GPFSEL1(set_field32(self.0, 15, 3, field.bits()))
    }
}

/// Function of pin 14; `TXD1` is the mini UART's alternate function 5.
#[allow(non_camel_case_types)]
#[derive(Debug, Clone, Copy, PartialEq, Eq, Structural)]
pub enum FSEL14 {
    Input,
    Output,
    TXD1,
}

impl FSEL14 {
    /// Encoding of the value.
    pub open spec fn bits_spec(self) -> u32 {
        match self {
            FSEL14::Input => 0b000,
            FSEL14::Output => 0b001,
            FSEL14::TXD1 => 0b010,
        }
    }

    /// Encoding of the value.
    pub fn bits(self) -> (r: u32)
        ensures
            r == self.bits_spec(),
    {
        match self {
            FSEL14::Input => 0b000,
            FSEL14::Output => 0b001,
            FSEL14::TXD1 => 0b010,
        }
    }
}

/// Bits 12 to 14.
impl RegisterSetField<FSEL14> for GPFSEL1 {
    open spec fn with_field_spec(self, field: FSEL14) -> Self {
        GPFSEL1(with_field32(self.0, 12, 3, field.bits_spec()))
    }

    fn set_field(self, field: FSEL14) -> (r: Self) {
        GPFSEL1(set_field32(self.0, 12, 3, field.bits()))
    }
}

/// GPIO Pull-up/down Clock register 0.
#[allow(non_camel_case_types)]
#[derive(Debug, Clone, Copy, PartialEq, Eq, Structural)]
pub struct GPPUDCLK0(pub u32);

impl Default for GPPUDCLK0 {
    fn default() -> (r: Self)
        ensures
            r.0 == 0,
    {
        GPPUDCLK0(0)
    }
}

/// Pull-up/down clock of pin 15.
#[allow(non_camel_case_types)]
#[derive(Debug, Clone, Copy, PartialEq, Eq, Structural)]
pub enum PUDCLK15 {
    NoEffect,
    AssertClock,
}

impl PUDCLK15 {
    /// Encoding of the value.
    pub open spec fn bits_spec(self) -> u32 {
        match self {
            PUDCLK15::NoEffect => 0,
            PUDCLK15::AssertClock => 1,
        }
    }

    /// Encoding of the value.
    pub fn bits(self) -> (r: u32)
        ensures
            r == self.bits_spec(),
    {
        match self {
            PUDCLK15::NoEffect => 0,
            PUDCLK15::AssertClock => 1,
        }
    }
}

/// Bits 15 to 15.
impl RegisterSetField<PUDCLK15> for GPPUDCLK0 {
    open spec fn with_field_spec(self, field: PUDCLK15) -> Self {
        GPPUDCLK0(with_field32(self.0, 15, 1, field.bits_spec()))
    }

    fn set_field(self, field: PUDCLK15) -> (r: Self) {
        GPPUDCLK0(set_field32(self.0, 15, 1, field.bits()))
    }
}

/// Pull-up/down clock of pin 14.
#[allow(non_camel_case_types)]
#[derive(Debug, Clone, Copy, PartialEq, Eq, Structural)]
pub enum PUDCLK14 {
    NoEffect,
    AssertClock,
}

impl PUDCLK14 {
    /// Encoding of the value.
    pub open spec fn bits_spec(self) -> u32 {
        match self {
            PUDCLK14::NoEffect => 0,
            PUDCLK14::AssertClock => 1,
        }
    }

    /// Encoding of the value.
    pub fn bits(self) -> (r: u32)
        ensures
            r == self.bits_spec(),
    {
        match self {
            PUDCLK14::NoEffect => 0,
            PUDCLK14::AssertClock => 1,
        }
    }
}

/// Bits 14 to 14.
impl RegisterSetField<PUDCLK14> for GPPUDCLK0 {
    open spec fn with_field_spec(self, field: PUDCLK14) -> Self {
        GPPUDCLK0(with_field32(self.0, 14, 1, field.bits_spec()))
    }

    fn set_field(self, field: PUDCLK14) -> (r: Self) {
        GPPUDCLK0(set_field32(self.0, 14, 1, field.bits()))
    }
}

/// Pin functions in `GPFSEL1`: pin 14 is bits 12 to 14 and pin 15 bits 15
/// to 17, with input encoded as 0, output as 1 and the mini UART's
/// alternate function 5 as 2. Writing one pin's function keeps every bit
/// outside its field.
pub proof fn law_pin_function(v: u32, f14: FSEL14, f15: FSEL15, other: u32)
    requires
        other < 32,
    ensures
        ((<GPFSEL1 as RegisterSetField<FSEL14>>::with_field_spec(GPFSEL1(v), f14)).0 >> 12u32) & 7 == match f14 {
            FSEL14::Input => 0u32,
            FSEL14::Output => 1u32,
            FSEL14::TXD1 => 2u32,
        },
        other < 12 || other >= 15 ==> ((<GPFSEL1 as RegisterSetField<FSEL14>>::with_field_spec(GPFSEL1(v), f14)).0 >> other) & 1 == (v >> other) & 1,
        ((<GPFSEL1 as RegisterSetField<FSEL15>>::with_field_spec(GPFSEL1(v), f15)).0 >> 15u32) & 7 == match f15 {
            FSEL15::Input => 0u32,
            FSEL15::Output => 1u32,
            FSEL15::RXD1 => 2u32,
        },
        other < 15 || other >= 18 ==> ((<GPFSEL1 as RegisterSetField<FSEL15>>::with_field_spec(GPFSEL1(v), f15)).0 >> other) & 1 == (v >> other) & 1,
{
    lemma_field_widths();
    lemma_with_field32_bits(v, 12, 3, f14.bits_spec(), other);
    lemma_with_field32_bits(v, 15, 3, f15.bits_spec(), other);
}

/// Pull-up/down clocks in `GPPUDCLK0`: pin 14 is bit 14 and pin 15 bit 15,
/// set to assert the clock and clear for no effect. Writing one pin's clock
/// keeps every other bit.
pub proof fn law_pull_clock(v: u32, p14: PUDCLK14, p15: PUDCLK15, other: u32)
    requires
        other < 32,
    ensures
        ((<GPPUDCLK0 as RegisterSetField<PUDCLK14>>::with_field_spec(GPPUDCLK0(v), p14)).0 >> 14u32) & 1 == (if p14 == PUDCLK14::AssertClock { 1u32 } else { 0u32 }),
        other != 14 ==> ((<GPPUDCLK0 as RegisterSetField<PUDCLK14>>::with_field_spec(GPPUDCLK0(v), p14)).0 >> other) & 1 == (v >> other) & 1,
        ((<GPPUDCLK0 as RegisterSetField<PUDCLK15>>::with_field_spec(GPPUDCLK0(v), p15)).0 >> 15u32) & 1 == (if p15 == PUDCLK15::AssertClock { 1u32 } else { 0u32 }),
        other != 15 ==> ((<GPPUDCLK0 as RegisterSetField<PUDCLK15>>::with_field_spec(GPPUDCLK0(v), p15)).0 >> other) & 1 == (v >> other) & 1,
{
    lemma_field_widths();
    lemma_with_field32_bits(v, 14, 1, p14.bits_spec(), other);
    lemma_with_field32_bits(v, 15, 1, p15.bits_spec(), other);
}

} // verus!
