//! Register values of the BCM2837 mini UART.
use vstd::prelude::*;

use crate::regs::{
    lemma_field_widths, lemma_with_field32_bits, set_field32, with_field32, RegisterGetField,
    RegisterSetField,
};

verus! {

/// Auxiliary enables.
#[allow(non_camel_case_types)]
#[derive(Debug, Clone, Copy, PartialEq, Eq, Structural)]
pub struct AUX_ENABLES(pub u32);

impl Default for AUX_ENABLES {
    fn default() -> (r: Self)
        ensures
            r.0 == 0,
    {
        AUX_ENABLES(0)
    }
}

/// Enables the mini UART.
#[allow(non_camel_case_types)]
pub struct MINI_UART_ENABLE(pub bool);

/// Bit 0.
impl RegisterSetField<MINI_UART_ENABLE> for AUX_ENABLES {
    open spec fn with_field_spec(self, field: MINI_UART_ENABLE) -> Self {
        AUX_ENABLES(with_field32(self.0, 0, 1, if field.0 { 1 } else { 0 }))
    }

    fn set_field(self, field: MINI_UART_ENABLE) -> (r: Self) {
        AUX_ENABLES(set_field32(self.0, 0, 1, if field.0 { 1 } else { 0 }))
    }
}

/// Mini UART Interrupt Identify.
#[allow(non_camel_case_types)]
#[derive(Debug, Clone, Copy, PartialEq, Eq, Structural)]
pub struct AUX_MU_IIR(pub u32);

impl Default for AUX_MU_IIR {
    fn default() -> (r: Self)
        ensures
            r.0 == 0,
    {
        AUX_MU_IIR(0)
    }
}

/// Writing bit 1 clears the receive FIFO, bit 2 the transmit FIFO.
#[allow(non_camel_case_types)]
#[derive(Debug, Clone, Copy, PartialEq, Eq, Structural)]
pub enum FIFO_CLEAR {
    Rx,
    Tx,
    All,
}

impl FIFO_CLEAR {
    /// Encoding of the value.
    pub open spec fn bits_spec(self) -> u32 {
        match self {
            FIFO_CLEAR::Rx => 0b01,
            FIFO_CLEAR::Tx => 0b10,
            FIFO_CLEAR::All => 0b11,
        }
    }

    /// Encoding of the value.
    pub fn bits(self) -> (r: u32)
        ensures
            r == self.bits_spec(),
    {
        match self {
            FIFO_CLEAR::Rx => 0b01,
            FIFO_CLEAR::Tx => 0b10,
            FIFO_CLEAR::All => 0b11,
        }
    }
}

/// Bits 1 to 2.
impl RegisterSetField<FIFO_CLEAR> for AUX_MU_IIR {
    open spec fn with_field_spec(self, field: FIFO_CLEAR) -> Self {
        AUX_MU_IIR(with_field32(self.0, 1, 2, field.bits_spec()))
    }

    fn set_field(self, field: FIFO_CLEAR) -> (r: Self) {
        AUX_MU_IIR(set_field32(self.0, 1, 2, field.bits()))
    }
}

/// Mini UART Line Control.
#[allow(non_camel_case_types)]
#[derive(Debug, Clone, Copy, PartialEq, Eq, Structural)]
pub struct AUX_MU_LCR(pub u32);

impl Default for AUX_MU_LCR {
    fn default() -> (r: Self)
        ensures
            r.0 == 0,
    {
        AUX_MU_LCR(0)
    }
}

/// Data size the UART works with.
#[allow(non_camel_case_types)]
#[derive(Debug, Clone, Copy, PartialEq, Eq, Structural)]
pub enum DATA_SIZE {
    SevenBit,
    EightBit,
}

impl DATA_SIZE {
    /// Encoding of the value.
    pub open spec fn bits_spec(self) -> u32 {
        match self {
            DATA_SIZE::SevenBit => 0b00,
            DATA_SIZE::EightBit => 0b11,
        }
    }

    /// Encoding of the value.
    pub fn bits(self) -> (r: u32)
        ensures
            r == self.bits_spec(),
    {
        match self {
            DATA_SIZE::SevenBit => 0b00,
            DATA_SIZE::EightBit => 0b11,
        }
    }
}

/// Bits 0 to 1.
impl RegisterSetField<DATA_SIZE> for AUX_MU_LCR {
    open spec fn with_field_spec(self, field: DATA_SIZE) -> Self {
        AUX_MU_LCR(with_field32(self.0, 0, 2, field.bits_spec()))
    }

    fn set_field(self, field: DATA_SIZE) -> (r: Self) {
        AUX_MU_LCR(set_field32(self.0, 0, 2, field.bits()))
    }
}

/// Mini UART Line Status.
#[allow(non_camel_case_types)]
#[derive(Debug, Clone, Copy, PartialEq, Eq, Structural)]
pub struct AUX_MU_LSR(pub u32);

/// Set if the receive FIFO holds at least one symbol.
#[allow(non_camel_case_types)]
pub struct DATA_READY(pub bool);

/// Bit 0.
impl RegisterGetField<DATA_READY> for AUX_MU_LSR {
    open spec fn field_spec(&self) -> DATA_READY {
        DATA_READY(self.0 & (1u32 << 0u32) != 0)
    }

    fn get_field(&self) -> (r: DATA_READY) {
        DATA_READY((self.0 & (1 << 0)) != 0)
    }
}

/// Set if the transmit FIFO can accept at least one byte.
#[allow(non_camel_case_types)]
pub struct TX_EMPTY(pub bool);

/// Bit 5.
impl RegisterGetField<TX_EMPTY> for AUX_MU_LSR {
    open spec fn field_spec(&self) -> TX_EMPTY {
        TX_EMPTY(self.0 & (1u32 << 5u32) != 0)
    }

    fn get_field(&self) -> (r: TX_EMPTY) {
        TX_EMPTY((self.0 & (1 << 5)) != 0)
    }
}

/// Mini UART Extra Control.
#[allow(non_camel_case_types)]
#[derive(Debug, Clone, Copy, PartialEq, Eq, Structural)]
pub struct AUX_MU_CNTL(pub u32);

impl Default for AUX_MU_CNTL {
    fn default() -> (r: Self)
        ensures
            r.0 == 0,
    {
        AUX_MU_CNTL(0)
    }
}

/// Enables the receiver.
#[allow(non_camel_case_types)]
pub struct RX_EN(pub bool);

/// Bit 0.
impl RegisterSetField<RX_EN> for AUX_MU_CNTL {
    open spec fn with_field_spec(self, field: RX_EN) -> Self {
        AUX_MU_CNTL(with_field32(self.0, 0, 1, if field.0 { 1 } else { 0 }))
    }

    fn set_field(self, field: RX_EN) -> (r: Self) {
        AUX_MU_CNTL(set_field32(self.0, 0, 1, if field.0 { 1 } else { 0 }))
    }
}

/// Enables the transmitter.
#[allow(non_camel_case_types)]
pub struct TX_EN(pub bool);

/// Bit 1.
impl RegisterSetField<TX_EN> for AUX_MU_CNTL {
    open spec fn with_field_spec(self, field: TX_EN) -> Self {
        AUX_MU_CNTL(with_field32(self.0, 1, 1, if field.0 { 1 } else { 0 }))
    }

    fn set_field(self, field: TX_EN) -> (r: Self) {
        AUX_MU_CNTL(set_field32(self.0, 1, 1, if field.0 { 1 } else { 0 }))
    }
}

/// Mini UART Baud rate.
#[allow(non_camel_case_types)]
#[derive(Debug, Clone, Copy, PartialEq, Eq, Structural)]
pub struct AUX_MU_BAUD(pub u32);

impl Default for AUX_MU_BAUD {
    fn default() -> (r: Self)
        ensures
            r.0 == 0,
    {
        AUX_MU_BAUD(0)
    }
}

/// Baud rate counter.
#[allow(non_camel_case_types)]
pub struct RATE(pub u16);

/// Bits 0 to 15.
impl RegisterSetField<RATE> for AUX_MU_BAUD {
    open spec fn with_field_spec(self, field: RATE) -> Self {
        AUX_MU_BAUD(with_field32(self.0, 0, 16, field.0 as u32))
    }

    fn set_field(self, field: RATE) -> (r: Self) {
        AUX_MU_BAUD(set_field32(self.0, 0, 16, field.0 as u32))
    }
}

/// Line status: data is ready exactly when bit 0 (the lowest) is set, and
/// the transmitter can take a byte exactly when bit 5 is set.
pub proof fn law_line_status(v: u32)
    ensures
        (<AUX_MU_LSR as RegisterGetField<DATA_READY>>::field_spec(&AUX_MU_LSR(v))).0 == (v % 2 == 1),
        (<AUX_MU_LSR as RegisterGetField<TX_EMPTY>>::field_spec(&AUX_MU_LSR(v))).0 == ((v / 32) % 2 == 1),
{
    assert((v & (1u32 << 0u32) != 0) == (v % 2 == 1) && (v & (1u32 << 5u32) != 0) == ((v / 32) % 2 == 1)) by (bit_vector);
}

/// The switches are single bits: the mini UART enable is bit 0 of
/// `AUX_ENABLES`, the receiver enable bit 0 and the transmitter enable bit 1
/// of `AUX_MU_CNTL`. Writing one sets its bit to the value written and keeps
/// every other bit.
pub proof fn law_enable_bits(v: u32, on: bool, other: u32)
    requires
        other < 32,
    ensures
        ((<AUX_ENABLES as RegisterSetField<MINI_UART_ENABLE>>::with_field_spec(AUX_ENABLES(v), MINI_UART_ENABLE(on))).0 >> 0u32) & 1 == (if on { 1u32 } else { 0u32 }),
        other != 0 ==> ((<AUX_ENABLES as RegisterSetField<MINI_UART_ENABLE>>::with_field_spec(AUX_ENABLES(v), MINI_UART_ENABLE(on))).0 >> other) & 1 == (v >> other) & 1,
        ((<AUX_MU_CNTL as RegisterSetField<RX_EN>>::with_field_spec(AUX_MU_CNTL(v), RX_EN(on))).0 >> 0u32) & 1 == (if on { 1u32 } else { 0u32 }),
        other != 0 ==> ((<AUX_MU_CNTL as RegisterSetField<RX_EN>>::with_field_spec(AUX_MU_CNTL(v), RX_EN(on))).0 >> other) & 1 == (v >> other) & 1,
        ((<AUX_MU_CNTL as RegisterSetField<TX_EN>>::with_field_spec(AUX_MU_CNTL(v), TX_EN(on))).0 >> 1u32) & 1 == (if on { 1u32 } else { 0u32 }),
        other != 1 ==> ((<AUX_MU_CNTL as RegisterSetField<TX_EN>>::with_field_spec(AUX_MU_CNTL(v), TX_EN(on))).0 >> other) & 1 == (v >> other) & 1,
{
    lemma_field_widths();
    lemma_with_field32_bits(v, 0, 1, if on { 1 } else { 0 }, other);
    lemma_with_field32_bits(v, 1, 1, if on { 1 } else { 0 }, other);
}

/// Clearing the FIFOs writes bits 1 and 2 of `AUX_MU_IIR`: bit 1 for the
/// receive FIFO, bit 2 for the transmit FIFO, both for all; every other bit
/// is kept.
pub proof fn law_fifo_clear(v: u32, clear: FIFO_CLEAR, other: u32)
    requires
        other < 32,
    ensures
        ((<AUX_MU_IIR as RegisterSetField<FIFO_CLEAR>>::with_field_spec(AUX_MU_IIR(v), clear)).0 >> 1u32) & 3 == match clear {
            FIFO_CLEAR::Rx => 1u32,
            FIFO_CLEAR::Tx => 2u32,
            FIFO_CLEAR::All => 3u32,
        },
        other < 1 || other >= 3 ==> ((<AUX_MU_IIR as RegisterSetField<FIFO_CLEAR>>::with_field_spec(AUX_MU_IIR(v), clear)).0 >> other) & 1 == (v >> other) & 1,
{
    lemma_field_widths();
    lemma_with_field32_bits(v, 1, 2, clear.bits_spec(), other);
}

/// The data size is bits 0 and 1 of `AUX_MU_LCR`: both clear for seven bits,
/// both set for eight; every other bit is kept.
pub proof fn law_data_size(v: u32, size: DATA_SIZE, other: u32)
    requires
        other < 32,
    ensures
        ((<AUX_MU_LCR as RegisterSetField<DATA_SIZE>>::with_field_spec(AUX_MU_LCR(v), size)).0 >> 0u32) & 3 == (if size == DATA_SIZE::EightBit { 3u32 } else { 0u32 }),
        other >= 2 ==> ((<AUX_MU_LCR as RegisterSetField<DATA_SIZE>>::with_field_spec(AUX_MU_LCR(v), size)).0 >> other) & 1 == (v >> other) & 1,
{
    lemma_field_widths();
    lemma_with_field32_bits(v, 0, 2, size.bits_spec(), other);
}

/// The baud rate counter is the low sixteen bits of `AUX_MU_BAUD`: they
/// read back the rate written, and the bits above them are kept.
pub proof fn law_baud_rate(v: u32, rate: u16, other: u32)
    requires
        other < 32,
    ensures
        ((<AUX_MU_BAUD as RegisterSetField<RATE>>::with_field_spec(AUX_MU_BAUD(v), RATE(rate))).0 >> 0u32) & 0xffff == rate,
        other >= 16 ==> ((<AUX_MU_BAUD as RegisterSetField<RATE>>::with_field_spec(AUX_MU_BAUD(v), RATE(rate))).0 >> other) & 1 == (v >> other) & 1,
{
    lemma_field_widths();
    lemma_with_field32_bits(v, 0, 16, rate as u32, other);
}

} // verus!
