//! Saved Program Status register of EL3.
use vstd::prelude::*;

use super::{lemma_low_nibble, lemma_with_bit_bits, set_bit, with_bit, RegisterSetField};

verus! {

/// Saved Program Status register (EL3): the state that an exception
/// return from EL3 restores.
#[allow(non_camel_case_types)]
#[derive(Debug, Clone, Copy, PartialEq, Eq, Structural)]
pub struct SPSR_EL3(pub u64);

/// Exception level and stack pointer to return to, bits 0 to 3.
#[derive(Debug, Clone, Copy, PartialEq, Eq, Structural)]
pub enum M {
    EL0t,
    EL1t,
    EL1h,
    EL2t,
    EL2h,
    EL3t,
    EL3h,
}

/// Bit 9: Debug exceptions masked.
pub struct D(pub bool);

/// Bit 8: SError interrupts masked.
pub struct A(pub bool);

/// Bit 7: IRQ interrupts masked.
pub struct I(pub bool);

/// Bit 6: FIQ interrupts masked.
pub struct F(pub bool);

impl M {
    /// Encoding of the mode.
    pub open spec fn bits_spec(self) -> u64 {
        match self {
            M::EL0t => 0b0000,
            M::EL1t => 0b0100,
            M::EL1h => 0b0101,
            M::EL2t => 0b1000,
            M::EL2h => 0b1001,
            M::EL3t => 0b1100,
            M::EL3h => 0b1101,
        }
    }

    /// Encoding of the mode.
    pub fn bits(self) -> (r: u64)
        ensures
            r == self.bits_spec(),
    {
        match self {
            M::EL0t => 0b0000,
            M::EL1t => 0b0100,
            M::EL1h => 0b0101,
            M::EL2t => 0b1000,
            M::EL2h => 0b1001,
            M::EL3t => 0b1100,
            M::EL3h => 0b1101,
        }
    }
}

impl Default for SPSR_EL3 {
    fn default() -> (r: Self)
        ensures
            r.0 == 0,
    {
        SPSR_EL3(0)
    }
}

impl RegisterSetField<M> for SPSR_EL3 {
    open spec fn with_field_spec(self, field: M) -> Self {
        SPSR_EL3((self.0 & !0b1111u64) | field.bits_spec())
    }

    fn set_field(self, field: M) -> (r: Self) {
        SPSR_EL3((self.0 & !0b1111) | field.bits())
    }
}

impl RegisterSetField<D> for SPSR_EL3 {
    open spec fn with_field_spec(self, field: D) -> Self {
        SPSR_EL3(with_bit(self.0, 9, field.0))
    }

    fn set_field(self, field: D) -> (r: Self) {
        SPSR_EL3(set_bit(self.0, 9, field.0))
    }
}

impl RegisterSetField<A> for SPSR_EL3 {
    open spec fn with_field_spec(self, field: A) -> Self {
        SPSR_EL3(with_bit(self.0, 8, field.0))
    }

    fn set_field(self, field: A) -> (r: Self) {
        SPSR_EL3(set_bit(self.0, 8, field.0))
    }
}

impl RegisterSetField<I> for SPSR_EL3 {
    open spec fn with_field_spec(self, field: I) -> Self {
        SPSR_EL3(with_bit(self.0, 7, field.0))
    }

    fn set_field(self, field: I) -> (r: Self) {
        SPSR_EL3(set_bit(self.0, 7, field.0))
    }
}

impl RegisterSetField<F> for SPSR_EL3 {
    open spec fn with_field_spec(self, field: F) -> Self {
        SPSR_EL3(with_bit(self.0, 6, field.0))
    }

    fn set_field(self, field: F) -> (r: Self) {
        SPSR_EL3(set_bit(self.0, 6, field.0))
    }
}

/// The exception masks are single bits: debug (`D`) bit 9, SError (`A`)
/// bit 8, IRQ (`I`) bit 7 and FIQ (`F`) bit 6. Writing a mask sets its bit
/// to the value written and keeps every other bit.
pub proof fn law_exception_masks(v: u64, on: bool, other: u64)
    requires
        other < 64,
    ensures
        ((<SPSR_EL3 as RegisterSetField<D>>::with_field_spec(SPSR_EL3(v), D(on))).0 >> 9u64) & 1 == (if on { 1u64 } else { 0u64 }),
        other != 9 ==> ((<SPSR_EL3 as RegisterSetField<D>>::with_field_spec(SPSR_EL3(v), D(on))).0 >> other) & 1 == (v >> other) & 1,
        ((<SPSR_EL3 as RegisterSetField<A>>::with_field_spec(SPSR_EL3(v), A(on))).0 >> 8u64) & 1 == (if on { 1u64 } else { 0u64 }),
        other != 8 ==> ((<SPSR_EL3 as RegisterSetField<A>>::with_field_spec(SPSR_EL3(v), A(on))).0 >> other) & 1 == (v >> other) & 1,
        ((<SPSR_EL3 as RegisterSetField<I>>::with_field_spec(SPSR_EL3(v), I(on))).0 >> 7u64) & 1 == (if on { 1u64 } else { 0u64 }),
        other != 7 ==> ((<SPSR_EL3 as RegisterSetField<I>>::with_field_spec(SPSR_EL3(v), I(on))).0 >> other) & 1 == (v >> other) & 1,
        ((<SPSR_EL3 as RegisterSetField<F>>::with_field_spec(SPSR_EL3(v), F(on))).0 >> 6u64) & 1 == (if on { 1u64 } else { 0u64 }),
        other != 6 ==> ((<SPSR_EL3 as RegisterSetField<F>>::with_field_spec(SPSR_EL3(v), F(on))).0 >> other) & 1 == (v >> other) & 1,
{
    lemma_with_bit_bits(v, 9, on, other);
    lemma_with_bit_bits(v, 8, on, other);
    lemma_with_bit_bits(v, 7, on, other);
    lemma_with_bit_bits(v, 6, on, other);
}

/// Writing the mode puts its architectural encoding in the low four bits
/// (`EL0t` 0, `EL1t` 4, `EL1h` 5, `EL2t` 8, `EL2h` 9, `EL3t` 12, `EL3h` 13)
/// and keeps every bit above them.
pub proof fn law_mode(v: u64, m: M)
    ensures
        (<SPSR_EL3 as RegisterSetField<M>>::with_field_spec(SPSR_EL3(v), m)).0 & 15 == match m {
            M::EL0t => 0u64,
            M::EL1t => 4u64,
            M::EL1h => 5u64,
            M::EL2t => 8u64,
            M::EL2h => 9u64,
            M::EL3t => 12u64,
            M::EL3h => 13u64,
        },
        (<SPSR_EL3 as RegisterSetField<M>>::with_field_spec(SPSR_EL3(v), m)).0 >> 4u64 == v >> 4u64,
{
    lemma_low_nibble(v, m.bits_spec());
}

} // verus!
