//! Counter-timer Hypervisor Control register.
use vstd::prelude::*;

use super::{
    bit_of, get_bit, lemma_with_bit_bits, set_bit, with_bit, RegisterGetField, RegisterSetField,
};

verus! {

/// Counter-timer Hypervisor Control register (EL2).
#[allow(non_camel_case_types)]
#[derive(Debug, Clone, Copy, PartialEq, Eq, Structural)]
pub struct CNTHCTL_EL2(pub u64);

/// Bit 0: EL0 and EL1 may access the physical counter.
pub struct EL1PCTEN(pub bool);

/// Bit 1: EL0 and EL1 may access the physical timer.
pub struct EL1PCEN(pub bool);

impl Default for CNTHCTL_EL2 {
    fn default() -> (r: Self)
        ensures
            r.0 == 0,
    {
        CNTHCTL_EL2(0)
    }
}

impl RegisterGetField<EL1PCTEN> for CNTHCTL_EL2 {
    open spec fn field_spec(&self) -> EL1PCTEN {
        EL1PCTEN(bit_of(self.0, 0))
    }

    fn get_field(&self) -> (r: EL1PCTEN) {
        EL1PCTEN(get_bit(self.0, 0))
    }
}

impl RegisterSetField<EL1PCTEN> for CNTHCTL_EL2 {
    open spec fn with_field_spec(self, field: EL1PCTEN) -> Self {
        CNTHCTL_EL2(with_bit(self.0, 0, field.0))
    }

    fn set_field(self, field: EL1PCTEN) -> (r: Self) {
        CNTHCTL_EL2(set_bit(self.0, 0, field.0))
    }
}

impl RegisterGetField<EL1PCEN> for CNTHCTL_EL2 {
    open spec fn field_spec(&self) -> EL1PCEN {
        EL1PCEN(bit_of(self.0, 1))
    }

    fn get_field(&self) -> (r: EL1PCEN) {
        EL1PCEN(get_bit(self.0, 1))
    }
}

impl RegisterSetField<EL1PCEN> for CNTHCTL_EL2 {
    open spec fn with_field_spec(self, field: EL1PCEN) -> Self {
        CNTHCTL_EL2(with_bit(self.0, 1, field.0))
    }

    fn set_field(self, field: EL1PCEN) -> (r: Self) {
        CNTHCTL_EL2(set_bit(self.0, 1, field.0))
    }
}

/// Counter access: `EL1PCTEN` is bit 0 and `EL1PCEN` bit 1. Reading either
/// field gives its bit; writing it sets that bit to the value written and
/// keeps every other bit.
pub proof fn law_counter_access(v: u64, on: bool, other: u64)
    requires
        other < 64,
    ensures
        (<CNTHCTL_EL2 as RegisterGetField<EL1PCTEN>>::field_spec(&CNTHCTL_EL2(v))).0 == ((v >> 0u64) & 1 == 1),
        (<CNTHCTL_EL2 as RegisterGetField<EL1PCEN>>::field_spec(&CNTHCTL_EL2(v))).0 == ((v >> 1u64) & 1 == 1),
        ((<CNTHCTL_EL2 as RegisterSetField<EL1PCTEN>>::with_field_spec(CNTHCTL_EL2(v), EL1PCTEN(on))).0 >> 0u64) & 1
            == (if on { 1u64 } else { 0u64 }),
        other != 0 ==> ((<CNTHCTL_EL2 as RegisterSetField<EL1PCTEN>>::with_field_spec(CNTHCTL_EL2(v), EL1PCTEN(on))).0
            >> other) & 1 == (v >> other) & 1,
        ((<CNTHCTL_EL2 as RegisterSetField<EL1PCEN>>::with_field_spec(CNTHCTL_EL2(v), EL1PCEN(on))).0 >> 1u64) & 1
            == (if on { 1u64 } else { 0u64 }),
        other != 1 ==> ((<CNTHCTL_EL2 as RegisterSetField<EL1PCEN>>::with_field_spec(CNTHCTL_EL2(v), EL1PCEN(on))).0
            >> other) & 1 == (v >> other) & 1,
{
    lemma_with_bit_bits(v, 0, on, other);
    lemma_with_bit_bits(v, 1, on, other);
}

} // verus!
