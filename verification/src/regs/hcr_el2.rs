//! Hypervisor Configuration register.
use vstd::prelude::*;

use super::{
    bit_of, get_bit, lemma_with_bit_bits, set_bit, with_bit, RegisterGetField, RegisterSetField,
};

verus! {

/// Hypervisor Configuration register (EL2).
#[allow(non_camel_case_types)]
#[derive(Debug, Clone, Copy, PartialEq, Eq, Structural)]
pub struct HCR_EL2(pub u64);

/// Execution state of the lower exception levels, bit 31.
#[derive(Debug, Clone, Copy, PartialEq, Eq, Structural)]
pub enum RW {
    AllLowerELsAreAarch32,
    EL1IsAarch64,
}

impl Default for HCR_EL2 {
    fn default() -> (r: Self)
        ensures
            r.0 == 0,
    {
        HCR_EL2(0)
    }
}

impl RegisterGetField<RW> for HCR_EL2 {
    open spec fn field_spec(&self) -> RW {
        if bit_of(self.0, 31) {
            RW::EL1IsAarch64
        } else {
            RW::AllLowerELsAreAarch32
        }
    }

    fn get_field(&self) -> (r: RW) {
        proof {
            let v = self.0;
            assert(((v >> 31u64) & 1 == 1) == (v & (1u64 << 31u64) != 0)) by (bit_vector);
            assert((v >> 31u64) & 1 <= 1) by (bit_vector);
        }
        match (self.0 >> 31) & 0x1 {
            0 => RW::AllLowerELsAreAarch32,
            _ => RW::EL1IsAarch64,
        }
    }
}

impl RegisterSetField<RW> for HCR_EL2 {
    open spec fn with_field_spec(self, field: RW) -> Self {
        HCR_EL2(with_bit(self.0, 31, field == RW::EL1IsAarch64))
    }

    fn set_field(self, field: RW) -> (r: Self) {
        match field {
            RW::AllLowerELsAreAarch32 => HCR_EL2(set_bit(self.0, 31, false)),
            RW::EL1IsAarch64 => HCR_EL2(set_bit(self.0, 31, true)),
        }
    }
}

/// The execution state of the lower levels is bit 31: AArch64 exactly when
/// it is set. Writing the field sets bit 31 for `EL1IsAarch64`, clears it
/// for `AllLowerELsAreAarch32`, and keeps every other bit.
pub proof fn law_lower_execution_state(v: u64, rw: RW, other: u64)
    requires
        other < 64,
    ensures
        (<HCR_EL2 as RegisterGetField<RW>>::field_spec(&HCR_EL2(v)) == RW::EL1IsAarch64) == ((v >> 31u64) & 1 == 1),
        ((<HCR_EL2 as RegisterSetField<RW>>::with_field_spec(HCR_EL2(v), rw)).0 >> 31u64) & 1
            == (if rw == RW::EL1IsAarch64 { 1u64 } else { 0u64 }),
        other != 31 ==> ((<HCR_EL2 as RegisterSetField<RW>>::with_field_spec(HCR_EL2(v), rw)).0 >> other) & 1
            == (v >> other) & 1,
{
    lemma_with_bit_bits(v, 31, rw == RW::EL1IsAarch64, other);
}

} // verus!
