//! Vector Base Address register of EL1.
use vstd::prelude::*;

use super::RegisterSetField;

verus! {

/// Vector Base Address register (EL1).
#[allow(non_camel_case_types)]
#[derive(Debug, Clone, Copy, PartialEq, Eq, Structural)]
pub struct VBAR_EL1(pub u64);

impl Default for VBAR_EL1 {
    fn default() -> (r: Self)
        ensures
            r.0 == 0,
    {
        VBAR_EL1(0)
    }
}

/// The vector base is the address of the 2 KiB exception vector table.
impl RegisterSetField<u64> for VBAR_EL1 {
    open spec fn with_field_spec(self, field: u64) -> Self {
        VBAR_EL1(field)
    }

    fn set_field(self, field: u64) -> (r: Self) {
        VBAR_EL1(field)
    }
}

} // verus!
