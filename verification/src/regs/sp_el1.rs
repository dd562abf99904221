//! Stack Pointer register of EL1.
use vstd::prelude::*;

use super::RegisterSetField;

verus! {

/// Stack Pointer (EL1).
#[allow(non_camel_case_types)]
#[derive(Debug, Clone, Copy, PartialEq, Eq, Structural)]
pub struct SP_EL1(pub u64);

impl Default for SP_EL1 {
    fn default() -> (r: Self)
        ensures
            r.0 == 0,
    {
        SP_EL1(0)
    }
}

/// The stack pointer is the address of the stack's top.
impl RegisterSetField<u64> for SP_EL1 {
    open spec fn with_field_spec(self, field: u64) -> Self {
        SP_EL1(field)
    }

    fn set_field(self, field: u64) -> (r: Self) {
        SP_EL1(field)
    }
}

} // verus!
