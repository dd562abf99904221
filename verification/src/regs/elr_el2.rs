//! Exception Link register (EL2).
use vstd::prelude::*;

use super::RegisterSetField;

verus! {

/// Exception Link register (EL2): the address that an exception return
/// from EL2 jumps to.
#[allow(non_camel_case_types)]
#[derive(Debug, Clone, Copy, PartialEq, Eq, Structural)]
pub struct ELR_EL2(pub u64);

impl Default for ELR_EL2 {
    fn default() -> (r: Self)
        ensures
            r.0 == 0,
    {
        ELR_EL2(0)
    }
}

/// The return address is the address of the entry function.
impl RegisterSetField<u64> for ELR_EL2 {
    open spec fn with_field_spec(self, field: u64) -> Self {
        ELR_EL2(field)
    }

    fn set_field(self, field: u64) -> (r: Self) {
        ELR_EL2(field)
    }
}

} // verus!
