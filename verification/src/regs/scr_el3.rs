//! Secure Configuration register.
use vstd::prelude::*;

use super::RegisterSetField;

verus! {

/// Secure Configuration register (EL3), written as a whole.
#[allow(non_camel_case_types)]
#[derive(Debug, Clone, Copy, PartialEq, Eq, Structural)]
pub struct SCR_EL3(pub u64);

impl Default for SCR_EL3 {
    fn default() -> (r: Self)
        ensures
            r.0 == 0,
    {
        SCR_EL3(0)
    }
}

/// The whole register.
impl RegisterSetField<u64> for SCR_EL3 {
    open spec fn with_field_spec(self, field: u64) -> Self {
        SCR_EL3(field)
    }

    fn set_field(self, field: u64) -> (r: Self) {
        SCR_EL3(field)
    }
}

} // verus!
