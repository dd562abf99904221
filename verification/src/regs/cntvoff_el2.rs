//! Counter-timer Virtual Offset register.
use vstd::prelude::*;

verus! {

/// Counter-timer Virtual Offset register (EL2); only written as a whole.
#[allow(non_camel_case_types)]
#[derive(Debug, Clone, Copy, PartialEq, Eq, Structural)]
pub struct CNTVOFF_EL2(pub u64);

impl Default for CNTVOFF_EL2 {
    fn default() -> (r: Self)
        ensures
            r.0 == 0,
    {
        CNTVOFF_EL2(0)
    }
}

} // verus!
