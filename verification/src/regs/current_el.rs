//! Current Exception Level register.
use vstd::prelude::*;

use super::RegisterGetField;

verus! {

/// Current Exception Level register.
#[derive(Debug, Clone, Copy, PartialEq, Eq, Structural)]
pub struct CurrentEL(pub u64);

/// Exception level, bits 2 and 3.
#[derive(Debug, Clone, Copy, PartialEq, Eq, Structural)]
pub enum EL {
    _0,
    _1,
    _2,
    _3,
}

/// The exception level encoded by the two bits `v`.
pub open spec fn el_of(v: u64) -> EL {
    if v == 0 {
        EL::_0
    } else if v == 1 {
        EL::_1
    } else if v == 2 {
        EL::_2
    } else {
        EL::_3
    }
}

impl RegisterGetField<EL> for CurrentEL {
    open spec fn field_spec(&self) -> EL {
        el_of((self.0 & 0xc) >> 2)
    }

    fn get_field(&self) -> (r: EL) {
        let raw = self.0;
        let v = (raw & 0xc) >> 2;
        proof {
            assert(v <= 3) by (bit_vector)
                requires
                    v == (raw & 0xc) >> 2,
            ;
        }
        match v {
            0 => EL::_0,
            1 => EL::_1,
            2 => EL::_2,
            _ => EL::_3,
        }
    }
}

/// The exception level is the value of bits 2 and 3: level `k` exactly
/// when `(v / 4) % 4 == k`.
pub proof fn law_exception_level(v: u64)
    ensures
        (<CurrentEL as RegisterGetField<EL>>::field_spec(&CurrentEL(v)) == EL::_0) == ((v / 4) % 4 == 0),
        (<CurrentEL as RegisterGetField<EL>>::field_spec(&CurrentEL(v)) == EL::_1) == ((v / 4) % 4 == 1),
        (<CurrentEL as RegisterGetField<EL>>::field_spec(&CurrentEL(v)) == EL::_2) == ((v / 4) % 4 == 2),
        (<CurrentEL as RegisterGetField<EL>>::field_spec(&CurrentEL(v)) == EL::_3) == ((v / 4) % 4 == 3),
{
    assert((v & 0xc) >> 2 == (v / 4) % 4) by (bit_vector);
}

} // verus!
