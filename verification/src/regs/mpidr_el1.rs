//! Multiprocessor Affinity register.
use vstd::prelude::*;

verus! {

/// Multiprocessor Affinity register (EL1).
#[allow(non_camel_case_types)]
#[derive(Debug, Clone, Copy, PartialEq, Eq, Structural)]
pub struct MPIDR_EL1(pub u64);

/// Core number within the cluster, the low two bits of affinity level 0.
#[derive(Debug, Clone, Copy, PartialEq, Eq, Structural)]
pub enum Aff0 {
    _0,
    _1,
    _2,
    _3,
}

/// The core encoded by the two bits `v`.
pub open spec fn aff0_of(v: u64) -> Aff0 {
    if v == 0 {
        Aff0::_0
    } else if v == 1 {
        Aff0::_1
    } else if v == 2 {
        Aff0::_2
    } else {
        Aff0::_3
    }
}

impl MPIDR_EL1 {
    /// The core this register value belongs to.
    pub open spec fn core_spec(self) -> Aff0 {
        aff0_of(self.0 & 0x3)
    }

    /// The core this register value belongs to.
    pub fn core_id(&self) -> (r: Aff0)
        ensures
            r == self.core_spec(),
    {
        let raw = self.0;
        let v = raw & 0x3;
        proof {
            assert(v <= 3) by (bit_vector)
                requires
                    v == raw & 0x3,
            ;
        }
        match v {
            0 => Aff0::_0,
            1 => Aff0::_1,
            2 => Aff0::_2,
            _ => Aff0::_3,
        }
    }
}

/// The core number is the value of the two lowest bits: core `k` exactly
/// when `v % 4 == k`.
pub proof fn law_core_id(v: u64)
    ensures
        (MPIDR_EL1(v).core_spec() == Aff0::_0) == (v % 4 == 0),
        (MPIDR_EL1(v).core_spec() == Aff0::_1) == (v % 4 == 1),
        (MPIDR_EL1(v).core_spec() == Aff0::_2) == (v % 4 == 2),
        (MPIDR_EL1(v).core_spec() == Aff0::_3) == (v % 4 == 3),
{
    assert(v & 0x3 == v % 4) by (bit_vector);
}

} // verus!
