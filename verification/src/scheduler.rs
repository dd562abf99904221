//! Saved thread state and the scheduler's address space identifiers.
use vstd::prelude::*;

verus! {

/// Registers of a suspended thread.
pub struct Thread {
    /// General purpose registers; slot 0 (the zero register) holds the hart id.
    pub registers: [usize; 64],
    /// Program counter to resume at.
    pub sepc: usize,
}

impl Thread {
    /// Store the hart id in the slot of the zero register.
    pub fn set_hart_id(&mut self, hart_id: usize)
        ensures
            final(self).registers@ == old(self).registers@.update(0, hart_id),
            final(self).sepc == old(self).sepc,
    {
        self.registers[0] = hart_id;
    }

    /// The hart id stored by `set_hart_id`.
    pub fn hart_id(&self) -> (r: usize)
        ensures
            r == self.registers@[0],
    {
        self.registers[0]
    }
}

/// Bitmap of the address space identifiers in use.
pub struct Scheduler {
    asid_bitmap: [u32; 2048],
}

/// Reading the hart id gives back what `set_hart_id` stored, and no other
/// register changes.
pub proof fn law_hart_id_roundtrip(before: Thread, after: Thread, hart_id: usize)
    requires
        after.registers@ == before.registers@.update(0, hart_id),
    ensures
        after.registers@[0] == hart_id,
        forall|i: int| 1 <= i < 64 ==> #[trigger] after.registers@[i] == before.registers@[i],
{
}

} // verus!
