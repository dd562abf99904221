//! General utility functions
use vstd::prelude::*;

verus! {

/// Pause the CPU for a moment (`core::hint::spin_loop`, which has no effect
/// on the program state).
#[verifier::external_body]
fn spin_loop_hint() {
    core::hint::spin_loop();
}

/// Retries the condition `n` times and returns if it was successfull.
/// This pauses the CPU between retries.
pub fn spin_wait<F: Fn() -> bool>(n: usize, cond: F) -> (r: bool)
    requires
        cond.requires(()),
    ensures
        r ==> n > 0 && cond.ensures((), true),
        !r ==> n == 0 || cond.ensures((), false),
{
    let mut i: usize = 0;
    while i < n
        invariant
            i <= n,
            cond.requires(()),
            i > 0 ==> cond.ensures((), false),
        decreases n - i,
    {
        if cond() {
            return true;
        }
        spin_loop_hint();
        i = i + 1;
    }
    false
}

} // verus!
