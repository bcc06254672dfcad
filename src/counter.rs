//! The shared-counter exercise: a worker adds a fixed number of increments.
use vstd::prelude::*;

verus! {

/// Number of increments each worker performs.
pub const NUM_INCREMENTOS: i32 = 10000000;

/// Adds one to the counter, `NUM_INCREMENTOS` times.
pub fn incrementa(contador: &mut i32)
    requires
        *old(contador) + NUM_INCREMENTOS <= i32::MAX,
    ensures
        *final(contador) == *old(contador) + NUM_INCREMENTOS,
{
    let mut i: i32 = 0;
    while i < NUM_INCREMENTOS
        invariant
            0 <= i <= NUM_INCREMENTOS,
            *contador == *old(contador) + i,
            *old(contador) + NUM_INCREMENTOS <= i32::MAX,
        decreases NUM_INCREMENTOS - i,
    {
        *contador = *contador + 1;
        i = i + 1;
    }
}

} // verus!
