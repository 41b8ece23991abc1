//! The temperatures at which a run measures.

use vstd::prelude::*;

verus! {

/// Number of temperatures of the default schedule.
pub const TEMPERATURES: usize = 12;

/// The default schedule, in halves of a unit of temperature: entry `k` is
/// `k + 1`, for the temperatures 0.5, 1.0, up to 6.0.
pub fn list_temperatures() -> (halves: Vec<u32>)
    ensures
        halves@.len() == TEMPERATURES,
        forall|k: int| 0 <= k < halves@.len() ==> #[trigger] halves@[k] == k + 1,
{
    let mut halves: Vec<u32> = Vec::new();
    for i in 0..12u32
        invariant
            halves@.len() == i,
            forall|k: int| 0 <= k < halves@.len() ==> #[trigger] halves@[k] == k + 1,
    {
        halves.push(i + 1);
    }
    halves
}

} // verus!
