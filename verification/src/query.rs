//! What the background query decides in each round: how long the round
//! pauses, and the prices it reports, from the random draws it is given.
use vstd::prelude::*;

verus! {

/// The number of rounds a query runs.
pub const ROUNDS: u32 = 12;

/// The pause of a round, in seconds, for a random draw: one to three.
pub fn pause_seconds(draw: u64) -> (secs: u64)
    ensures
        secs == draw % 3 + 1,
        1 <= secs <= 3,
{
    draw % 3 + 1
}

/// The price column of a round: one random byte per fruit, widened.
pub fn prices(draws: [u8; 3]) -> (column: Vec<u32>)
    ensures
        column@.len() == 3,
        forall|i: int| 0 <= i < 3 ==> column@[i] == draws@[i] as u32,
{
    let mut column: Vec<u32> = Vec::new();
    let mut i: usize = 0;
    while i < 3
        invariant
            i <= 3,
            column@.len() == i,
            forall|k: int| 0 <= k < i ==> column@[k] == draws@[k] as u32,
        decreases 3 - i,
    {
        column.push(draws[i] as u32);
        i = i + 1;
    }
    column
}

} // verus!
