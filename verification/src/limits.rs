//! How many files the program may hold open.

use vstd::prelude::*;

verus! {

/// The number of open files that is asked for.
pub const WANTED_FILES: u64 = 1048576;

/// The soft and the hard limit to ask for when the hard limit is `hard`: the number that is
/// wanted, and no hard limit below what there is.
pub fn nofile_limits(hard: u64) -> (r: (u64, u64))
    ensures
        r.0 == WANTED_FILES,
        r.1 == (if hard > WANTED_FILES {
            hard
        } else {
            WANTED_FILES
        }),
{
    let max: u64 = if hard > WANTED_FILES {
        hard
    } else {
        WANTED_FILES
    };
    (WANTED_FILES, max)
}

} // verus!
