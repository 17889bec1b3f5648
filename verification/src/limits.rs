//! How many files the process may have open.

use vstd::prelude::*;

verus! {

/// The number of open files that is asked for.
pub const WANTED_FILES: u64 = 8192;

/// The limit on open files that is wanted where the system allows up to `max`.
pub open spec fn wanted_limit(max: u64) -> u64 {
    if max < WANTED_FILES {
        max
    } else {
        WANTED_FILES
    }
}

/// The limit to set where `current` is the limit that holds, and the system allows up to `max`. A
/// limit that is high enough is left as it is.
pub fn raise_fd_limit(current: u64, max: u64) -> (r: Option<u64>)
    ensures
        r == if current < wanted_limit(max) {
            Some(wanted_limit(max))
        } else {
            None
        },
        r matches Some(limit) ==> {
            &&& current < limit <= max
            &&& limit <= 8192
            &&& limit == max || limit == 8192
        },
        r is None <==> current >= max || current >= 8192,
{
    let target: u64 = if max < WANTED_FILES {
        max
    } else {
        WANTED_FILES
    };
    if current < target {
        Some(target)
    } else {
        None
    }
}

/// The limit that is wanted is the highest that the system allows and that is asked for.
pub proof fn law_wanted_limit(max: u64, limit: u64)
    ensures
        wanted_limit(max) <= max,
        wanted_limit(max) <= 8192,
        limit <= max && limit <= 8192 ==> limit <= wanted_limit(max),
{
}

} // verus!
