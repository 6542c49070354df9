//! Noticing a request for a progress report.
//!
//! Each request for a report advances a counter that all workers share. A
//! worker keeps the value that it saw last and compares.

use vstd::prelude::*;

verus! {

/// Tells whether a report was asked for since this worker looked last:
/// whether `current`, the value of the shared counter, differs from `seen`,
/// the value that the worker saw last. The worker has seen `current` then.
pub fn check_signal(seen: &mut usize, current: usize) -> (r: bool)
    ensures
        r == (*old(seen) != current),
        *final(seen) == current,
{
    let before: usize = *seen;
    *seen = current;
    before != current
}

} // verus!
