//! What the platform answers, read as values: the program break and the thread-exit hooks.

use vstd::prelude::*;

verus! {

/// The address that the platform's program-break call hands back when it fails.
pub const BRK_FAILED: usize = usize::MAX;

/// Reads the answer of the platform's program-break call: the address at which the new
/// memory starts, which is where the data segment ended before; `Err` for the one value
/// by which the call reports that it failed.
pub fn sbrk(reported: usize) -> (r: Result<usize, ()>)
    ensures
        reported == BRK_FAILED ==> r == Err::<usize, ()>(()),
        reported != BRK_FAILED ==> r == Ok::<usize, ()>(reported),
{
    if reported == BRK_FAILED {
        Err(())
    } else {
        Ok(reported)
    }
}

/// Decides whether a hook for the exit of the current thread is to be registered: it is
/// wherever the platform supports such hooks (`Ok`); where it does not, none can be, and
/// memory of the thread would be lost at its exit (`Err`).
pub fn register_thread_destructor(supported: bool) -> (r: Result<(), ()>)
    ensures
        r is Ok <==> supported,
{
    if supported {
        Ok(())
    } else {
        Err(())
    }
}

} // verus!
