use vstd::prelude::*;

verus! {

/// The progress reporter's stop rule: once configured to stop on the first
/// find, it returns as soon as a snapshot shows any good collision.
pub fn printer_should_stop(stop_on_found: bool, collisions: u64) -> (r: bool)
    ensures
        r == (stop_on_found && collisions > 0),
{
    stop_on_found && collisions > 0
}

} // verus!
