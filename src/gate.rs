use vstd::prelude::*;

verus! {

/// Flushes to see before new books trade instead of rejecting crossings.
pub const WARM_UP_FLUSHES: u32 = 10;

/// Whether a book created after `flushes` flushes has trading enabled.
pub fn trading_enabled_after(flushes: u32) -> (r: bool)
    ensures
        r == (flushes >= WARM_UP_FLUSHES),
{
    flushes >= WARM_UP_FLUSHES
}

} // verus!
