//! Screen orientation requests. Off Android there is no activity to rotate:
//! requesting an orientation succeeds without effect, and the screen counts
//! as landscape.

use vstd::prelude::*;

verus! {

/// Request landscape (`true`) or portrait orientation. Succeeds.
pub fn set_orientation(landscape: bool) -> (r: Result<(), String>)
    ensures
        r is Ok,
{
    Ok(())
}

/// Is the screen in landscape orientation? Always `Ok(true)`.
pub fn is_landscape() -> (r: Result<bool, String>)
    ensures
        r == Ok::<bool, String>(true),
{
    Ok(true)
}

} // verus!
