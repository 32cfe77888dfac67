//! Leaf widget state changes shared by every input path.

use vstd::prelude::*;

verus! {

/// Flip a toggle, as a pointer click or Enter/Space does, and return the new
/// state that its callback receives.
pub fn flip_toggle(on: &mut bool) -> (new_state: bool)
    ensures
        *final(on) == !*old(on),
        new_state == *final(on),
{
    *on = !*on;
    *on
}

} // verus!
