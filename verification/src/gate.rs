//! The UI-to-gameplay occlusion plane. [`UiCapturing`] is true while any
//! overlay is open; raw-input gameplay systems run only while
//! [`ui_not_capturing`] holds, which is the default when nothing is open.

use crate::stack::OverlayStack;
use vstd::prelude::*;

verus! {

/// Whether an open overlay captures input.
#[derive(Clone, Copy, PartialEq, Eq, Debug, Structural)]
pub struct UiCapturing(pub bool);

impl UiCapturing {
    /// Input capture as the stack determines it: on exactly while an overlay is
    /// open.
    pub fn from_stack(stack: &OverlayStack) -> (r: Self)
        ensures
            r.0 == (stack@.len() > 0),
    {
        UiCapturing(stack.capturing())
    }
}

/// The run condition for raw-input gameplay systems: passes exactly while no
/// overlay captures input.
pub fn ui_not_capturing(capturing: &UiCapturing) -> (r: bool)
    ensures
        r == !capturing.0,
{
    !capturing.0
}

} // verus!
