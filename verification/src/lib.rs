//! The verified core of a modal/overlay stack for a retained UI: which overlays
//! are open and in what order, when the input gate is armed, which overlay a
//! dismiss or an Escape closes, what each close reports, how keyboard focus
//! moves, how many toasts show, and how the builders' specs turn into the
//! panels that are spawned.

pub mod builder;
pub mod confirm;
pub mod events;
pub mod focus;
pub mod gate;
pub mod stack;
pub mod toast;
pub mod widgets;

pub use builder::{button_look, ButtonLook, ButtonSpec, OverlaySpec, PointerState};
pub use confirm::ConfirmSpec;
pub use events::{CloseAction, CloseReason, CloseReasons, OverlayClosed};
pub use focus::{FocusCommand, Focusable, HoverChange, KeyState, NavDirection, Nudge};
pub use gate::{ui_not_capturing, UiCapturing};
pub use stack::{OverlayStack, Z_BASE, Z_STEP};
pub use toast::{Palette, ToastLevel, ToastPosition, ToastSpec, TOAST_Z};
