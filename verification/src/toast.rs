//! Toasts: transient, non-blocking notifications. A toast never touches the
//! overlay stack or the input gate. Its severity picks the accent from the
//! theme's semantic colours unless an accent is given outright, and at most a
//! fixed number show at once: past that, the oldest are dismissed first.

use vstd::prelude::*;

verus! {

/// Global z-index of the toast column: toasts float above overlays.
pub const TOAST_Z: i32 = 100_000;

/// A toast's severity, which selects its accent from the theme.
#[derive(Clone, Copy, PartialEq, Eq, Debug, Structural)]
pub enum ToastLevel {
    Info,
    Success,
    Warning,
    Error,
}

impl Default for ToastLevel {
    fn default() -> (r: Self)
        ensures
            r == ToastLevel::Info,
    {
        ToastLevel::Info
    }
}

/// Which screen edge toasts stack against.
#[derive(Clone, Copy, PartialEq, Eq, Debug, Structural)]
pub enum ToastPosition {
    Top,
    Bottom,
}

impl Default for ToastPosition {
    fn default() -> (r: Self)
        ensures
            r == ToastPosition::Top,
    {
        ToastPosition::Top
    }
}

/// The theme's semantic accents, in whatever colour type the UI uses.
#[derive(Clone, Copy)]
pub struct Palette<C> {
    /// The default accent; `Info` uses it.
    pub accent: C,
    pub success: C,
    pub warning: C,
    pub danger: C,
}

/// The accent a severity selects from the palette.
pub open spec fn level_color<C>(level: ToastLevel, palette: Palette<C>) -> C {
    match level {
        ToastLevel::Info => palette.accent,
        ToastLevel::Success => palette.success,
        ToastLevel::Warning => palette.warning,
        ToastLevel::Error => palette.danger,
    }
}

impl ToastLevel {
    /// The accent this severity selects from the palette.
    pub fn color<C: Copy>(self, palette: &Palette<C>) -> (r: C)
        ensures
            r == level_color(self, *palette),
    {
        match self {
            ToastLevel::Info => palette.accent,
            ToastLevel::Success => palette.success,
            ToastLevel::Warning => palette.warning,
            ToastLevel::Error => palette.danger,
        }
    }
}

/// What a toast builder has collected: the message, the severity, an explicit
/// accent if one was given, and an optional action button (its label and the
/// callback it runs).
pub struct ToastSpec<C, F> {
    pub message: String,
    pub level: ToastLevel,
    pub accent: Option<C>,
    pub action: Option<(String, F)>,
}

impl<C, F> ToastSpec<C, F> {
    /// A toast with this message: `Info`, no explicit accent, no action.
    pub fn new(message: String) -> (r: Self)
        ensures
            r.message == message,
            r.level == ToastLevel::Info,
            r.accent is None,
            r.action is None,
    {
        ToastSpec { message, level: ToastLevel::Info, accent: None, action: None }
    }

    /// Set the severity.
    pub fn level(self, level: ToastLevel) -> (r: Self)
        ensures
            r == (ToastSpec { level, ..self }),
    {
        ToastSpec { level, ..self }
    }

    /// Set the accent outright; it wins over the severity's accent.
    pub fn accent(self, color: C) -> (r: Self)
        ensures
            r == (ToastSpec { accent: Some(color), ..self }),
    {
        ToastSpec { accent: Some(color), ..self }
    }

    /// Add an action button with this label and callback.
    pub fn action(self, label: String, on_click: F) -> (r: Self)
        ensures
            r == (ToastSpec { action: Some((label, on_click)), ..self }),
    {
        ToastSpec { action: Some((label, on_click)), ..self }
    }

    /// The toast's accent: the explicit one if set, else the severity's.
    pub fn resolved_accent(&self, palette: &Palette<C>) -> (r: C) where C: Copy
        ensures
            r == (match self.accent {
                Some(c) => c,
                None => level_color(self.level, *palette),
            }),
    {
        match &self.accent {
            Some(c) => *c,
            None => self.level.color(palette),
        }
    }
}

/// The toasts to dismiss so that at most `max` show (no cap when `max` is 0).
/// `shown` lists the toasts oldest first; the oldest beyond the cap go.
pub fn toasts_over_cap(shown: &Vec<u64>, max: usize) -> (r: Vec<u64>)
    ensures
        max == 0 || shown@.len() <= max ==> r@ == Seq::<u64>::empty(),
        max > 0 && shown@.len() > max ==> r@ == shown@.take(shown@.len() - max),
{
    let mut r: Vec<u64> = Vec::new();
    if max == 0 || shown.len() <= max {
        return r;
    }
    let n = shown.len() - max;
    let mut i: usize = 0;
    while i < n
        invariant
            i <= n,
            n == shown@.len() - max,
            n <= shown@.len(),
            r@ == shown@.take(i as int),
        decreases n - i,
    {
        r.push(shown[i]);
        assert(r@ =~= shown@.take(i + 1));
        i = i + 1;
    }
    r
}

} // verus!
