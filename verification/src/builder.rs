//! What the overlay builder collects before the spawn: the id, the optional
//! accent, title and body lines, the buttons, whether a scrim tap or Escape may
//! close it, bespoke content (which replaces the built-in panel) and whether a
//! second open of the same id is refused. Colours, callbacks and content
//! closures are carried through as the UI's own types.

use vstd::prelude::*;

verus! {

/// A button's pointer interaction this frame.
#[derive(Clone, Copy, PartialEq, Eq, Debug, Structural)]
pub enum PointerState {
    Idle,
    Hovered,
    Pressed,
}

/// Which of the theme's button looks to show.
#[derive(Clone, Copy, PartialEq, Eq, Debug, Structural)]
pub enum ButtonLook {
    /// Rest fill, rest border.
    Rest,
    /// Hover fill, hover border.
    Hover,
    /// Press fill, hover border.
    Press,
}

/// The look of a panel button: pressed shows the press look, hovered shows
/// the hover look, and a keyboard-focused button at rest shows the hover look
/// too, so the selection is visible without a pointer.
pub fn button_look(pointer: PointerState, focused: bool) -> (r: ButtonLook)
    ensures
        r == (match pointer {
            PointerState::Pressed => ButtonLook::Press,
            PointerState::Hovered => ButtonLook::Hover,
            PointerState::Idle => if focused {
                ButtonLook::Hover
            } else {
                ButtonLook::Rest
            },
        }),
{
    match pointer {
        PointerState::Pressed => ButtonLook::Press,
        PointerState::Hovered => ButtonLook::Hover,
        PointerState::Idle => if focused {
            ButtonLook::Hover
        } else {
            ButtonLook::Rest
        },
    }
}

/// One panel button: its label, the callback it runs when pressed, and the
/// overlay id it dismisses afterwards, if any.
pub struct ButtonSpec<F> {
    pub label: String,
    pub action: Option<F>,
    pub dismisses: Option<String>,
}

/// The collected description of one overlay.
pub struct OverlaySpec<C, F, K> {
    pub id: String,
    pub accent: Option<C>,
    pub title: Option<String>,
    pub body: Vec<String>,
    pub buttons: Vec<ButtonSpec<F>>,
    pub dismissable: bool,
    pub pop_on_escape: bool,
    pub content: Option<K>,
    pub unique: bool,
}

impl<C, F, K> OverlaySpec<C, F, K> {
    /// An overlay with this id and nothing else: no accent, title, body,
    /// buttons or content; neither the scrim nor Escape closes it; not unique.
    pub fn new(id: String) -> (r: Self)
        ensures
            r.id == id,
            r.accent is None,
            r.title is None,
            r.body@ == Seq::<String>::empty(),
            r.buttons@ == Seq::<ButtonSpec<F>>::empty(),
            !r.dismissable,
            !r.pop_on_escape,
            r.content is None,
            !r.unique,
    {
        OverlaySpec {
            id,
            accent: None,
            title: None,
            body: Vec::new(),
            buttons: Vec::new(),
            dismissable: false,
            pop_on_escape: false,
            content: None,
            unique: false,
        }
    }

    /// Override the accent (title and button tint).
    pub fn accent(self, color: C) -> (r: Self)
        ensures
            r == (OverlaySpec { accent: Some(color), ..self }),
    {
        OverlaySpec { accent: Some(color), ..self }
    }

    /// Set the heading.
    pub fn title(self, text: String) -> (r: Self)
        ensures
            r == (OverlaySpec { title: Some(text), ..self }),
    {
        OverlaySpec { title: Some(text), ..self }
    }

    /// Append a line of body text.
    pub fn body(self, text: String) -> (r: Self)
        ensures
            r.body@ == self.body@.push(text),
            r.id == self.id,
            r.accent == self.accent,
            r.title == self.title,
            r.buttons == self.buttons,
            r.dismissable == self.dismissable,
            r.pop_on_escape == self.pop_on_escape,
            r.content == self.content,
            r.unique == self.unique,
    {
        let mut s = self;
        s.body.push(text);
        s
    }

    /// Append a button that runs `on_click` when pressed.
    pub fn button(self, label: String, on_click: F) -> (r: Self)
        ensures
            r.buttons@ == self.buttons@.push(
                ButtonSpec { label: label, action: Some(on_click), dismisses: None },
            ),
            r.id == self.id,
            r.accent == self.accent,
            r.title == self.title,
            r.body == self.body,
            r.dismissable == self.dismissable,
            r.pop_on_escape == self.pop_on_escape,
            r.content == self.content,
            r.unique == self.unique,
    {
        self.with_button(ButtonSpec { label, action: Some(on_click), dismisses: None })
    }

    /// Append a fully described button.
    pub fn with_button(self, button: ButtonSpec<F>) -> (r: Self)
        ensures
            r.buttons@ == self.buttons@.push(button),
            r.id == self.id,
            r.accent == self.accent,
            r.title == self.title,
            r.body == self.body,
            r.dismissable == self.dismissable,
            r.pop_on_escape == self.pop_on_escape,
            r.content == self.content,
            r.unique == self.unique,
    {
        let mut s = self;
        s.buttons.push(button);
        s
    }

    /// Whether a tap on the scrim closes it.
    pub fn dismissable(self, yes: bool) -> (r: Self)
        ensures
            r == (OverlaySpec { dismissable: yes, ..self }),
    {
        OverlaySpec { dismissable: yes, ..self }
    }

    /// Whether Escape pops it while it is on top.
    pub fn escape(self, yes: bool) -> (r: Self)
        ensures
            r == (OverlaySpec { pop_on_escape: yes, ..self }),
    {
        OverlaySpec { pop_on_escape: yes, ..self }
    }

    /// Host caller-owned content instead of the built-in panel.
    pub fn content(self, fill: K) -> (r: Self)
        ensures
            r == (OverlaySpec { content: Some(fill), ..self }),
    {
        OverlaySpec { content: Some(fill), ..self }
    }

    /// Refuse the open when an overlay with this id is already open.
    pub fn unique(self) -> (r: Self)
        ensures
            r == (OverlaySpec { unique: true, ..self }),
    {
        OverlaySpec { unique: true, ..self }
    }

    /// The accent the panel uses: the override if set, else the theme's.
    pub fn resolved_accent(&self, theme_accent: C) -> (r: C) where C: Copy
        ensures
            r == (match self.accent {
                Some(c) => c,
                None => theme_accent,
            }),
    {
        match &self.accent {
            Some(c) => *c,
            None => theme_accent,
        }
    }
}

} // verus!
