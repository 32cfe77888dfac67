//! A confirm dialog: a titled overlay with optional body lines and exactly two
//! buttons, confirm then cancel. Each button runs its caller callback, if one
//! was given, and then dismisses the dialog. The dialog always closes on a
//! scrim tap and on Escape, like any overlay that opted into both.

use crate::builder::{ButtonSpec, OverlaySpec};
use vstd::prelude::*;

verus! {

/// What a confirm builder has collected.
pub struct ConfirmSpec<C, F> {
    pub id: String,
    pub title: String,
    pub message: Vec<String>,
    pub confirm_label: String,
    pub cancel_label: String,
    pub accent: Option<C>,
    pub on_confirm: Option<F>,
    pub on_cancel: Option<F>,
}

impl<C, F> ConfirmSpec<C, F> {
    /// A confirm dialog with this id and title, labelled "Confirm" and
    /// "Cancel", with no body, no accent override and no callbacks.
    pub fn new(id: String, title: String) -> (r: Self)
        ensures
            r.id == id,
            r.title == title,
            r.message@ == Seq::<String>::empty(),
            r.confirm_label@ == "Confirm"@,
            r.cancel_label@ == "Cancel"@,
            r.accent is None,
            r.on_confirm is None,
            r.on_cancel is None,
    {
        ConfirmSpec {
            id,
            title,
            message: Vec::new(),
            confirm_label: "Confirm".to_owned(),
            cancel_label: "Cancel".to_owned(),
            accent: None,
            on_confirm: None,
            on_cancel: None,
        }
    }

    /// Append a line of body text.
    pub fn message(self, text: String) -> (r: Self)
        ensures
            r.message@ == self.message@.push(text),
            r.id == self.id,
            r.title == self.title,
            r.confirm_label == self.confirm_label,
            r.cancel_label == self.cancel_label,
            r.accent == self.accent,
            r.on_confirm == self.on_confirm,
            r.on_cancel == self.on_cancel,
    {
        let mut s = self;
        s.message.push(text);
        s
    }

    /// Label the confirm button.
    pub fn confirm_label(self, text: String) -> (r: Self)
        ensures
            r == (ConfirmSpec { confirm_label: text, ..self }),
    {
        ConfirmSpec { confirm_label: text, ..self }
    }

    /// Label the cancel button.
    pub fn cancel_label(self, text: String) -> (r: Self)
        ensures
            r == (ConfirmSpec { cancel_label: text, ..self }),
    {
        ConfirmSpec { cancel_label: text, ..self }
    }

    /// Override the accent (title and button tint).
    pub fn accent(self, color: C) -> (r: Self)
        ensures
            r == (ConfirmSpec { accent: Some(color), ..self }),
    {
        ConfirmSpec { accent: Some(color), ..self }
    }

    /// Run `cb` on confirm, before the dialog dismisses itself.
    pub fn on_confirm(self, cb: F) -> (r: Self)
        ensures
            r == (ConfirmSpec { on_confirm: Some(cb), ..self }),
    {
        ConfirmSpec { on_confirm: Some(cb), ..self }
    }

    /// Run `cb` on cancel, before the dialog dismisses itself.
    pub fn on_cancel(self, cb: F) -> (r: Self)
        ensures
            r == (ConfirmSpec { on_cancel: Some(cb), ..self }),
    {
        ConfirmSpec { on_cancel: Some(cb), ..self }
    }

    /// The overlay the dialog is: its id, its title as heading, its message as
    /// body, the accent override, two buttons (confirm then cancel) that each
    /// run their callback and then dismiss this id, closable by the scrim and
    /// by Escape, with the built-in panel and no uniqueness.
    pub fn into_overlay<K>(self) -> (r: OverlaySpec<C, F, K>)
        ensures
            r.id == self.id,
            r.title == Some(self.title),
            r.body == self.message,
            r.accent == self.accent,
            r.buttons@ == seq![
                ButtonSpec {
                    label: self.confirm_label,
                    action: self.on_confirm,
                    dismisses: Some(self.id),
                },
                ButtonSpec {
                    label: self.cancel_label,
                    action: self.on_cancel,
                    dismisses: Some(self.id),
                },
            ],
            r.dismissable,
            r.pop_on_escape,
            r.content is None,
            !r.unique,
    {
        let id_confirm = self.id.clone();
        let id_cancel = self.id.clone();
        let mut buttons: Vec<ButtonSpec<F>> = Vec::new();
        buttons.push(
            ButtonSpec { label: self.confirm_label, action: self.on_confirm, dismisses: Some(id_confirm) },
        );
        buttons.push(
            ButtonSpec { label: self.cancel_label, action: self.on_cancel, dismisses: Some(id_cancel) },
        );
        let r = OverlaySpec {
            id: self.id,
            accent: self.accent,
            title: Some(self.title),
            body: self.message,
            buttons,
            dismissable: true,
            pop_on_escape: true,
            content: None,
            unique: false,
        };
        r
    }
}

} // verus!
