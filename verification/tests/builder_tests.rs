use bevy_modal::{button_look, ButtonLook, ButtonSpec, ConfirmSpec, OverlaySpec, PointerState};

#[test]
fn overlay_builder_collects_the_spec() {
    let spec: OverlaySpec<&str, u8, ()> = OverlaySpec::new("pause".to_string())
        .title("PAUSED".to_string())
        .body("one".to_string())
        .body("two".to_string())
        .button("Resume".to_string(), 1)
        .button("Quit".to_string(), 2)
        .dismissable(true);
    assert_eq!(spec.id, "pause");
    assert_eq!(spec.title.as_deref(), Some("PAUSED"));
    assert_eq!(spec.body, vec!["one".to_string(), "two".to_string()]);
    let labels: Vec<&str> = spec.buttons.iter().map(|b| b.label.as_str()).collect();
    assert_eq!(labels, vec!["Resume", "Quit"]);
    assert_eq!(spec.buttons[1].action, Some(2));
    assert!(spec.buttons.iter().all(|b| b.dismisses.is_none()));
    assert!(spec.dismissable);
    assert!(!spec.pop_on_escape);
    assert!(!spec.unique);
    assert_eq!(spec.resolved_accent("theme"), "theme");
    let spec = spec.accent("red").escape(true).unique();
    assert_eq!(spec.resolved_accent("theme"), "red");
    assert!(spec.pop_on_escape && spec.unique);
}

#[test]
fn content_replaces_the_builtin_panel() {
    let spec: OverlaySpec<&str, u8, &str> = OverlaySpec::new("grid".to_string()).content("fill");
    assert_eq!(spec.content, Some("fill"));
}

#[test]
fn confirm_builds_a_two_button_dismissable_dialog() {
    let spec: ConfirmSpec<&str, u8> = ConfirmSpec::new("delete-save".to_string(), "Delete save?".to_string())
        .message("This can't be undone.".to_string())
        .confirm_label("Delete".to_string())
        .cancel_label("Keep".to_string())
        .on_confirm(7);
    let overlay: OverlaySpec<&str, u8, ()> = spec.into_overlay();
    assert_eq!(overlay.id, "delete-save");
    assert_eq!(overlay.title.as_deref(), Some("Delete save?"));
    assert_eq!(overlay.body, vec!["This can't be undone.".to_string()]);
    assert!(overlay.dismissable && overlay.pop_on_escape);
    assert!(overlay.content.is_none() && !overlay.unique);
    assert_eq!(overlay.buttons.len(), 2);
    let ButtonSpec { label, action, dismisses } = &overlay.buttons[0];
    assert_eq!((label.as_str(), *action, dismisses.as_deref()), ("Delete", Some(7), Some("delete-save")));
    let ButtonSpec { label, action, dismisses } = &overlay.buttons[1];
    assert_eq!((label.as_str(), *action, dismisses.as_deref()), ("Keep", None, Some("delete-save")));
}

#[test]
fn confirm_defaults_to_confirm_and_cancel() {
    let spec: ConfirmSpec<&str, u8> = ConfirmSpec::new("q".to_string(), "Sure?".to_string());
    assert_eq!(spec.confirm_label, "Confirm");
    assert_eq!(spec.cancel_label, "Cancel");
    let overlay: OverlaySpec<&str, u8, ()> = spec.accent("blue").on_cancel(4).into_overlay();
    assert_eq!(overlay.accent, Some("blue"));
    assert_eq!(overlay.buttons[1].action, Some(4));
    assert!(overlay.body.is_empty());
}

#[test]
fn focused_buttons_show_the_hover_look() {
    assert_eq!(button_look(PointerState::Pressed, false), ButtonLook::Press);
    assert_eq!(button_look(PointerState::Pressed, true), ButtonLook::Press);
    assert_eq!(button_look(PointerState::Hovered, false), ButtonLook::Hover);
    assert_eq!(button_look(PointerState::Idle, true), ButtonLook::Hover);
    assert_eq!(button_look(PointerState::Idle, false), ButtonLook::Rest);
}
