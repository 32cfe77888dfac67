use bevy_modal::toast::toasts_over_cap;
use bevy_modal::{Palette, ToastLevel, ToastPosition, ToastSpec};

/// Colours stand in as strings: the accent logic never looks inside them.
fn palette() -> Palette<&'static str> {
    Palette { accent: "accent", success: "success", warning: "warning", danger: "danger" }
}

#[test]
fn level_picks_the_theme_colour() {
    let spec: ToastSpec<&str, ()> = ToastSpec::new("boom".to_string()).level(ToastLevel::Error);
    assert_eq!(spec.resolved_accent(&palette()), palette().danger);
}

#[test]
fn explicit_accent_overrides_level() {
    let spec: ToastSpec<&str, ()> =
        ToastSpec::new("boom".to_string()).level(ToastLevel::Error).accent("white");
    assert_eq!(spec.resolved_accent(&palette()), "white");
}

#[test]
fn each_level_has_its_colour() {
    let p = palette();
    assert_eq!(ToastLevel::Info.color(&p), "accent");
    assert_eq!(ToastLevel::Success.color(&p), "success");
    assert_eq!(ToastLevel::Warning.color(&p), "warning");
    assert_eq!(ToastLevel::Error.color(&p), "danger");
    assert_eq!(ToastLevel::default(), ToastLevel::Info);
    assert_eq!(ToastPosition::default(), ToastPosition::Top);
}

#[test]
fn a_new_toast_is_info_without_action() {
    let spec: ToastSpec<&str, u8> = ToastSpec::new("saved".to_string());
    assert_eq!(spec.message, "saved");
    assert_eq!(spec.level, ToastLevel::Info);
    assert!(spec.accent.is_none());
    assert!(spec.action.is_none());
    assert_eq!(spec.resolved_accent(&palette()), "accent");
    let spec = spec.action("Undo".to_string(), 3);
    assert_eq!(spec.action, Some(("Undo".to_string(), 3)));
}

#[test]
fn the_cap_dismisses_the_oldest_first() {
    let shown = vec![1, 2, 3, 4, 5, 6];
    assert_eq!(toasts_over_cap(&shown, 4), vec![1, 2]);
    assert_eq!(toasts_over_cap(&shown, 6), Vec::<u64>::new());
    assert_eq!(toasts_over_cap(&shown, 9), Vec::<u64>::new());
    assert_eq!(toasts_over_cap(&shown, 0), Vec::<u64>::new(), "zero means no cap");
    assert_eq!(toasts_over_cap(&shown, 1), vec![1, 2, 3, 4, 5]);
}
