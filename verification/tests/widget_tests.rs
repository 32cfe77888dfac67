use bevy_modal::widgets::flip_toggle;

#[test]
fn flipping_a_toggle_reports_its_new_state() {
    let mut on = false;
    assert!(flip_toggle(&mut on));
    assert!(on);
    assert!(!flip_toggle(&mut on));
    assert!(!on);
}
