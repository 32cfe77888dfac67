use bevy_modal::focus::{
    activates, active_scope, hover_focuses, lowest_order, maintain_focus, nav_direction,
    navigate_focus, slider_nudge,
};
use bevy_modal::{FocusCommand, Focusable, HoverChange, KeyState, NavDirection, Nudge};

fn no_keys() -> KeyState {
    KeyState {
        tab: false,
        shift: false,
        arrow_up: false,
        arrow_down: false,
        arrow_left: false,
        arrow_right: false,
        enter: false,
        space: false,
        escape: false,
    }
}

fn widget(entity: u64, scope: u64, order: usize) -> Focusable {
    Focusable { entity, scope, order }
}

/// Applies focus commands to a focused list, in order.
fn apply(focused: &mut Vec<u64>, cmds: &[FocusCommand]) {
    for cmd in cmds {
        match *cmd {
            FocusCommand::Remove(e) => focused.retain(|f| *f != e),
            FocusCommand::Insert(e) => {
                if !focused.contains(&e) {
                    focused.push(e);
                }
            }
        }
    }
}

#[test]
fn standalone_scope_focuses_its_first_widget() {
    // A standalone scope (entity 100) holding a button, a toggle and a slider;
    // no overlay is open.
    let scope = 100;
    let widgets = vec![widget(101, scope, 0), widget(102, scope, 1), widget(103, scope, 2)];
    let active = active_scope(None, &vec![scope]);
    let mut focused = Vec::new();
    let cmds = maintain_focus(active, &widgets, &focused);
    apply(&mut focused, &cmds);

    let focused_scope = widgets.iter().find(|w| focused.first() == Some(&w.entity)).map(|w| w.scope);
    assert_eq!(focused_scope, Some(scope), "first widget in the scope takes focus");
    assert_eq!(focused, vec![101]);
}

#[test]
fn the_top_overlay_wins_over_standalone_scopes() {
    assert_eq!(active_scope(Some(9), &vec![3, 1, 2]), Some(9));
    assert_eq!(active_scope(None, &vec![3, 1, 2]), Some(1));
    assert_eq!(active_scope(None, &vec![]), None);
}

#[test]
fn maintain_focus_keeps_a_valid_focus() {
    let widgets = vec![widget(1, 50, 0), widget(2, 50, 1)];
    let cmds = maintain_focus(Some(50), &widgets, &vec![2]);
    assert!(cmds.is_empty());
}

#[test]
fn maintain_focus_moves_a_stale_focus_to_the_new_top() {
    // Focus sits in scope 40; an overlay 50 opened on top.
    let widgets = vec![widget(1, 40, 0), widget(3, 50, 5), widget(2, 50, 1)];
    let cmds = maintain_focus(Some(50), &widgets, &vec![1]);
    assert_eq!(cmds, vec![FocusCommand::Remove(1), FocusCommand::Insert(2)]);
}

#[test]
fn maintain_focus_clears_when_no_scope_is_active() {
    let widgets = vec![widget(1, 40, 0)];
    let cmds = maintain_focus(None, &widgets, &vec![1]);
    assert_eq!(cmds, vec![FocusCommand::Remove(1)]);
}

#[test]
fn lowest_order_prefers_the_earliest_listed_among_equals() {
    let widgets = vec![widget(1, 7, 3), widget(2, 7, 1), widget(3, 7, 1), widget(4, 8, 0)];
    assert_eq!(lowest_order(&widgets, 7), Some(2));
    assert_eq!(lowest_order(&widgets, 8), Some(4));
    assert_eq!(lowest_order(&widgets, 9), None);
}

fn tab() -> KeyState {
    KeyState { tab: true, ..no_keys() }
}

fn shift_tab() -> KeyState {
    KeyState { tab: true, shift: true, ..no_keys() }
}

#[test]
fn tab_moves_to_the_next_widget_and_wraps() {
    // Listed out of tab order on purpose.
    let widgets = vec![widget(30, 9, 2), widget(10, 9, 0), widget(20, 9, 1)];
    let mut focused = vec![10];
    for expected in [20, 30, 10] {
        let cmds = navigate_focus(&tab(), Some(9), &widgets, &focused).unwrap();
        apply(&mut focused, &cmds);
        assert_eq!(focused, vec![expected]);
    }
}

#[test]
fn shift_tab_moves_back_and_wraps() {
    let widgets = vec![widget(10, 9, 0), widget(20, 9, 1), widget(30, 9, 2)];
    let mut focused = vec![10];
    for expected in [30, 20, 10] {
        let cmds = navigate_focus(&shift_tab(), Some(9), &widgets, &focused).unwrap();
        apply(&mut focused, &cmds);
        assert_eq!(focused, vec![expected]);
    }
}

#[test]
fn next_then_prev_returns_to_the_start() {
    let widgets = vec![widget(1, 9, 4), widget(2, 9, 4), widget(3, 9, 0), widget(4, 5, 1)];
    for start in [1u64, 2, 3] {
        let mut focused = vec![start];
        let down = KeyState { arrow_down: true, ..no_keys() };
        let up = KeyState { arrow_up: true, ..no_keys() };
        let cmds = navigate_focus(&down, Some(9), &widgets, &focused).unwrap();
        apply(&mut focused, &cmds);
        let cmds = navigate_focus(&up, Some(9), &widgets, &focused).unwrap();
        apply(&mut focused, &cmds);
        assert_eq!(focused, vec![start]);
    }
}

#[test]
fn navigation_without_a_current_widget_starts_from_the_first() {
    let widgets = vec![widget(10, 9, 0), widget(20, 9, 1), widget(30, 9, 2)];
    // Nothing in scope 9 is focused: Tab lands one past the first.
    let cmds = navigate_focus(&tab(), Some(9), &widgets, &vec![77]).unwrap();
    assert_eq!(cmds, vec![FocusCommand::Remove(77), FocusCommand::Insert(20)]);
    let cmds = navigate_focus(&shift_tab(), Some(9), &widgets, &vec![]).unwrap();
    assert_eq!(cmds, vec![FocusCommand::Insert(30)]);
}

#[test]
fn navigation_needs_a_scope_a_key_and_a_widget() {
    let widgets = vec![widget(10, 9, 0)];
    assert!(navigate_focus(&tab(), None, &widgets, &vec![]).is_none());
    assert!(navigate_focus(&no_keys(), Some(9), &widgets, &vec![]).is_none());
    assert!(navigate_focus(&tab(), Some(8), &widgets, &vec![]).is_none());
    let cmds = navigate_focus(&tab(), Some(9), &widgets, &vec![10]).unwrap();
    assert_eq!(cmds, vec![FocusCommand::Remove(10), FocusCommand::Insert(10)]);
}

#[test]
fn navigation_keys_pick_the_direction() {
    assert_eq!(nav_direction(&tab()), Some(NavDirection::Next));
    assert_eq!(nav_direction(&shift_tab()), Some(NavDirection::Prev));
    assert_eq!(nav_direction(&KeyState { arrow_down: true, ..no_keys() }), Some(NavDirection::Next));
    assert_eq!(nav_direction(&KeyState { arrow_up: true, ..no_keys() }), Some(NavDirection::Prev));
    assert_eq!(
        nav_direction(&KeyState { arrow_up: true, arrow_down: true, ..no_keys() }),
        Some(NavDirection::Next)
    );
    assert_eq!(nav_direction(&KeyState { shift: true, ..no_keys() }), None);
}

#[test]
fn enter_and_space_activate() {
    assert!(activates(&KeyState { enter: true, ..no_keys() }));
    assert!(activates(&KeyState { space: true, ..no_keys() }));
    assert!(!activates(&tab()));
}

#[test]
fn arrows_nudge_a_focused_slider() {
    assert_eq!(slider_nudge(&KeyState { arrow_right: true, ..no_keys() }), Some(Nudge::Raise));
    assert_eq!(slider_nudge(&KeyState { arrow_left: true, ..no_keys() }), Some(Nudge::Lower));
    assert_eq!(
        slider_nudge(&KeyState { arrow_left: true, arrow_right: true, ..no_keys() }),
        Some(Nudge::Raise)
    );
    assert_eq!(slider_nudge(&no_keys()), None);
}

#[test]
fn hover_focuses_only_within_the_active_scope() {
    let changed = vec![
        HoverChange { entity: 5, scope: 1, hovered: true },
        HoverChange { entity: 6, scope: 2, hovered: true },
        HoverChange { entity: 7, scope: 1, hovered: false },
    ];
    let cmds = hover_focuses(Some(1), &changed, &vec![4, 5]);
    assert_eq!(cmds, vec![FocusCommand::Remove(4), FocusCommand::Insert(5)]);
    assert!(hover_focuses(None, &changed, &vec![4]).is_empty());
}

#[test]
fn navigation_leaves_exactly_one_widget_focused() {
    let widgets = vec![widget(10, 9, 0), widget(20, 9, 1), widget(30, 9, 2)];
    // Two entities carry the mark (an inconsistent frame); one step repairs it.
    let mut focused = vec![20, 30];
    let cmds = navigate_focus(&tab(), Some(9), &widgets, &focused).unwrap();
    apply(&mut focused, &cmds);
    assert_eq!(focused, vec![30]);
}

#[test]
fn hover_outside_the_active_scope_changes_nothing() {
    let changed = vec![
        HoverChange { entity: 6, scope: 2, hovered: true },
        HoverChange { entity: 7, scope: 3, hovered: true },
    ];
    assert!(hover_focuses(Some(1), &changed, &vec![4]).is_empty());
}

#[test]
fn maintain_focus_collapses_two_marks_in_the_active_scope() {
    let widgets = vec![widget(1, 50, 0), widget(2, 50, 1)];
    let mut focused = vec![2, 1];
    let cmds = maintain_focus(Some(50), &widgets, &focused);
    assert_eq!(cmds, vec![FocusCommand::Remove(1)]);
    apply(&mut focused, &cmds);
    assert_eq!(focused, vec![2]);
}

#[test]
fn the_last_hover_of_the_frame_wins() {
    let changed = vec![
        HoverChange { entity: 5, scope: 1, hovered: true },
        HoverChange { entity: 6, scope: 1, hovered: true },
        HoverChange { entity: 7, scope: 2, hovered: true },
    ];
    let mut focused = vec![4];
    let cmds = hover_focuses(Some(1), &changed, &focused);
    assert_eq!(cmds, vec![FocusCommand::Remove(4), FocusCommand::Insert(6)]);
    apply(&mut focused, &cmds);
    assert_eq!(focused, vec![6]);
}

#[test]
fn a_frame_of_focus_systems_leaves_one_mark() {
    // Two marks in the active scope, two hovers, then Tab.
    let widgets = vec![widget(1, 50, 0), widget(2, 50, 1), widget(3, 50, 2)];
    let mut focused = vec![1, 3];
    let cmds = maintain_focus(Some(50), &widgets, &focused);
    apply(&mut focused, &cmds);
    let changed = vec![
        HoverChange { entity: 2, scope: 50, hovered: true },
        HoverChange { entity: 1, scope: 50, hovered: true },
    ];
    let cmds = hover_focuses(Some(50), &changed, &focused);
    apply(&mut focused, &cmds);
    assert_eq!(focused, vec![1]);
    let cmds = navigate_focus(&tab(), Some(50), &widgets, &focused).unwrap();
    apply(&mut focused, &cmds);
    assert_eq!(focused, vec![2]);
}

#[test]
fn focus_follows_an_overlay_open_and_close() {
    // A standalone scope 10 with widgets 11 and 12; focus on 12.
    let screen = vec![widget(11, 10, 0), widget(12, 10, 1)];
    // An overlay 20 opens with buttons 21 and 22.
    let mut open = screen.clone();
    open.push(widget(22, 20, 1));
    open.push(widget(21, 20, 0));
    let mut focused = vec![12];
    let cmds = maintain_focus(Some(20), &open, &focused);
    apply(&mut focused, &cmds);
    assert_eq!(focused, vec![21]);
    // It closes: its buttons are gone and their marks with them.
    focused.retain(|e| *e != 21 && *e != 22);
    let cmds = maintain_focus(Some(10), &screen, &focused);
    apply(&mut focused, &cmds);
    assert_eq!(focused, vec![11]);
    // No active scope: no mark.
    let cmds = maintain_focus(None, &screen, &focused);
    apply(&mut focused, &cmds);
    assert!(focused.is_empty());
}
