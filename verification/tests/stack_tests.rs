use bevy_modal::stack::z_index;
use bevy_modal::{
    ui_not_capturing, CloseAction, CloseReason, CloseReasons, OverlayStack, UiCapturing, Z_BASE,
    Z_STEP,
};

/// Opens an overlay the way the spawn command does: refuse a unique duplicate,
/// otherwise register the freshly spawned root and return its depth.
fn open(stack: &mut OverlayStack, root: u64, id: &str, escape: bool, unique: bool) -> Option<usize> {
    if !stack.admits(id, unique) {
        return None;
    }
    Some(stack.push_root(root, id.to_string(), escape))
}

fn depth(stack: &OverlayStack) -> usize {
    stack.depth()
}

fn capturing(stack: &OverlayStack) -> bool {
    UiCapturing::from_stack(stack).0
}

/// Requests a close the way `dismiss_overlay` and the Escape handler do; the
/// overlay has a transition, so it eases out and stays on the stack.
fn request(reasons: &mut CloseReasons, root: u64, reason: CloseReason) -> CloseAction {
    reasons.request_close(root, reason, true, true)
}

#[test]
fn push_registers_root_and_arms_gate_then_prune_releases_it() {
    let mut stack = OverlayStack::new();
    let mut reasons = CloseReasons::new();

    open(&mut stack, 7, "pause", false, false);

    assert_eq!(depth(&stack), 1, "push should register one root");
    assert!(capturing(&stack), "an open overlay arms the input gate");

    // A direct despawn closes instantly: the prune sees the removal.
    let root = stack.roots()[0];
    let closed = stack.prune(&vec![root], &mut reasons);

    assert_eq!(depth(&stack), 0, "despawning the root prunes the stack");
    assert!(!capturing(&stack), "the last close releases the input gate");
    assert_eq!(closed.len(), 1);
    assert_eq!(closed[0].id, "pause");
    assert_eq!(closed[0].reason, CloseReason::Despawned);
}

#[test]
fn push_unique_dedups_by_id() {
    let mut stack = OverlayStack::new();

    open(&mut stack, 1, "settings", false, true);
    open(&mut stack, 2, "settings", false, true);

    assert_eq!(depth(&stack), 1, "same id should spawn only once");
}

#[test]
fn dismiss_overlay_despawns_the_right_one_and_reconciles() {
    let mut stack = OverlayStack::new();
    let mut reasons = CloseReasons::new();
    open(&mut stack, 10, "a", false, false);
    open(&mut stack, 11, "b", false, false);
    assert_eq!(depth(&stack), 2);

    let target = stack.entity("a").expect("a is open");
    assert_eq!(target, 10);
    assert_eq!(request(&mut reasons, target, CloseReason::Dismissed), CloseAction::EaseOut);
    // The exit completes and the root despawns.
    let closed = stack.prune(&vec![target], &mut reasons);

    assert_eq!(stack.depth(), 1, "exactly one overlay dismissed");
    assert!(stack.is_open("b"), "the surviving overlay is the untouched one");
    assert!(!stack.is_open("a"));
    assert_eq!(closed.len(), 1);
    assert_eq!(closed[0].reason, CloseReason::Dismissed);
}

#[test]
fn dismiss_eases_out_before_despawning() {
    let mut stack = OverlayStack::new();
    let mut reasons = CloseReasons::new();
    open(&mut stack, 3, "x", false, false);
    assert_eq!(depth(&stack), 1);

    let target = stack.entity("x").unwrap();
    let action = request(&mut reasons, target, CloseReason::Dismissed);

    assert_eq!(action, CloseAction::EaseOut);
    assert_eq!(depth(&stack), 1, "still easing out one frame in, not despawned");
    assert!(capturing(&stack), "the input gate stays armed while it eases out");

    stack.prune(&vec![target], &mut reasons);
    assert_eq!(depth(&stack), 0, "despawns once the close completes");
    assert!(!capturing(&stack), "the input gate releases once the overlay is gone");
}

/// Presses Escape once: the top pops if it opted in.
fn press_escape_once(stack: &mut OverlayStack, reasons: &mut CloseReasons) {
    if let Some(top) = stack.escape_target(true) {
        request(reasons, top, CloseReason::Escape);
        stack.prune(&vec![top], reasons);
    }
}

#[test]
fn escape_pops_only_the_top_when_it_opted_in() {
    let mut stack = OverlayStack::new();
    let mut reasons = CloseReasons::new();
    open(&mut stack, 1, "bottom", false, false);
    open(&mut stack, 2, "top", true, false);
    assert_eq!(depth(&stack), 2);

    press_escape_once(&mut stack, &mut reasons);

    assert_eq!(stack.depth(), 1, "escape pops exactly one");
    assert!(stack.is_open("bottom"), "only the top was popped");
    assert!(!stack.is_open("top"));
}

#[test]
fn escape_does_nothing_when_the_top_did_not_opt_in() {
    let mut stack = OverlayStack::new();
    let mut reasons = CloseReasons::new();
    open(&mut stack, 1, "bottom", true, false);
    open(&mut stack, 2, "top", false, false);
    assert_eq!(depth(&stack), 2);

    press_escape_once(&mut stack, &mut reasons);

    assert_eq!(depth(&stack), 2, "a non-opted-in top blocks escape even if a lower one opted in");
}

#[test]
fn z_index_is_deterministic_per_depth() {
    let mut stack = OverlayStack::new();
    let mut zs = Vec::new();
    for (root, id) in [(1u64, "a"), (2, "b"), (3, "c")] {
        let d = open(&mut stack, root, id, false, false).unwrap();
        zs.push(z_index(d));
    }
    for (i, z) in zs.iter().enumerate() {
        assert_eq!(*z, Z_BASE + i as i32 * Z_STEP, "depth {i} gets the deterministic z floor");
    }
}

#[test]
fn escape_without_a_press_does_nothing() {
    let mut stack = OverlayStack::new();
    open(&mut stack, 1, "top", true, false);
    assert_eq!(stack.escape_target(false), None);
    assert_eq!(stack.escape_target(true), Some(1));
}

#[test]
fn escape_on_an_empty_stack_does_nothing() {
    let stack = OverlayStack::new();
    assert_eq!(stack.escape_target(true), None);
    assert_eq!(stack.top(), None);
}

#[test]
fn prune_after_push_restores_the_stack() {
    let mut stack = OverlayStack::new();
    let mut reasons = CloseReasons::new();
    open(&mut stack, 1, "a", false, false);
    open(&mut stack, 2, "b", true, false);
    let before = stack.roots();
    open(&mut stack, 3, "c", false, false);
    let closed = stack.prune(&vec![3], &mut reasons);
    assert_eq!(stack.roots(), before);
    assert_eq!(closed.len(), 1);
    assert_eq!(closed[0].id, "c");
    assert_eq!(closed[0].reason, CloseReason::Despawned);
}

#[test]
fn prune_keeps_survivors_in_order_and_reports_each_removal() {
    let mut stack = OverlayStack::new();
    let mut reasons = CloseReasons::new();
    for (root, id) in [(1u64, "a"), (2, "b"), (3, "c"), (4, "d")] {
        open(&mut stack, root, id, false, false);
    }
    request(&mut reasons, 3, CloseReason::Scrim);
    // Removal order does not matter; messages come bottom first.
    let closed = stack.prune(&vec![3, 9, 1], &mut reasons);
    assert_eq!(stack.roots(), vec![2, 4]);
    assert_eq!(stack.top(), Some(4));
    let got: Vec<(String, CloseReason)> = closed.into_iter().map(|c| (c.id, c.reason)).collect();
    assert_eq!(
        got,
        vec![("a".to_string(), CloseReason::Despawned), ("c".to_string(), CloseReason::Scrim)]
    );
    // The pending reason was consumed by the prune.
    assert_eq!(reasons.reason_for(3), CloseReason::Despawned);
}

#[test]
fn later_close_request_overwrites_the_reason() {
    let mut reasons = CloseReasons::new();
    reasons.request_close(5, CloseReason::Scrim, true, true);
    reasons.request_close(5, CloseReason::Escape, true, true);
    assert_eq!(reasons.reason_for(5), CloseReason::Escape);
}

#[test]
fn close_request_actions_cover_each_case() {
    let mut reasons = CloseReasons::new();
    assert_eq!(reasons.request_close(1, CloseReason::Dismissed, false, true), CloseAction::Ignore);
    assert_eq!(reasons.reason_for(1), CloseReason::Despawned, "a gone root records nothing");
    assert_eq!(reasons.request_close(1, CloseReason::Dismissed, true, false), CloseAction::DespawnNow);
    assert_eq!(reasons.request_close(2, CloseReason::Escape, true, true), CloseAction::EaseOut);
    assert_eq!(reasons.reason_for(1), CloseReason::Dismissed);
    reasons.forget(1);
    assert_eq!(reasons.reason_for(1), CloseReason::Despawned);
}

#[test]
fn entity_finds_the_lowest_overlay_with_the_id() {
    let mut stack = OverlayStack::new();
    open(&mut stack, 1, "dup", false, false);
    open(&mut stack, 2, "other", false, false);
    open(&mut stack, 3, "dup", false, false);
    assert_eq!(stack.entity("dup"), Some(1));
    assert_eq!(stack.entity("other"), Some(2));
    assert_eq!(stack.entity("missing"), None);
    assert!(!stack.is_open("missing"));
}

#[test]
fn push_returns_the_depth_below_the_new_root() {
    let mut stack = OverlayStack::new();
    assert_eq!(stack.push_root(1, "a".to_string(), false), 0);
    assert_eq!(stack.push_root(2, "b".to_string(), false), 1);
    assert_eq!(stack.top(), Some(2));
    assert_eq!(z_index(1), 1010);
}

#[test]
fn the_run_condition_passes_only_without_capture() {
    assert!(ui_not_capturing(&UiCapturing(false)));
    assert!(!ui_not_capturing(&UiCapturing(true)));
    let mut stack = OverlayStack::new();
    assert!(ui_not_capturing(&UiCapturing::from_stack(&stack)));
    stack.push_root(1, "a".to_string(), false);
    assert!(!ui_not_capturing(&UiCapturing::from_stack(&stack)));
}

#[test]
fn contains_reports_registered_roots() {
    let mut stack = OverlayStack::new();
    stack.push_root(4, "a".to_string(), false);
    assert!(stack.contains(4));
    assert!(!stack.contains(5));
}

#[test]
fn a_repeated_close_is_reported_once_with_the_later_reason() {
    let mut stack = OverlayStack::new();
    let mut reasons = CloseReasons::new();
    open(&mut stack, 1, "a", false, false);
    open(&mut stack, 2, "b", false, false);
    assert_eq!(request(&mut reasons, 2, CloseReason::Scrim), CloseAction::EaseOut);
    assert_eq!(request(&mut reasons, 2, CloseReason::Escape), CloseAction::EaseOut);
    assert_eq!(depth(&stack), 2, "neither request despawns");
    let closed = stack.prune(&vec![2], &mut reasons);
    assert_eq!(closed.len(), 1);
    assert_eq!(closed[0].id, "b");
    assert_eq!(closed[0].reason, CloseReason::Escape);
}
