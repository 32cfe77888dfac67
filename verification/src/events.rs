//! Why each overlay closes, and the message announced when it does.
//!
//! [`OverlayClosed`] is announced when an overlay leaves the stack, for every
//! close path, tagged with a [`CloseReason`]. The reason is stashed in [`CloseReasons`] when the close is
//! requested, because the overlay root is already gone by the time the stack
//! notices its removal; a root that leaves without a recorded reason was
//! despawned directly and reports [`CloseReason::Despawned`].

use std::collections::HashMap;
use vstd::prelude::*;

verus! {

broadcast use vstd::std_specs::hash::group_hash_axioms;

/// Why an overlay closed.
#[derive(Clone, Copy, PartialEq, Eq, Debug, Structural)]
pub enum CloseReason {
    /// Closed via `dismiss_overlay`, which includes the built-in confirm buttons.
    Dismissed,
    /// Closed by the Escape key.
    Escape,
    /// Closed by a tap on the scrim.
    Scrim,
    /// Despawned directly (e.g. a state machine on `OnExit`), not via the API.
    Despawned,
}

/// Announced when an overlay leaves the stack, however it closed.
pub struct OverlayClosed {
    pub id: String,
    pub reason: CloseReason,
}

impl View for OverlayClosed {
    type V = (Seq<char>, CloseReason);

    open spec fn view(&self) -> (Seq<char>, CloseReason) {
        (self.id@, self.reason)
    }
}

/// What the caller of [`CloseReasons::request_close`] must do with the root.
#[derive(Clone, Copy, PartialEq, Eq, Debug, Structural)]
pub enum CloseAction {
    /// The root is already gone: nothing to do.
    Ignore,
    /// Play the exit transition; the root despawns when it completes.
    EaseOut,
    /// The overlay has no transition: despawn the root now.
    DespawnNow,
}

/// The reason reported for `root` when it leaves the stack: the recorded one,
/// or [`CloseReason::Despawned`] when none was recorded.
pub open spec fn reason_or_despawned(reasons: Map<u64, CloseReason>, root: u64) -> CloseReason {
    if reasons.contains_key(root) {
        reasons[root]
    } else {
        CloseReason::Despawned
    }
}

/// The pending close reasons, keyed by overlay root (an entity's bits).
pub struct CloseReasons {
    reasons: HashMap<u64, CloseReason>,
}

impl View for CloseReasons {
    type V = Map<u64, CloseReason>;

    closed spec fn view(&self) -> Map<u64, CloseReason> {
        self.reasons@
    }
}

impl CloseReasons {
    /// No close pending.
    pub fn new() -> (r: Self)
        ensures
            r@ == Map::<u64, CloseReason>::empty(),
    {
        CloseReasons { reasons: HashMap::new() }
    }

    /// Begin closing the overlay `root` for `reason`. When the root still
    /// exists the reason is recorded (a later request overwrites an earlier
    /// one) and the overlay eases out if it has a transition, or is despawned
    /// outright if it has none; a root that is already gone is left alone.
    pub fn request_close(
        &mut self,
        root: u64,
        reason: CloseReason,
        root_exists: bool,
        has_transition: bool,
    ) -> (action: CloseAction)
        ensures
            !root_exists ==> action == CloseAction::Ignore && final(self)@ == old(self)@,
            root_exists ==> final(self)@ == old(self)@.insert(root, reason),
            root_exists && has_transition ==> action == CloseAction::EaseOut,
            root_exists && !has_transition ==> action == CloseAction::DespawnNow,
    {
        if !root_exists {
            return CloseAction::Ignore;
        }
        self.reasons.insert(root, reason);
        if has_transition {
            CloseAction::EaseOut
        } else {
            CloseAction::DespawnNow
        }
    }

    /// The reason `root` will report when it leaves the stack.
    pub fn reason_for(&self, root: u64) -> (r: CloseReason)
        ensures
            r == reason_or_despawned(self@, root),
    {
        match self.reasons.get(&root) {
            Some(reason) => *reason,
            None => CloseReason::Despawned,
        }
    }

    /// Drop the pending reason of `root`, if any.
    pub fn forget(&mut self, root: u64)
        ensures
            final(self)@ == old(self)@.remove(root),
    {
        self.reasons.remove(&root);
    }
}

/// A requested close is reported with the requested reason; the latest
/// request wins.
pub proof fn lemma_requested_reason_is_reported(
    reasons: Map<u64, CloseReason>,
    root: u64,
    first: CloseReason,
    second: CloseReason,
)
    ensures
        reason_or_despawned(reasons.insert(root, first), root) == first,
        reason_or_despawned(reasons.insert(root, first).insert(root, second), root) == second,
{
}

/// A root that leaves without a requested close reports `Despawned`.
pub proof fn lemma_unrequested_close_reports_despawned(reasons: Map<u64, CloseReason>, root: u64)
    requires
        !reasons.contains_key(root),
    ensures
        reason_or_despawned(reasons, root) == CloseReason::Despawned,
{
}

} // verus!
