//! Focus and keyboard navigation for focusable widgets.
//!
//! A navigable widget is a [`Focusable`] tagged with its **scope** (an overlay
//! root or a standalone focus-scope container) and its tab `order`. Only the
//! **active** scope takes part: the top overlay if one is open, otherwise the
//! lowest standalone scope. Within a scope the tab order sorts widgets by
//! `order`, ties kept in the order the widgets are listed; navigation moves to
//! the neighbour in that order and wraps at the ends.
//!
//! Every decision here returns the focus commands to apply, in order:
//! remove the focus mark from an entity, or put it on one.

use vstd::prelude::*;

verus! {

/// A navigable widget: its entity (bits), its scope's entity and its tab order.
#[derive(Clone, Copy, PartialEq, Eq, Debug, Structural)]
pub struct Focusable {
    pub entity: u64,
    pub scope: u64,
    pub order: usize,
}

/// One change to the focus mark.
#[derive(Clone, Copy, PartialEq, Eq, Debug, Structural)]
pub enum FocusCommand {
    /// Take the focus mark off this entity.
    Remove(u64),
    /// Put the focus mark on this entity.
    Insert(u64),
}

/// A widget whose pointer interaction changed this frame.
#[derive(Clone, Copy, PartialEq, Eq, Debug, Structural)]
pub struct HoverChange {
    pub entity: u64,
    pub scope: u64,
    /// Whether the new interaction is a hover.
    pub hovered: bool,
}

/// The keyboard this frame: every field but `shift` means "just pressed";
/// `shift` means either shift key is held.
#[derive(Clone, Copy, PartialEq, Eq, Debug, Structural)]
pub struct KeyState {
    pub tab: bool,
    pub shift: bool,
    pub arrow_up: bool,
    pub arrow_down: bool,
    pub arrow_left: bool,
    pub arrow_right: bool,
    pub enter: bool,
    pub space: bool,
    pub escape: bool,
}

/// Which way focus moves through the tab order.
#[derive(Clone, Copy, PartialEq, Eq, Debug, Structural)]
pub enum NavDirection {
    Next,
    Prev,
}

/// Which way a focused slider is nudged.
#[derive(Clone, Copy, PartialEq, Eq, Debug, Structural)]
pub enum Nudge {
    Raise,
    Lower,
}

/// The navigation a key press asks for: Down or Tab moves on, Up or
/// Shift+Tab moves back; moving on wins when both are asked.
pub open spec fn spec_nav_direction(keys: KeyState) -> Option<NavDirection> {
    if keys.arrow_down || (keys.tab && !keys.shift) {
        Some(NavDirection::Next)
    } else if keys.arrow_up || (keys.tab && keys.shift) {
        Some(NavDirection::Prev)
    } else {
        None
    }
}

/// Which way focus moves this frame, if at all.
pub fn nav_direction(keys: &KeyState) -> (r: Option<NavDirection>)
    ensures
        r == spec_nav_direction(*keys),
{
    let next = keys.arrow_down || (keys.tab && !keys.shift);
    let prev = keys.arrow_up || (keys.tab && keys.shift);
    if next {
        Some(NavDirection::Next)
    } else if prev {
        Some(NavDirection::Prev)
    } else {
        None
    }
}

/// Enter or Space activates the focused widget.
pub fn activates(keys: &KeyState) -> (r: bool)
    ensures
        r == (keys.enter || keys.space),
{
    keys.enter || keys.space
}

/// Right raises a focused slider, Left lowers it; Right wins when both are
/// pressed.
pub fn slider_nudge(keys: &KeyState) -> (r: Option<Nudge>)
    ensures
        r == (if keys.arrow_right {
            Some(Nudge::Raise)
        } else if keys.arrow_left {
            Some(Nudge::Lower)
        } else {
            None
        }),
{
    if keys.arrow_right {
        Some(Nudge::Raise)
    } else if keys.arrow_left {
        Some(Nudge::Lower)
    } else {
        None
    }
}

/// The scope that owns keyboard focus: the top overlay if one is open, else the
/// lowest standalone scope, else none.
pub fn active_scope(top: Option<u64>, scopes: &Vec<u64>) -> (r: Option<u64>)
    ensures
        top is Some ==> r == top,
        top is None && scopes@.len() == 0 ==> r is None,
        top is None && scopes@.len() > 0 ==> (r matches Some(m) && scopes@.contains(m) && forall|
            i: int,
        |
            0 <= i < scopes@.len() ==> m <= #[trigger] scopes@[i]),
{
    if let Some(t) = top {
        return Some(t);
    }
    if scopes.len() == 0 {
        return None;
    }
    let mut m = scopes[0];
    let mut i: usize = 1;
    while i < scopes.len()
        invariant
            1 <= i <= scopes@.len(),
            scopes@.contains(m),
            forall|j: int| 0 <= j < i ==> m <= #[trigger] scopes@[j],
        decreases scopes@.len() - i,
    {
        if scopes[i] < m {
            m = scopes[i];
        }
        i = i + 1;
    }
    Some(m)
}

/// Position `i` holds a focusable of `scope`.
pub open spec fn in_scope(s: Seq<Focusable>, scope: u64, i: int) -> bool {
    0 <= i < s.len() && s[i].scope == scope
}

/// Some focusable belongs to `scope`.
pub open spec fn any_in_scope(s: Seq<Focusable>, scope: u64) -> bool {
    exists|i: int| in_scope(s, scope, i)
}

/// Tab order: by `order`, ties broken by position in the list.
pub open spec fn tab_before(s: Seq<Focusable>, i: int, j: int) -> bool {
    s[i].order < s[j].order || (s[i].order == s[j].order && i < j)
}

/// `i` comes first in `scope`'s tab order.
pub open spec fn is_first_in_tab_order(s: Seq<Focusable>, scope: u64, i: int) -> bool {
    &&& in_scope(s, scope, i)
    &&& forall|j: int| in_scope(s, scope, j) && j != i ==> tab_before(s, i, j)
}

/// `i` comes last in `scope`'s tab order.
pub open spec fn is_last_in_tab_order(s: Seq<Focusable>, scope: u64, i: int) -> bool {
    &&& in_scope(s, scope, i)
    &&& forall|j: int| in_scope(s, scope, j) && j != i ==> tab_before(s, j, i)
}

/// `i` directly follows `c` in `scope`'s tab order.
pub open spec fn is_next_after(s: Seq<Focusable>, scope: u64, c: int, i: int) -> bool {
    &&& in_scope(s, scope, i)
    &&& tab_before(s, c, i)
    &&& forall|j: int| in_scope(s, scope, j) && tab_before(s, c, j) && j != i ==> tab_before(s, i, j)
}

/// `i` directly precedes `c` in `scope`'s tab order.
pub open spec fn is_prev_before(s: Seq<Focusable>, scope: u64, c: int, i: int) -> bool {
    &&& in_scope(s, scope, i)
    &&& tab_before(s, i, c)
    &&& forall|j: int| in_scope(s, scope, j) && tab_before(s, j, c) && j != i ==> tab_before(s, j, i)
}

/// Nothing in `scope` follows `c`.
pub open spec fn nothing_after(s: Seq<Focusable>, scope: u64, c: int) -> bool {
    forall|j: int| in_scope(s, scope, j) ==> !tab_before(s, c, j)
}

/// Nothing in `scope` precedes `c`.
pub open spec fn nothing_before(s: Seq<Focusable>, scope: u64, c: int) -> bool {
    forall|j: int| in_scope(s, scope, j) ==> !tab_before(s, j, c)
}

/// `i` is where Next lands from `c`: the following widget, or the first one
/// when `c` is the last.
pub open spec fn cyclic_next(s: Seq<Focusable>, scope: u64, c: int, i: int) -> bool {
    ||| is_next_after(s, scope, c, i)
    ||| (nothing_after(s, scope, c) && is_first_in_tab_order(s, scope, i))
}

/// `i` is where Prev lands from `c`: the preceding widget, or the last one
/// when `c` is the first.
pub open spec fn cyclic_prev(s: Seq<Focusable>, scope: u64, c: int, i: int) -> bool {
    ||| is_prev_before(s, scope, c, i)
    ||| (nothing_before(s, scope, c) && is_last_in_tab_order(s, scope, i))
}

/// `e` is the entity of some focusable of `scope`.
pub open spec fn entity_in_scope(s: Seq<Focusable>, scope: u64, e: u64) -> bool {
    exists|i: int| in_scope(s, scope, i) && s[i].entity == e
}

/// `c` is, among the focusables of `scope` with entity `e`, the first in tab
/// order.
pub open spec fn first_of_entity(s: Seq<Focusable>, scope: u64, e: u64, c: int) -> bool {
    &&& in_scope(s, scope, c)
    &&& s[c].entity == e
    &&& forall|j: int| in_scope(s, scope, j) && s[j].entity == e && j != c ==> tab_before(s, c, j)
}

/// Some focused entity belongs to `scope`.
pub open spec fn has_current(s: Seq<Focusable>, scope: u64, focused: Seq<u64>) -> bool {
    exists|k: int| 0 <= k < focused.len() && entity_in_scope(s, scope, focused[k])
}

/// `c` is the current widget: it carries the first focused entity (in the
/// focused list's order) that belongs to `scope`.
pub open spec fn is_current(s: Seq<Focusable>, scope: u64, focused: Seq<u64>, c: int) -> bool {
    exists|k: int|
        #![trigger focused[k]]
        0 <= k < focused.len() && (forall|k2: int|
            0 <= k2 < k ==> !entity_in_scope(s, scope, #[trigger] focused[k2])) && first_of_entity(
            s,
            scope,
            focused[k],
            c,
        )
}

/// Where navigation starts: the current widget, or the first in tab order when
/// no focused entity belongs to `scope`.
pub open spec fn navigation_origin(s: Seq<Focusable>, scope: u64, focused: Seq<u64>, c: int) -> bool {
    if has_current(s, scope, focused) {
        is_current(s, scope, focused, c)
    } else {
        is_first_in_tab_order(s, scope, c)
    }
}

/// `t` is where one step in `dir` lands.
pub open spec fn navigation_target(
    s: Seq<Focusable>,
    scope: u64,
    focused: Seq<u64>,
    dir: NavDirection,
    t: int,
) -> bool {
    exists|c: int|
        #![trigger navigation_origin(s, scope, focused, c)]
        navigation_origin(s, scope, focused, c) && match dir {
            NavDirection::Next => cyclic_next(s, scope, c, t),
            NavDirection::Prev => cyclic_prev(s, scope, c, t),
        }
}

/// The commands that take the focus mark off every focused entity, in order.
pub open spec fn removals(focused: Seq<u64>) -> Seq<FocusCommand> {
    focused.map_values(|e: u64| FocusCommand::Remove(e))
}

/// `i` is the first focusable in the list carrying entity `e`.
pub open spec fn first_with_entity(s: Seq<Focusable>, e: u64, i: int) -> bool {
    &&& 0 <= i < s.len()
    &&& s[i].entity == e
    &&& forall|j: int| 0 <= j < i ==> s[j].entity != e
}

/// The focus is still valid: the first focused entity is a focusable of the
/// active scope.
pub open spec fn focus_is_valid(s: Seq<Focusable>, active: Option<u64>, focused: Seq<u64>) -> bool {
    &&& focused.len() > 0
    &&& exists|i: int| first_with_entity(s, focused[0], i) && active == Some(#[trigger] s[i].scope)
}

/// Keeps every entity but `x`.
pub open spec fn other_than(x: u64) -> spec_fn(u64) -> bool {
    |o: u64| o != x
}

/// What keeping focus in the active scope does to the focus mark. While the
/// first focused entity is a focusable of the active scope, the mark comes off
/// every other focused entity; otherwise it comes off every focused entity
/// and goes onto the active scope's first widget in tab order, if any.
pub open spec fn maintain_result(
    active: Option<u64>,
    s: Seq<Focusable>,
    focused: Seq<u64>,
    cmds: Seq<FocusCommand>,
) -> bool {
    if focus_is_valid(s, active, focused) {
        cmds == removals(focused.filter(other_than(focused[0])))
    } else if active is Some && any_in_scope(s, active->0) {
        exists|i: int|
            is_first_in_tab_order(s, active->0, i) && cmds == removals(focused).push(
                FocusCommand::Insert(#[trigger] s[i].entity),
            )
    } else {
        cmds == removals(focused)
    }
}

/// A hover change that moves the focus mark: a hover on a widget of the active
/// scope.
pub open spec fn qualifies(active: Option<u64>, c: HoverChange) -> bool {
    c.hovered && active == Some(c.scope)
}

/// Some change of the frame moves the focus mark.
pub open spec fn any_qualifying(active: Option<u64>, changed: Seq<HoverChange>) -> bool {
    exists|i: int| 0 <= i < changed.len() && qualifies(active, #[trigger] changed[i])
}

/// `i` is the frame's last change that moves the focus mark.
pub open spec fn is_last_qualifying(active: Option<u64>, changed: Seq<HoverChange>, i: int) -> bool {
    &&& 0 <= i < changed.len()
    &&& qualifies(active, changed[i])
    &&& forall|j: int| i < j < changed.len() ==> !qualifies(active, #[trigger] changed[j])
}

/// What a frame's hover changes do to the focus mark: when some change
/// hovers a widget of the active scope, the mark comes off every other focused
/// entity and goes onto the last such widget; otherwise nothing changes.
pub open spec fn hover_result(
    active: Option<u64>,
    changed: Seq<HoverChange>,
    focused: Seq<u64>,
    cmds: Seq<FocusCommand>,
) -> bool {
    if any_qualifying(active, changed) {
        exists|i: int|
            is_last_qualifying(active, changed, i) && cmds == removals(
                focused.filter(other_than(#[trigger] changed[i].entity)),
            ).push(FocusCommand::Insert(changed[i].entity))
    } else {
        cmds == Seq::<FocusCommand>::empty()
    }
}

/// What one navigation step does to the focus mark.
pub open spec fn navigate_result(
    keys: KeyState,
    active: Option<u64>,
    s: Seq<Focusable>,
    focused: Seq<u64>,
    r: Option<Seq<FocusCommand>>,
) -> bool {
    &&& r is Some <==> (active is Some && spec_nav_direction(keys) is Some && any_in_scope(
        s,
        active->0,
    ))
    &&& r matches Some(cmds) ==> exists|t: int|
        navigation_target(s, active->0, focused, spec_nav_direction(keys)->0, t) && cmds
            == removals(focused).push(FocusCommand::Insert(#[trigger] s[t].entity))
}

/// The view of an optional command list.
pub open spec fn commands_view(r: Option<Vec<FocusCommand>>) -> Option<Seq<FocusCommand>> {
    match r {
        Some(v) => Some(v@),
        None => None,
    }
}

/// The first focusable of `scope` in tab order, by position.
fn first_in_tab_order(s: &Vec<Focusable>, scope: u64) -> (r: Option<usize>)
    ensures
        r is None <==> !any_in_scope(s@, scope),
        r matches Some(i) ==> is_first_in_tab_order(s@, scope, i as int),
{
    let mut best: Option<usize> = None;
    let mut i: usize = 0;
    while i < s.len()
        invariant
            i <= s@.len(),
            best is None ==> forall|j: int| 0 <= j < i ==> !in_scope(s@, scope, j),
            best matches Some(b) ==> b < i && in_scope(s@, scope, b as int) && forall|j: int|
                0 <= j < i && in_scope(s@, scope, j) && j != b ==> tab_before(s@, b as int, j),
        decreases s@.len() - i,
    {
        if s[i].scope == scope {
            match best {
                None => {
                    best = Some(i);
                },
                Some(b) => {
                    if s[i].order < s[b].order {
                        best = Some(i);
                    }
                },
            }
        }
        i = i + 1;
    }
    best
}

/// The last focusable of `scope` in tab order, by position.
fn last_in_tab_order(s: &Vec<Focusable>, scope: u64) -> (r: Option<usize>)
    ensures
        r is None <==> !any_in_scope(s@, scope),
        r matches Some(i) ==> is_last_in_tab_order(s@, scope, i as int),
{
    let mut best: Option<usize> = None;
    let mut i: usize = 0;
    while i < s.len()
        invariant
            i <= s@.len(),
            best is None ==> forall|j: int| 0 <= j < i ==> !in_scope(s@, scope, j),
            best matches Some(b) ==> b < i && in_scope(s@, scope, b as int) && forall|j: int|
                0 <= j < i && in_scope(s@, scope, j) && j != b ==> tab_before(s@, j, b as int),
        decreases s@.len() - i,
    {
        if s[i].scope == scope {
            match best {
                None => {
                    best = Some(i);
                },
                Some(b) => {
                    if s[i].order >= s[b].order {
                        best = Some(i);
                    }
                },
            }
        }
        i = i + 1;
    }
    best
}

/// The focusable of `scope` directly after `c` in tab order, by position.
fn next_after(s: &Vec<Focusable>, scope: u64, c: usize) -> (r: Option<usize>)
    requires
        c < s@.len(),
    ensures
        r is None <==> nothing_after(s@, scope, c as int),
        r matches Some(i) ==> is_next_after(s@, scope, c as int, i as int),
{
    let mut best: Option<usize> = None;
    let mut i: usize = 0;
    while i < s.len()
        invariant
            i <= s@.len(),
            c < s@.len(),
            best is None ==> forall|j: int|
                0 <= j < i && in_scope(s@, scope, j) ==> !tab_before(s@, c as int, j),
            best matches Some(b) ==> b < i && in_scope(s@, scope, b as int) && tab_before(
                s@,
                c as int,
                b as int,
            ) && forall|j: int|
                0 <= j < i && in_scope(s@, scope, j) && tab_before(s@, c as int, j) && j != b
                    ==> tab_before(s@, b as int, j),
        decreases s@.len() - i,
    {
        let after = s[c].order < s[i].order || (s[c].order == s[i].order && c < i);
        if s[i].scope == scope && after {
            match best {
                None => {
                    best = Some(i);
                },
                Some(b) => {
                    if s[i].order < s[b].order {
                        best = Some(i);
                    }
                },
            }
        }
        i = i + 1;
    }
    best
}

/// The focusable of `scope` directly before `c` in tab order, by position.
fn prev_before(s: &Vec<Focusable>, scope: u64, c: usize) -> (r: Option<usize>)
    requires
        c < s@.len(),
    ensures
        r is None <==> nothing_before(s@, scope, c as int),
        r matches Some(i) ==> is_prev_before(s@, scope, c as int, i as int),
{
    let mut best: Option<usize> = None;
    let mut i: usize = 0;
    while i < s.len()
        invariant
            i <= s@.len(),
            c < s@.len(),
            best is None ==> forall|j: int|
                0 <= j < i && in_scope(s@, scope, j) ==> !tab_before(s@, j, c as int),
            best matches Some(b) ==> b < i && in_scope(s@, scope, b as int) && tab_before(
                s@,
                b as int,
                c as int,
            ) && forall|j: int|
                0 <= j < i && in_scope(s@, scope, j) && tab_before(s@, j, c as int) && j != b
                    ==> tab_before(s@, j, b as int),
        decreases s@.len() - i,
    {
        let before = s[i].order < s[c].order || (s[i].order == s[c].order && i < c);
        if s[i].scope == scope && before {
            match best {
                None => {
                    best = Some(i);
                },
                Some(b) => {
                    if s[i].order >= s[b].order {
                        best = Some(i);
                    }
                },
            }
        }
        i = i + 1;
    }
    best
}

/// Among the focusables of `scope` carrying entity `e`, the first in tab order.
fn first_of_entity_in(s: &Vec<Focusable>, scope: u64, e: u64) -> (r: Option<usize>)
    ensures
        r is None <==> !entity_in_scope(s@, scope, e),
        r matches Some(i) ==> first_of_entity(s@, scope, e, i as int),
{
    let mut best: Option<usize> = None;
    let mut i: usize = 0;
    while i < s.len()
        invariant
            i <= s@.len(),
            best is None ==> forall|j: int|
                0 <= j < i && in_scope(s@, scope, j) ==> s@[j].entity != e,
            best matches Some(b) ==> b < i && in_scope(s@, scope, b as int) && s@[b as int].entity
                == e && forall|j: int|
                0 <= j < i && in_scope(s@, scope, j) && s@[j].entity == e && j != b ==> tab_before(
                    s@,
                    b as int,
                    j,
                ),
        decreases s@.len() - i,
    {
        if s[i].scope == scope && s[i].entity == e {
            match best {
                None => {
                    best = Some(i);
                },
                Some(b) => {
                    if s[i].order < s[b].order {
                        best = Some(i);
                    }
                },
            }
        }
        i = i + 1;
    }
    best
}

/// The current widget of `scope`: the one carrying the first focused entity
/// that belongs to the scope.
fn current_in_scope(s: &Vec<Focusable>, scope: u64, focused: &Vec<u64>) -> (r: Option<usize>)
    ensures
        r is None <==> !has_current(s@, scope, focused@),
        r matches Some(c) ==> is_current(s@, scope, focused@, c as int),
{
    let mut k: usize = 0;
    while k < focused.len()
        invariant
            k <= focused@.len(),
            forall|k2: int| 0 <= k2 < k ==> !entity_in_scope(s@, scope, #[trigger] focused@[k2]),
        decreases focused@.len() - k,
    {
        if let Some(c) = first_of_entity_in(s, scope, focused[k]) {
            assert(is_current(s@, scope, focused@, c as int)) by {
                assert(0 <= k < focused@.len());
            }
            return Some(c);
        }
        k = k + 1;
    }
    None
}

/// The entity that comes first in `scope`'s tab order: lowest `order`, the
/// earliest listed among equals.
pub fn lowest_order(focusables: &Vec<Focusable>, scope: u64) -> (r: Option<u64>)
    ensures
        r is None <==> !any_in_scope(focusables@, scope),
        r matches Some(e) ==> exists|i: int|
            is_first_in_tab_order(focusables@, scope, i) && #[trigger] focusables@[i].entity == e,
{
    match first_in_tab_order(focusables, scope) {
        Some(i) => {
            assert(is_first_in_tab_order(focusables@, scope, i as int));
            Some(focusables[i].entity)
        },
        None => None,
    }
}

/// The scope of the first focusable carrying entity `e`.
fn scope_of(s: &Vec<Focusable>, e: u64) -> (r: Option<u64>)
    ensures
        r is None <==> forall|j: int| 0 <= j < s@.len() ==> s@[j].entity != e,
        r matches Some(sc) ==> exists|i: int| first_with_entity(s@, e, i) && #[trigger] s@[i].scope == sc,
{
    let mut i: usize = 0;
    while i < s.len()
        invariant
            i <= s@.len(),
            forall|j: int| 0 <= j < i ==> s@[j].entity != e,
        decreases s@.len() - i,
    {
        if s[i].entity == e {
            assert(first_with_entity(s@, e, i as int));
            return Some(s[i].scope);
        }
        i = i + 1;
    }
    None
}

fn remove_all(focused: &Vec<u64>) -> (r: Vec<FocusCommand>)
    ensures
        r@ == removals(focused@),
{
    let mut r: Vec<FocusCommand> = Vec::new();
    let mut i: usize = 0;
    while i < focused.len()
        invariant
            i <= focused@.len(),
            r@ == removals(focused@.take(i as int)),
        decreases focused@.len() - i,
    {
        r.push(FocusCommand::Remove(focused[i]));
        assert(removals(focused@.take(i + 1)) =~= removals(focused@.take(i as int)).push(
            FocusCommand::Remove(focused@[i as int]),
        ));
        i = i + 1;
    }
    assert(focused@.take(focused@.len() as int) =~= focused@);
    r
}

/// Keep focus in the active scope, on exactly one widget. While the first
/// focused entity is a focusable of the active scope, the mark comes off every
/// other focused entity; otherwise the mark comes off every focused entity and
/// goes onto the active scope's first widget in tab order, if there is one.
pub fn maintain_focus(active: Option<u64>, focusables: &Vec<Focusable>, focused: &Vec<u64>) -> (r:
    Vec<FocusCommand>)
    ensures
        maintain_result(active, focusables@, focused@, r@),
        active is Some && any_in_scope(focusables@, active->0) ==> exists|i: int|
            in_scope(focusables@, active->0, i) && apply_focus(focused@.to_set(), r@) == set![
                #[trigger] focusables@[i].entity,
            ],
        active is None || !any_in_scope(focusables@, active->0) ==> apply_focus(
            focused@.to_set(),
            r@,
        ) == Set::<u64>::empty(),
{
    let valid = if focused.len() > 0 {
        match (scope_of(focusables, focused[0]), active) {
            (Some(sc), Some(a)) => sc == a,
            _ => false,
        }
    } else {
        false
    };
    if valid {
        let r = remove_all_but(focused, focused[0]);
        proof {
            lemma_maintain_marks(active, focusables@, focused@, r@);
        }
        return r;
    }
    let mut cmds = remove_all(focused);
    if let Some(a) = active {
        if let Some(first) = first_in_tab_order(focusables, a) {
            cmds.push(FocusCommand::Insert(focusables[first].entity));
            assert(is_first_in_tab_order(focusables@, a, first as int));
        }
    }
    proof {
        lemma_maintain_marks(active, focusables@, focused@, cmds@);
    }
    cmds
}

/// The commands that take the focus mark off every focused entity but `keep`.
fn remove_all_but(focused: &Vec<u64>, keep: u64) -> (r: Vec<FocusCommand>)
    ensures
        r@ == removals(focused@.filter(other_than(keep))),
{
    broadcast use vstd::seq_lib::group_filter_ensures;

    let ghost p = other_than(keep);
    let mut r: Vec<FocusCommand> = Vec::new();
    let mut k: usize = 0;
    while k < focused.len()
        invariant
            k <= focused@.len(),
            p == other_than(keep),
            r@ == removals(focused@.take(k as int).filter(p)),
        decreases focused@.len() - k,
    {
        let other = focused[k];
        proof {
            assert(focused@.take(k + 1) =~= focused@.take(k as int).push(other));
            focused@.take(k as int).lemma_filter_push(other, p);
        }
        if other != keep {
            r.push(FocusCommand::Remove(other));
            assert(removals(focused@.take(k as int).filter(p).push(other)) =~= removals(
                focused@.take(k as int).filter(p),
            ).push(FocusCommand::Remove(other)));
        }
        assert(r@ =~= removals(focused@.take(k + 1).filter(p)));
        k = k + 1;
    }
    assert(focused@.take(focused@.len() as int) =~= focused@);
    r
}

/// Move focus one step through the active scope's tab order. Nothing happens
/// without an active scope, without a navigation key, or when the scope has
/// no focusable; otherwise the mark comes off every focused entity and goes
/// onto the widget one step from the current one (the first in tab order when
/// nothing in the scope is focused), wrapping at the ends.
pub fn navigate_focus(
    keys: &KeyState,
    active: Option<u64>,
    focusables: &Vec<Focusable>,
    focused: &Vec<u64>,
) -> (r: Option<Vec<FocusCommand>>)
    ensures
        r is Some <==> (active is Some && spec_nav_direction(*keys) is Some && any_in_scope(
            focusables@,
            active->0,
        )),
        r matches Some(cmds) ==> exists|t: int|
            navigation_target(
                focusables@,
                active->0,
                focused@,
                spec_nav_direction(*keys)->0,
                t,
            ) && cmds@ == removals(focused@).push(
                FocusCommand::Insert(#[trigger] focusables@[t].entity),
            ),
        navigate_result(*keys, active, focusables@, focused@, commands_view(r)),
{
    let a = match active {
        Some(a) => a,
        None => {
            return None;
        },
    };
    let dir = match nav_direction(keys) {
        Some(d) => d,
        None => {
            return None;
        },
    };
    let first = match first_in_tab_order(focusables, a) {
        Some(f) => f,
        None => {
            return None;
        },
    };
    let origin = match current_in_scope(focusables, a, focused) {
        Some(c) => c,
        None => first,
    };
    assert(navigation_origin(focusables@, a, focused@, origin as int));
    let target = match dir {
        NavDirection::Next => match next_after(focusables, a, origin) {
            Some(t) => t,
            None => first,
        },
        NavDirection::Prev => match prev_before(focusables, a, origin) {
            Some(t) => t,
            None => match last_in_tab_order(focusables, a) {
                Some(l) => l,
                None => first,
            },
        },
    };
    assert(navigation_target(focusables@, a, focused@, dir, target as int));
    let mut cmds = remove_all(focused);
    cmds.push(FocusCommand::Insert(focusables[target].entity));
    Some(cmds)
}

/// Hovering a widget of the active scope focuses it, so pointer and keyboard
/// agree; a hover in another scope never steals focus. When several widgets
/// of the active scope are hovered in one frame, the last one wins: the mark
/// comes off every other focused entity and goes onto it.
pub fn hover_focuses(active: Option<u64>, changed: &Vec<HoverChange>, focused: &Vec<u64>) -> (r:
    Vec<FocusCommand>)
    ensures
        hover_result(active, changed@, focused@, r@),
{
    let mut last: Option<usize> = None;
    let mut i: usize = 0;
    while i < changed.len()
        invariant
            i <= changed@.len(),
            last is None ==> forall|j: int| 0 <= j < i ==> !qualifies(active, #[trigger] changed@[j]),
            last matches Some(b) ==> b < i && qualifies(active, changed@[b as int]) && forall|j: int|
                b < j < i ==> !qualifies(active, #[trigger] changed@[j]),
        decreases changed@.len() - i,
    {
        let c = changed[i];
        let hit = c.hovered && match active {
            Some(a) => a == c.scope,
            None => false,
        };
        if hit {
            last = Some(i);
        }
        i = i + 1;
    }
    match last {
        Some(b) => {
            let e = changed[b].entity;
            let mut cmds = remove_all_but(focused, e);
            cmds.push(FocusCommand::Insert(e));
            assert(is_last_qualifying(active, changed@, b as int));
            assert(any_qualifying(active, changed@)) by {
                assert(qualifies(active, changed@[b as int]));
            }
            cmds
        },
        None => Vec::new(),
    }
}

/// The entities that carry the focus mark after applying `cmds`, in order, to
/// the entities marked before.
pub open spec fn apply_focus(marked: Set<u64>, cmds: Seq<FocusCommand>) -> Set<u64>
    decreases cmds.len(),
{
    if cmds.len() == 0 {
        marked
    } else {
        let before = apply_focus(marked, cmds.drop_last());
        match cmds.last() {
            FocusCommand::Remove(e) => before.remove(e),
            FocusCommand::Insert(e) => before.insert(e),
        }
    }
}

proof fn lemma_removals_clear(marked: Set<u64>, focused: Seq<u64>)
    ensures
        apply_focus(marked, removals(focused)) == marked.difference(focused.to_set()),
    decreases focused.len(),
{
    if focused.len() == 0 {
        assert(removals(focused) =~= Seq::<FocusCommand>::empty());
        assert(marked.difference(focused.to_set()) =~= marked);
    } else {
        let init = focused.drop_last();
        lemma_removals_clear(marked, init);
        assert(removals(focused).drop_last() =~= removals(init));
        assert(focused.to_set() =~= init.to_set().insert(focused.last())) by {
            assert forall|x: u64| #[trigger] focused.to_set().contains(x) == init.to_set().insert(
                focused.last(),
            ).contains(x) by {
                if focused.contains(x) {
                    let j = choose|j: int| 0 <= j < focused.len() && focused[j] == x;
                    if j < focused.len() - 1 {
                        assert(init[j] == x);
                    }
                }
                if init.contains(x) {
                    let j = choose|j: int| 0 <= j < init.len() && init[j] == x;
                    assert(focused[j] == x);
                }
                if x == focused.last() {
                    assert(focused[focused.len() - 1] == x);
                }
            }
        }
        assert(apply_focus(marked, removals(focused)) =~= marked.difference(focused.to_set()));
    }
}

/// Exactly one widget is focused after a navigation step or a focus repair:
/// taking the mark off every focused entity and then putting it on one
/// leaves that one alone marked.
pub proof fn lemma_focus_lands_on_exactly_one(focused: Seq<u64>, target: u64)
    ensures
        apply_focus(focused.to_set(), removals(focused).push(FocusCommand::Insert(target)))
            == set![target],
{
    lemma_removals_clear(focused.to_set(), focused);
    let cmds = removals(focused).push(FocusCommand::Insert(target));
    assert(cmds.drop_last() =~= removals(focused));
    assert(focused.to_set().difference(focused.to_set()) =~= Set::<u64>::empty());
    assert(apply_focus(focused.to_set(), cmds) =~= set![target]);
}

proof fn lemma_filter_other_than_set(f: Seq<u64>, x: u64)
    ensures
        f.filter(other_than(x)).to_set() == f.to_set().remove(x),
{
    broadcast use vstd::seq_lib::group_filter_ensures;

    let g = f.filter(other_than(x));
    assert forall|o: u64| #[trigger] g.to_set().contains(o) == f.to_set().remove(x).contains(o) by {
        if g.contains(o) {
            let j = choose|j: int| 0 <= j < g.len() && g[j] == o;
            assert(other_than(x)(g[j]));
            f.lemma_filter_contains_rev(other_than(x), o);
        }
        if f.contains(o) && o != x {
            let j = choose|j: int| 0 <= j < f.len() && f[j] == o;
            f.lemma_filter_contains(other_than(x), j);
        }
    }
    assert(g.to_set() =~= f.to_set().remove(x));
}

/// Taking the mark off every entity but `x` and then putting it on `x` leaves
/// `x` alone marked.
proof fn lemma_all_but_then_insert(f: Seq<u64>, x: u64)
    ensures
        apply_focus(f.to_set(), removals(f.filter(other_than(x))).push(FocusCommand::Insert(x)))
            == set![x],
{
    lemma_removals_clear(f.to_set(), f.filter(other_than(x)));
    lemma_filter_other_than_set(f, x);
    let cmds = removals(f.filter(other_than(x))).push(FocusCommand::Insert(x));
    assert(cmds.drop_last() =~= removals(f.filter(other_than(x))));
    assert(apply_focus(f.to_set(), cmds) =~= set![x]);
}

/// The marks after keeping focus in the active scope: one widget of the active
/// scope when it has a focusable, none otherwise.
proof fn lemma_maintain_marks(
    active: Option<u64>,
    s: Seq<Focusable>,
    focused: Seq<u64>,
    cmds: Seq<FocusCommand>,
)
    requires
        maintain_result(active, s, focused, cmds),
    ensures
        active is Some && any_in_scope(s, active->0) ==> exists|i: int|
            in_scope(s, active->0, i) && apply_focus(focused.to_set(), cmds) == set![
                #[trigger] s[i].entity,
            ],
        active is None || !any_in_scope(s, active->0) ==> apply_focus(focused.to_set(), cmds)
            == Set::<u64>::empty(),
{
    if focus_is_valid(s, active, focused) {
        let x = focused[0];
        let i = choose|i: int| first_with_entity(s, x, i) && active == Some(#[trigger] s[i].scope);
        assert(in_scope(s, active->0, i));
        lemma_removals_clear(focused.to_set(), focused.filter(other_than(x)));
        lemma_filter_other_than_set(focused, x);
        assert(focused.to_set().contains(x)) by {
            assert(focused[0] == x);
        }
        assert(apply_focus(focused.to_set(), cmds) =~= set![s[i].entity]);
    } else if active is Some && any_in_scope(s, active->0) {
        let i = choose|i: int|
            is_first_in_tab_order(s, active->0, i) && cmds == removals(focused).push(
                FocusCommand::Insert(#[trigger] s[i].entity),
            );
        lemma_focus_lands_on_exactly_one(focused, s[i].entity);
    } else {
        lemma_removals_clear(focused.to_set(), focused);
        assert(apply_focus(focused.to_set(), cmds) =~= Set::<u64>::empty());
    }
}

/// The marks after a frame's hover changes: the last widget of the active scope
/// hovered, alone, or the marks unchanged when no such hover happened.
pub proof fn lemma_hover_marks(
    active: Option<u64>,
    changed: Seq<HoverChange>,
    focused: Seq<u64>,
    cmds: Seq<FocusCommand>,
)
    requires
        hover_result(active, changed, focused, cmds),
    ensures
        any_qualifying(active, changed) ==> exists|i: int|
            is_last_qualifying(active, changed, i) && apply_focus(focused.to_set(), cmds)
                == set![#[trigger] changed[i].entity],
        !any_qualifying(active, changed) ==> apply_focus(focused.to_set(), cmds)
            == focused.to_set(),
{
    if any_qualifying(active, changed) {
        let i = choose|i: int|
            is_last_qualifying(active, changed, i) && cmds == removals(
                focused.filter(other_than(#[trigger] changed[i].entity)),
            ).push(FocusCommand::Insert(changed[i].entity));
        lemma_all_but_then_insert(focused, changed[i].entity);
    }
}

/// The marks after one navigation step: the target alone.
pub proof fn lemma_navigate_marks(
    keys: KeyState,
    active: Option<u64>,
    s: Seq<Focusable>,
    focused: Seq<u64>,
    r: Option<Seq<FocusCommand>>,
)
    requires
        navigate_result(keys, active, s, focused, r),
    ensures
        r matches Some(cmds) ==> exists|t: int|
            in_scope(s, active->0, t) && apply_focus(focused.to_set(), cmds) == set![
                #[trigger] s[t].entity,
            ],
{
    if let Some(cmds) = r {
        let t = choose|t: int|
            navigation_target(s, active->0, focused, spec_nav_direction(keys)->0, t) && cmds
                == removals(focused).push(FocusCommand::Insert(#[trigger] s[t].entity));
        lemma_focus_lands_on_exactly_one(focused, s[t].entity);
        let c = choose|c: int|
            #![trigger navigation_origin(s, active->0, focused, c)]
            navigation_origin(s, active->0, focused, c) && match spec_nav_direction(keys)->0 {
                NavDirection::Next => cyclic_next(s, active->0, c, t),
                NavDirection::Prev => cyclic_prev(s, active->0, c, t),
            };
        assert(in_scope(s, active->0, t));
    }
}

/// No entity, or exactly one, carries the focus mark.
pub open spec fn at_most_one(marked: Set<u64>) -> bool {
    marked == Set::<u64>::empty() || exists|x: u64| marked == set![x]
}

/// The marks after an optional command list.
pub open spec fn marks_after(marked: Set<u64>, r: Option<Seq<FocusCommand>>) -> Set<u64> {
    match r {
        Some(cmds) => apply_focus(marked, cmds),
        None => marked,
    }
}

/// Exactly one widget is focused at a time: after a frame's focus systems run
/// in order (focus repair, then hover, then navigation), each reading the marks
/// the previous one left, at most one entity carries the focus mark, and
/// exactly one whenever the active scope has a focusable.
pub proof fn lemma_focus_frame_marks_at_most_one(
    active: Option<u64>,
    s: Seq<Focusable>,
    keys: KeyState,
    changed: Seq<HoverChange>,
    f0: Seq<u64>,
    c1: Seq<FocusCommand>,
    f1: Seq<u64>,
    c2: Seq<FocusCommand>,
    f2: Seq<u64>,
    c3: Option<Seq<FocusCommand>>,
)
    requires
        maintain_result(active, s, f0, c1),
        f1.to_set() == apply_focus(f0.to_set(), c1),
        hover_result(active, changed, f1, c2),
        f2.to_set() == apply_focus(f1.to_set(), c2),
        navigate_result(keys, active, s, f2, c3),
    ensures
        at_most_one(marks_after(f2.to_set(), c3)),
        marks_after(f2.to_set(), c3).len() <= 1,
        active is Some && any_in_scope(s, active->0) ==> marks_after(f2.to_set(), c3).len() == 1,
{
    lemma_maintain_marks(active, s, f0, c1);
    lemma_hover_marks(active, changed, f1, c2);
    lemma_navigate_marks(keys, active, s, f2, c3);
    let m = marks_after(f2.to_set(), c3);
    if c3 is Some {
        let t = choose|t: int|
            in_scope(s, active->0, t) && apply_focus(f2.to_set(), c3->0) == set![#[trigger] s[t].entity];
        assert(m == set![s[t].entity]);
    } else if any_qualifying(active, changed) {
        let i = choose|i: int|
            is_last_qualifying(active, changed, i) && apply_focus(f1.to_set(), c2) == set![
                #[trigger] changed[i].entity,
            ];
        assert(m == set![changed[i].entity]);
    } else if active is Some && any_in_scope(s, active->0) {
        let i = choose|i: int|
            in_scope(s, active->0, i) && apply_focus(f0.to_set(), c1) == set![#[trigger] s[i].entity];
        assert(m == set![s[i].entity]);
    } else {
        assert(m == Set::<u64>::empty());
    }
}

/// No two focusables share an entity, as in a query over widgets.
pub open spec fn entities_distinct(s: Seq<Focusable>) -> bool {
    forall|i: int, j: int| 0 <= i < s.len() && 0 <= j < s.len() && i != j ==> s[i].entity != s[j].entity
}

proof fn lemma_origin_of_single_focus(s: Seq<Focusable>, scope: u64, c: int, o: int)
    requires
        entities_distinct(s),
        in_scope(s, scope, c),
        navigation_origin(s, scope, seq![s[c].entity], o),
    ensures
        o == c,
{
    let f = seq![s[c].entity];
    assert(entity_in_scope(s, scope, f[0]));
    assert(has_current(s, scope, f));
    let k = choose|k: int|
        #![trigger f[k]]
        0 <= k < f.len() && (forall|k2: int|
            0 <= k2 < k ==> !entity_in_scope(s, scope, #[trigger] f[k2])) && first_of_entity(
            s,
            scope,
            f[k],
            o,
        );
    assert(k == 0);
}

/// With focus on one widget, Tab and then Shift+Tab (or Down and then Up)
/// bring focus back to that widget.
pub proof fn lemma_tab_then_shift_tab_returns(s: Seq<Focusable>, scope: u64, c: int, t: int, u: int)
    requires
        entities_distinct(s),
        in_scope(s, scope, c),
        navigation_target(s, scope, seq![s[c].entity], NavDirection::Next, t),
        navigation_target(s, scope, seq![s[t].entity], NavDirection::Prev, u),
    ensures
        u == c,
        s[u].entity == s[c].entity,
{
    let o1 = choose|o: int|
        #![trigger navigation_origin(s, scope, seq![s[c].entity], o)]
        navigation_origin(s, scope, seq![s[c].entity], o) && cyclic_next(s, scope, o, t);
    lemma_origin_of_single_focus(s, scope, c, o1);
    assert(in_scope(s, scope, t));
    let o2 = choose|o: int|
        #![trigger navigation_origin(s, scope, seq![s[t].entity], o)]
        navigation_origin(s, scope, seq![s[t].entity], o) && cyclic_prev(s, scope, o, u);
    lemma_origin_of_single_focus(s, scope, t, o2);
    lemma_next_then_prev_returns(s, scope, c, t, u);
}

/// Focus follows an overlay's open and close: when an overlay with focusables
/// opens on top while focus sits elsewhere, focus repair moves the mark onto
/// the overlay's first widget; when the overlay closes (its widgets gone) and
/// a standalone scope with focusables is active again, the mark returns to
/// that scope's first widget.
pub proof fn lemma_focus_follows_overlay(
    overlay: u64,
    scope: u64,
    open: Seq<Focusable>,
    closed: Seq<Focusable>,
    f0: Seq<u64>,
    c1: Seq<FocusCommand>,
    f1: Seq<u64>,
    c2: Seq<FocusCommand>,
)
    requires
        any_in_scope(open, overlay),
        any_in_scope(closed, scope),
        f0.len() > 0 ==> forall|i: int|
            0 <= i < open.len() && #[trigger] open[i].entity == f0[0] ==> open[i].scope != overlay,
        forall|i: int, j: int|
            in_scope(open, overlay, i) && 0 <= j < closed.len() ==> #[trigger] closed[j].entity
                != #[trigger] open[i].entity,
        maintain_result(Some(overlay), open, f0, c1),
        f1.to_set() == apply_focus(f0.to_set(), c1),
        maintain_result(Some(scope), closed, f1, c2),
    ensures
        exists|i: int|
            is_first_in_tab_order(open, overlay, i) && apply_focus(f0.to_set(), c1) == set![
                #[trigger] open[i].entity,
            ],
        exists|j: int|
            is_first_in_tab_order(closed, scope, j) && apply_focus(f1.to_set(), c2) == set![
                #[trigger] closed[j].entity,
            ],
{
    if focus_is_valid(open, Some(overlay), f0) {
        let i = choose|i: int| first_with_entity(open, f0[0], i) && Some(overlay) == Some(
            #[trigger] open[i].scope,
        );
        assert(open[i].entity == f0[0]);
    }
    let i = choose|i: int|
        is_first_in_tab_order(open, overlay, i) && c1 == removals(f0).push(
            FocusCommand::Insert(#[trigger] open[i].entity),
        );
    lemma_focus_lands_on_exactly_one(f0, open[i].entity);
    let e = open[i].entity;
    assert(f1.to_set().contains(e));
    if focus_is_valid(closed, Some(scope), f1) {
        let j = choose|j: int| first_with_entity(closed, f1[0], j) && Some(scope) == Some(
            #[trigger] closed[j].scope,
        );
        assert(f1.to_set().contains(f1[0]));
        assert(f1[0] == e);
        assert(closed[j].entity != open[i].entity);
    }
    let j = choose|j: int|
        is_first_in_tab_order(closed, scope, j) && c2 == removals(f1).push(
            FocusCommand::Insert(#[trigger] closed[j].entity),
        );
    lemma_focus_lands_on_exactly_one(f1, closed[j].entity);
}

/// Moving Next and then Prev returns focus to where it was.
pub proof fn lemma_next_then_prev_returns(s: Seq<Focusable>, scope: u64, c: int, n: int, p: int)
    requires
        in_scope(s, scope, c),
        cyclic_next(s, scope, c, n),
        cyclic_prev(s, scope, n, p),
    ensures
        p == c,
{
    if is_next_after(s, scope, c, n) {
        assert(!nothing_before(s, scope, n));
        assert(is_prev_before(s, scope, n, p));
        if p != c {
            assert(tab_before(s, c, p));
        }
    } else {
        assert(nothing_after(s, scope, c));
        assert(is_first_in_tab_order(s, scope, n));
        if !nothing_before(s, scope, n) {
            let j = choose|j: int| in_scope(s, scope, j) && tab_before(s, j, n);
            assert(j != n);
        }
        assert(is_last_in_tab_order(s, scope, p));
        if p != c {
            assert(tab_before(s, c, p));
        }
    }
}

/// Moving Prev and then Next returns focus to where it was.
pub proof fn lemma_prev_then_next_returns(s: Seq<Focusable>, scope: u64, c: int, p: int, n: int)
    requires
        in_scope(s, scope, c),
        cyclic_prev(s, scope, c, p),
        cyclic_next(s, scope, p, n),
    ensures
        n == c,
{
    if is_prev_before(s, scope, c, p) {
        assert(!nothing_after(s, scope, p));
        assert(is_next_after(s, scope, p, n));
        if n != c {
            assert(tab_before(s, n, c));
        }
    } else {
        assert(nothing_before(s, scope, c));
        assert(is_last_in_tab_order(s, scope, p));
        if !nothing_after(s, scope, p) {
            let j = choose|j: int| in_scope(s, scope, j) && tab_before(s, p, j);
            assert(j != p);
        }
        assert(is_first_in_tab_order(s, scope, n));
        if n != c {
            assert(tab_before(s, n, c));
        }
    }
}

} // verus!
