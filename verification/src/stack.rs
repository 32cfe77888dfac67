//! The overlay stack: the single source of truth for which overlays are open
//! and in what order. Each entry is an overlay root (an entity, held by its
//! bits), the caller's opaque id and whether Escape may pop it. Layering is by
//! push order: the entry at depth `d` is stamped `Z_BASE + d * Z_STEP`.
//!
//! Pruning is removal-driven: when overlay roots despawn, [`OverlayStack::prune`]
//! drops exactly those entries, keeps the rest in order, and reports one
//! [`OverlayClosed`] per dropped entry with the reason recorded for it.

use crate::events::{reason_or_despawned, CloseReason, CloseReasons, OverlayClosed};
use vstd::prelude::*;

verus! {

/// Global z-index of the bottom overlay.
pub const Z_BASE: i32 = 1000;

/// Global z-index gap between consecutive overlay depths.
pub const Z_STEP: i32 = 10;

/// The mathematical view of one open overlay.
pub struct OpenOverlay {
    pub root: u64,
    pub id: Seq<char>,
    pub pop_on_escape: bool,
}

/// One open overlay as the stack stores it.
pub struct OverlayEntry {
    pub root: u64,
    pub id: String,
    pub pop_on_escape: bool,
}

impl View for OverlayEntry {
    type V = OpenOverlay;

    open spec fn view(&self) -> OpenOverlay {
        OpenOverlay { root: self.root, id: self.id@, pop_on_escape: self.pop_on_escape }
    }
}

impl OverlayEntry {
    fn duplicate(&self) -> (r: Self)
        ensures
            r@ == self@,
    {
        OverlayEntry { root: self.root, id: self.id.clone(), pop_on_escape: self.pop_on_escape }
    }
}

/// No two open overlays share a root.
pub open spec fn roots_distinct(s: Seq<OpenOverlay>) -> bool {
    forall|i: int, j: int| 0 <= i < s.len() && 0 <= j < s.len() && i != j ==> #[trigger] s[i].root
        != #[trigger] s[j].root
}

/// Whether `root` is the root of some open overlay.
pub open spec fn has_root(s: Seq<OpenOverlay>, root: u64) -> bool {
    exists|i: int| 0 <= i < s.len() && #[trigger] s[i].root == root
}

/// Whether some open overlay carries `id`.
pub open spec fn has_id(s: Seq<OpenOverlay>, id: Seq<char>) -> bool {
    exists|i: int| 0 <= i < s.len() && s[i].id == id
}

/// `i` is the lowest position whose overlay carries `id`.
pub open spec fn first_with_id(s: Seq<OpenOverlay>, id: Seq<char>, i: int) -> bool {
    &&& 0 <= i < s.len()
    &&& s[i].id == id
    &&& forall|j: int| 0 <= j < i ==> s[j].id != id
}

/// Whether `root` is among the removed roots.
pub open spec fn removed_root(removed: Seq<u64>) -> spec_fn(OpenOverlay) -> bool {
    |o: OpenOverlay| removed.contains(o.root)
}

/// Whether `root` survives a prune of the removed roots.
pub open spec fn kept_root(removed: Seq<u64>) -> spec_fn(OpenOverlay) -> bool {
    |o: OpenOverlay| !removed.contains(o.root)
}

/// The close message an overlay reports, given the pending reasons.
pub open spec fn closed_message(reasons: Map<u64, CloseReason>) -> spec_fn(OpenOverlay) -> (
    Seq<char>,
    CloseReason,
) {
    |o: OpenOverlay| (o.id, reason_or_despawned(reasons, o.root))
}

/// The global z-index of the overlay at `depth`.
pub open spec fn spec_z_index(depth: int) -> int {
    Z_BASE + depth * Z_STEP
}

/// The global z-index stamped on the overlay root at `depth`.
pub fn z_index(depth: usize) -> (z: i32)
    requires
        spec_z_index(depth as int) <= i32::MAX,
    ensures
        z == spec_z_index(depth as int),
{
    Z_BASE + (depth as i32) * Z_STEP
}

/// Live stack of open overlays, bottom first.
pub struct OverlayStack {
    entries: Vec<OverlayEntry>,
}

impl View for OverlayStack {
    type V = Seq<OpenOverlay>;

    closed spec fn view(&self) -> Seq<OpenOverlay> {
        self.entries@.map_values(|e: OverlayEntry| e@)
    }
}

impl OverlayStack {
    /// Each root is registered once.
    #[verifier::type_invariant]
    spec fn distinct(self) -> bool {
        roots_distinct(self@)
    }

    /// An empty stack.
    pub fn new() -> (r: Self)
        ensures
            r@ == Seq::<OpenOverlay>::empty(),
            roots_distinct(r@),
    {
        let r = OverlayStack { entries: Vec::new() };
        assert(r@ =~= Seq::<OpenOverlay>::empty());
        r
    }

    /// How many overlays are open.
    pub fn depth(&self) -> (r: usize)
        ensures
            r == self@.len(),
    {
        self.entries.len()
    }

    /// The topmost overlay's root, if any overlay is open.
    pub fn top(&self) -> (r: Option<u64>)
        ensures
            self@.len() == 0 ==> r is None,
            self@.len() > 0 ==> r == Some(self@.last().root),
    {
        let n = self.entries.len();
        if n == 0 {
            None
        } else {
            Some(self.entries[n - 1].root)
        }
    }

    /// Whether an overlay with this id is open.
    pub fn is_open(&self, id: &str) -> (r: bool)
        ensures
            r == has_id(self@, id@),
    {
        self.position(id).is_some()
    }

    /// The root of the lowest open overlay with this id, if any.
    pub fn entity(&self, id: &str) -> (r: Option<u64>)
        ensures
            r is None <==> !has_id(self@, id@),
            r matches Some(root) ==> exists|i: int|
                first_with_id(self@, id@, i) && #[trigger] self@[i].root == root,
    {
        match self.position(id) {
            Some(i) => {
                assert(self@[i as int] == self.entries@[i as int]@);
                assert(first_with_id(self@, id@, i as int) && self@[i as int].root
                    == self.entries[i as int].root);
                Some(self.entries[i].root)
            },
            None => None,
        }
    }

    fn position(&self, id: &str) -> (r: Option<usize>)
        ensures
            r is None <==> !has_id(self@, id@),
            r matches Some(i) ==> first_with_id(self@, id@, i as int),
    {
        let key: String = id.to_owned();
        let mut i: usize = 0;
        while i < self.entries.len()
            invariant
                i <= self.entries@.len(),
                self@.len() == self.entries@.len(),
                key@ == id@,
                forall|j: int| 0 <= j < i ==> self@[j].id != id@,
            decreases self.entries@.len() - i,
        {
            assert(self@[i as int] == self.entries@[i as int]@);
            if self.entries[i].id == key {
                return Some(i);
            }
            i = i + 1;
        }
        None
    }

    /// The roots of the open overlays, bottom first.
    pub fn roots(&self) -> (r: Vec<u64>)
        ensures
            r@ == self@.map_values(|o: OpenOverlay| o.root),
    {
        let mut r: Vec<u64> = Vec::new();
        let mut i: usize = 0;
        while i < self.entries.len()
            invariant
                i <= self.entries@.len(),
                self@.len() == self.entries@.len(),
                r@ == self@.take(i as int).map_values(|o: OpenOverlay| o.root),
            decreases self.entries@.len() - i,
        {
            r.push(self.entries[i].root);
            proof {
                assert(self@[i as int] == self.entries@[i as int]@);
                assert(self@.take(i + 1).map_values(|o: OpenOverlay| o.root) =~= self@.take(
                    i as int,
                ).map_values(|o: OpenOverlay| o.root).push(self@[i as int].root));
            }
            i = i + 1;
        }
        assert(self@.take(self@.len() as int) =~= self@);
        r
    }

    /// Whether an overlay captures input: true exactly while any is open.
    pub fn capturing(&self) -> (r: bool)
        ensures
            r == (self@.len() > 0),
    {
        self.entries.len() > 0
    }

    /// Register a freshly spawned overlay root on top of the stack. Returns its
    /// depth, the number of overlays open below it. A fresh root is never
    /// already on the stack.
    pub fn push_root(&mut self, root: u64, id: String, pop_on_escape: bool) -> (depth: usize)
        requires
            !has_root(old(self)@, root),
        ensures
            final(self)@ == old(self)@.push(
                OpenOverlay { root: root, id: id@, pop_on_escape: pop_on_escape },
            ),
            depth == old(self)@.len(),
            roots_distinct(final(self)@),
    {
        proof {
            use_type_invariant(&*self);
        }
        let depth = self.entries.len();
        let entry = OverlayEntry { root, id, pop_on_escape };
        let mut entries: Vec<OverlayEntry> = Vec::new();
        std::mem::swap(&mut entries, &mut self.entries);
        entries.push(entry);
        proof {
            let v = entries@.map_values(|e: OverlayEntry| e@);
            assert(v =~= old(self)@.push(entry@));
            assert forall|i: int, j: int| 0 <= i < v.len() && 0 <= j < v.len() && i != j implies
                #[trigger] v[i].root != #[trigger] v[j].root by {
                if i == v.len() - 1 {
                    assert(old(self)@[j].root == v[j].root);
                } else if j == v.len() - 1 {
                    assert(old(self)@[i].root == v[i].root);
                }
            }
        }
        self.entries = entries;
        assert(self@ =~= old(self)@.push(entry@));
        depth
    }

    /// Whether `root` is on the stack.
    pub fn contains(&self, root: u64) -> (r: bool)
        ensures
            r == has_root(self@, root),
    {
        let mut i: usize = 0;
        while i < self.entries.len()
            invariant
                i <= self.entries@.len(),
                self@.len() == self.entries@.len(),
                forall|j: int| 0 <= j < i ==> self@[j].root != root,
            decreases self.entries@.len() - i,
        {
            assert(self@[i as int] == self.entries@[i as int]@);
            if self.entries[i].root == root {
                assert(self@[i as int].root == root);
                return true;
            }
            i = i + 1;
        }
        false
    }

    /// Whether an overlay with this id may be opened: always, unless the open
    /// was requested as unique and an overlay with the id is already open.
    pub fn admits(&self, id: &str, unique: bool) -> (r: bool)
        ensures
            r == !(unique && has_id(self@, id@)),
    {
        !(unique && self.is_open(id))
    }

    /// The root that Escape pops: the top overlay, when Escape was just
    /// pressed and the top overlay opted in. Lower overlays never pop.
    pub fn escape_target(&self, escape_pressed: bool) -> (r: Option<u64>)
        ensures
            r == (if escape_pressed && self@.len() > 0 && self@.last().pop_on_escape {
                Some(self@.last().root)
            } else {
                None
            }),
    {
        let n = self.entries.len();
        if escape_pressed && n > 0 && self.entries[n - 1].pop_on_escape {
            Some(self.entries[n - 1].root)
        } else {
            None
        }
    }

    /// Reconcile the stack with the overlay roots that despawned: drop exactly
    /// the entries whose root was removed, keep the others in order, and report
    /// one close message per dropped entry (bottom first) with its pending
    /// reason, or `Despawned` when none was recorded. The pending reasons of
    /// all removed roots are cleared.
    pub fn prune(&mut self, removed: &Vec<u64>, reasons: &mut CloseReasons) -> (closed: Vec<
        OverlayClosed,
    >)
        ensures
            final(self)@ == old(self)@.filter(kept_root(removed@)),
            closed@.map_values(|c: OverlayClosed| c@) == old(self)@.filter(
                removed_root(removed@),
            ).map_values(closed_message(old(reasons)@)),
            final(reasons)@ == old(reasons)@.remove_keys(removed@.to_set()),
            roots_distinct(final(self)@),
            forall|i: int|
                0 <= i < final(self)@.len() ==> !removed@.contains(#[trigger] final(self)@[i].root),
            forall|i: int|
                0 <= i < final(self)@.len() ==> old(self)@.contains(#[trigger] final(self)@[i]),
            forall|i: int|
                0 <= i < old(self)@.len() && !removed@.contains(#[trigger] old(self)@[i].root)
                    ==> final(self)@.contains(old(self)@[i]),
            forall|i: int|
                0 <= i < old(self)@.len() && removed@.contains(#[trigger] old(self)@[i].root)
                    ==> closed@.map_values(|c: OverlayClosed| c@).contains(
                    (old(self)@[i].id, reason_or_despawned(old(reasons)@, old(self)@[i].root)),
                ),
            final(self)@.len() + closed@.len() == old(self)@.len(),
    {
        broadcast use vstd::seq_lib::group_filter_ensures;

        proof {
            use_type_invariant(&*self);
        }

        let ghost old_view = self@;
        let ghost keep = kept_root(removed@);
        let ghost gone = removed_root(removed@);
        let ghost msg = closed_message(reasons@);
        let mut kept: Vec<OverlayEntry> = Vec::new();
        let mut closed: Vec<OverlayClosed> = Vec::new();
        let mut i: usize = 0;
        while i < self.entries.len()
            invariant
                i <= self.entries@.len(),
                self@ == old_view,
                old_view.len() == self.entries@.len(),
                reasons@ == old(reasons)@,
                msg == closed_message(reasons@),
                keep == kept_root(removed@),
                gone == removed_root(removed@),
                kept@.map_values(|e: OverlayEntry| e@) == old_view.take(i as int).filter(keep),
                closed@.map_values(|c: OverlayClosed| c@) == old_view.take(i as int).filter(
                    gone,
                ).map_values(msg),
            decreases self.entries@.len() - i,
        {
            let ghost o = old_view[i as int];
            proof {
                assert(o == self.entries@[i as int]@);
                assert(old_view.take(i + 1) =~= old_view.take(i as int).push(o));
                old_view.take(i as int).lemma_filter_push(o, keep);
                old_view.take(i as int).lemma_filter_push(o, gone);
            }
            let root = self.entries[i].root;
            if contains_root(removed, root) {
                let message = OverlayClosed {
                    id: self.entries[i].id.clone(),
                    reason: reasons.reason_for(root),
                };
                let ghost prev_closed = closed@;
                closed.push(message);
                proof {
                    assert(gone(o));
                    assert(msg(o) == message@);
                    let before = old_view.take(i as int).filter(gone);
                    assert(old_view.take(i + 1).filter(gone) == before.push(o));
                    assert(before.push(o).map_values(msg) =~= before.map_values(msg).push(msg(o)));
                    assert(closed@ == prev_closed.push(message));
                    assert(closed@.map_values(|c: OverlayClosed| c@) =~= prev_closed.map_values(
                        |c: OverlayClosed| c@,
                    ).push(message@));
                    assert(closed@.map_values(|c: OverlayClosed| c@) =~= old_view.take(
                        i + 1,
                    ).filter(gone).map_values(msg));
                    assert(kept@.map_values(|e: OverlayEntry| e@) =~= old_view.take(
                        i + 1,
                    ).filter(keep));
                }
            } else {
                let entry = self.entries[i].duplicate();
                kept.push(entry);
                proof {
                    assert(kept@.map_values(|e: OverlayEntry| e@) =~= old_view.take(
                        i + 1,
                    ).filter(keep));
                    assert(closed@.map_values(|c: OverlayClosed| c@) =~= old_view.take(
                        i + 1,
                    ).filter(gone).map_values(msg));
                }
            }
            i = i + 1;
        }
        assert(old_view.take(old_view.len() as int) =~= old_view);
        proof {
            lemma_filter_keeps_roots_distinct(old_view, keep);
        }
        self.entries = kept;
        let mut k: usize = 0;
        while k < removed.len()
            invariant
                k <= removed@.len(),
                reasons@ == old(reasons)@.remove_keys(removed@.take(k as int).to_set()),
            decreases removed@.len() - k,
        {
            reasons.forget(removed[k]);
            proof {
                let prev = removed@.take(k as int);
                let next = removed@.take(k + 1);
                assert forall|x: u64| #[trigger]
                    next.to_set().contains(x) == prev.to_set().insert(removed@[k as int]).contains(
                        x,
                    ) by {
                    if next.contains(x) {
                        let j = choose|j: int| 0 <= j < next.len() && next[j] == x;
                        if j < k {
                            assert(prev[j] == x);
                        }
                    }
                    if prev.contains(x) {
                        let j = choose|j: int| 0 <= j < prev.len() && prev[j] == x;
                        assert(next[j] == x);
                    }
                    if x == removed@[k as int] {
                        assert(next[k as int] == x);
                    }
                }
                assert(next.to_set() =~= prev.to_set().insert(removed@[k as int]));
                assert(reasons@ =~= old(reasons)@.remove_keys(removed@.take(k + 1).to_set()));
            }
            k = k + 1;
        }
        assert(removed@.take(removed@.len() as int) =~= removed@);
        proof {
            lemma_prune_releases_exactly_the_removed(old_view, removed@, old(reasons)@);
        }
        closed
    }
}

proof fn lemma_filter_keeps_all(s: Seq<OpenOverlay>, p: spec_fn(OpenOverlay) -> bool)
    requires
        forall|i: int| 0 <= i < s.len() ==> p(#[trigger] s[i]),
    ensures
        s.filter(p) == s,
    decreases s.len(),
{
    if s.len() > 0 {
        let init = s.drop_last();
        lemma_filter_keeps_all(init, p);
        assert(init.push(s.last()) =~= s);
        init.lemma_filter_push(s.last(), p);
    } else {
        reveal(Seq::filter);
    }
}

proof fn lemma_filter_keeps_roots_distinct(s: Seq<OpenOverlay>, p: spec_fn(OpenOverlay) -> bool)
    requires
        roots_distinct(s),
    ensures
        roots_distinct(s.filter(p)),
    decreases s.len(),
{
    broadcast use vstd::seq_lib::group_filter_ensures;

    if s.len() > 0 {
        let init = s.drop_last();
        assert(roots_distinct(init)) by {
            assert forall|i: int, j: int|
                0 <= i < init.len() && 0 <= j < init.len() && i != j implies #[trigger] init[i].root
                != #[trigger] init[j].root by {
                assert(init[i] == s[i] && init[j] == s[j]);
            }
        }
        lemma_filter_keeps_roots_distinct(init, p);
        assert(init.push(s.last()) =~= s);
        init.lemma_filter_push(s.last(), p);
        if p(s.last()) {
            let f = init.filter(p);
            let g = f.push(s.last());
            assert forall|i: int, j: int| 0 <= i < g.len() && 0 <= j < g.len() && i != j implies
                #[trigger] g[i].root != #[trigger] g[j].root by {
                if i == g.len() - 1 || j == g.len() - 1 {
                    let k = if i == g.len() - 1 { j } else { i };
                    assert(f.contains(f[k]));
                    init.lemma_filter_contains_rev(p, f[k]);
                    let m = choose|m: int| 0 <= m < init.len() && init[m] == f[k];
                    assert(s[m] == init[m]);
                    assert(s[s.len() - 1] == s.last());
                }
            }
        }
    } else {
        reveal(Seq::filter);
    }
}

proof fn lemma_filter_drops_all(s: Seq<OpenOverlay>, p: spec_fn(OpenOverlay) -> bool)
    requires
        forall|i: int| 0 <= i < s.len() ==> !p(#[trigger] s[i]),
    ensures
        s.filter(p) == Seq::<OpenOverlay>::empty(),
    decreases s.len(),
{
    if s.len() > 0 {
        let init = s.drop_last();
        lemma_filter_drops_all(init, p);
        assert(init.push(s.last()) =~= s);
        init.lemma_filter_push(s.last(), p);
    } else {
        reveal(Seq::filter);
    }
}

/// Opening an overlay and then pruning its root restores the stack exactly,
/// and the prune reports exactly one close: the overlay's id with its pending
/// reason (or `Despawned`).
pub proof fn lemma_prune_undoes_push(
    s: Seq<OpenOverlay>,
    opened: OpenOverlay,
    reasons: Map<u64, CloseReason>,
)
    requires
        forall|i: int| 0 <= i < s.len() ==> #[trigger] s[i].root != opened.root,
    ensures
        s.push(opened).filter(kept_root(seq![opened.root])) == s,
        s.push(opened).filter(removed_root(seq![opened.root])).map_values(closed_message(reasons))
            == seq![(opened.id, reason_or_despawned(reasons, opened.root))],
{
    let removed = seq![opened.root];
    assert forall|i: int| 0 <= i < s.len() implies kept_root(removed)(#[trigger] s[i]) by {
        if removed.contains(s[i].root) {
            assert(removed[0] == s[i].root);
        }
    }
    lemma_filter_keeps_all(s, kept_root(removed));
    assert forall|i: int| 0 <= i < s.len() implies !removed_root(removed)(#[trigger] s[i]) by {
        if removed.contains(s[i].root) {
            assert(removed[0] == s[i].root);
        }
    }
    lemma_filter_drops_all(s, removed_root(removed));
    assert(removed.contains(opened.root)) by {
        assert(removed[0] == opened.root);
    }
    s.lemma_filter_push(opened, kept_root(removed));
    s.lemma_filter_push(opened, removed_root(removed));
    assert(Seq::<OpenOverlay>::empty().push(opened) =~= seq![opened]);
    assert(seq![opened].map_values(closed_message(reasons)) =~= seq![
        (opened.id, reason_or_despawned(reasons, opened.root)),
    ]);
}

/// The overlays a prune keeps.
pub open spec fn survivors(s: Seq<OpenOverlay>, removed: Seq<u64>) -> Seq<OpenOverlay> {
    s.filter(kept_root(removed))
}

/// The overlays a prune drops, bottom first.
pub open spec fn leaving(s: Seq<OpenOverlay>, removed: Seq<u64>) -> Seq<OpenOverlay> {
    s.filter(removed_root(removed))
}

/// The close messages a prune reports.
pub open spec fn reported_closes(
    s: Seq<OpenOverlay>,
    removed: Seq<u64>,
    reasons: Map<u64, CloseReason>,
) -> Seq<(Seq<char>, CloseReason)> {
    s.filter(removed_root(removed)).map_values(closed_message(reasons))
}

proof fn lemma_prune_partition_len(s: Seq<OpenOverlay>, removed: Seq<u64>)
    ensures
        s.filter(kept_root(removed)).len() + s.filter(removed_root(removed)).len() == s.len(),
    decreases s.len(),
{
    if s.len() > 0 {
        let init = s.drop_last();
        lemma_prune_partition_len(init, removed);
        assert(init.push(s.last()) =~= s);
        init.lemma_filter_push(s.last(), kept_root(removed));
        init.lemma_filter_push(s.last(), removed_root(removed));
    } else {
        reveal(Seq::filter);
    }
}

/// Pruning releases exactly the removed overlays, for removed lists of any
/// length: no removed root stays on the stack, every overlay whose root was
/// not removed stays, nothing else appears, and every removed overlay is
/// reported with its pending reason (or `Despawned`), one message per
/// overlay that leaves.
pub proof fn lemma_prune_releases_exactly_the_removed(
    s: Seq<OpenOverlay>,
    removed: Seq<u64>,
    reasons: Map<u64, CloseReason>,
)
    ensures
        forall|i: int|
            0 <= i < survivors(s, removed).len() ==> !removed.contains(
                #[trigger] survivors(s, removed)[i].root,
            ),
        forall|i: int|
            0 <= i < survivors(s, removed).len() ==> s.contains(#[trigger] survivors(s, removed)[i]),
        forall|i: int|
            0 <= i < s.len() && !removed.contains(#[trigger] s[i].root) ==> survivors(
                s,
                removed,
            ).contains(s[i]),
        forall|i: int|
            0 <= i < s.len() && removed.contains(#[trigger] s[i].root) ==> reported_closes(
                s,
                removed,
                reasons,
            ).contains((s[i].id, reason_or_despawned(reasons, s[i].root))),
        reported_closes(s, removed, reasons).len() == leaving(s, removed).len(),
        forall|j: int|
            0 <= j < leaving(s, removed).len() ==> s.contains(#[trigger] leaving(s, removed)[j])
                && removed.contains(leaving(s, removed)[j].root) && reported_closes(
                s,
                removed,
                reasons,
            )[j] == (
                leaving(s, removed)[j].id,
                reason_or_despawned(reasons, leaving(s, removed)[j].root),
            ),
        survivors(s, removed).len() + reported_closes(s, removed, reasons).len() == s.len(),
{
    broadcast use vstd::seq_lib::group_filter_ensures;

    let kept = s.filter(kept_root(removed));
    let gone = s.filter(removed_root(removed));
    let reported = gone.map_values(closed_message(reasons));
    assert forall|i: int| 0 <= i < kept.len() implies !removed.contains(#[trigger] kept[i].root)
        && s.contains(kept[i]) by {
        s.lemma_filter_pred(kept_root(removed), i);
        assert(kept.contains(kept[i]));
        s.lemma_filter_contains_rev(kept_root(removed), kept[i]);
    }
    assert forall|i: int| 0 <= i < s.len() && !removed.contains(#[trigger] s[i].root) implies kept.contains(
        s[i],
    ) by {
        s.lemma_filter_contains(kept_root(removed), i);
    }
    assert forall|i: int| 0 <= i < s.len() && removed.contains(#[trigger] s[i].root) implies reported.contains(
        (s[i].id, reason_or_despawned(reasons, s[i].root)),
    ) by {
        s.lemma_filter_contains(removed_root(removed), i);
        let k = choose|k: int| 0 <= k < gone.len() && gone[k] == s[i];
        assert(reported[k] == closed_message(reasons)(gone[k]));
    }
    assert forall|j: int| 0 <= j < leaving(s, removed).len() implies s.contains(
        #[trigger] leaving(s, removed)[j],
    ) && removed.contains(leaving(s, removed)[j].root) by {
        s.lemma_filter_pred(removed_root(removed), j);
        assert(gone.contains(gone[j]));
        s.lemma_filter_contains_rev(removed_root(removed), gone[j]);
    }
    lemma_prune_partition_len(s, removed);
    assert(forall|i: int| 0 <= i < kept.len() ==> !removed.contains(#[trigger] kept[i].root));
    assert(forall|i: int| 0 <= i < kept.len() ==> s.contains(#[trigger] kept[i]));
    assert(kept.len() + reported.len() == s.len());
}

proof fn lemma_filter_single_root(s: Seq<OpenOverlay>, root: u64, k: int)
    requires
        roots_distinct(s),
        0 <= k < s.len(),
        s[k].root == root,
    ensures
        s.filter(removed_root(seq![root])) == seq![s[k]],
    decreases s.len(),
{
    let removed = seq![root];
    let init = s.drop_last();
    assert(init.push(s.last()) =~= s);
    init.lemma_filter_push(s.last(), removed_root(removed));
    assert(removed.contains(root)) by {
        assert(removed[0] == root);
    }
    if k == s.len() - 1 {
        assert forall|i: int| 0 <= i < init.len() implies !removed_root(removed)(#[trigger] init[i]) by {
            assert(init[i] == s[i]);
            if removed.contains(init[i].root) {
                assert(removed[0] == init[i].root);
            }
        }
        lemma_filter_drops_all(init, removed_root(removed));
        assert(Seq::<OpenOverlay>::empty().push(s.last()) =~= seq![s[k]]);
    } else {
        assert(roots_distinct(init)) by {
            assert forall|i: int, j: int|
                0 <= i < init.len() && 0 <= j < init.len() && i != j implies #[trigger] init[i].root
                != #[trigger] init[j].root by {
                assert(init[i] == s[i] && init[j] == s[j]);
            }
        }
        assert(init[k] == s[k]);
        lemma_filter_single_root(init, root, k);
        assert(s.last().root != root) by {
            assert(s[s.len() - 1] == s.last());
        }
        if removed.contains(s.last().root) {
            assert(removed[0] == s.last().root);
        }
    }
}

/// A close requested twice for an open overlay is reported exactly once when
/// its root leaves the stack, with the reason of the later request.
pub proof fn lemma_repeated_close_reported_once(
    s: Seq<OpenOverlay>,
    reasons: Map<u64, CloseReason>,
    root: u64,
    first: CloseReason,
    second: CloseReason,
)
    requires
        roots_distinct(s),
        has_root(s, root),
    ensures
        exists|k: int|
            0 <= k < s.len() && #[trigger] s[k].root == root && s.filter(
                removed_root(seq![root]),
            ).map_values(closed_message(reasons.insert(root, first).insert(root, second)))
                == seq![(s[k].id, second)],
{
    let k = choose|k: int| 0 <= k < s.len() && #[trigger] s[k].root == root;
    lemma_filter_single_root(s, root, k);
    let m = closed_message(reasons.insert(root, first).insert(root, second));
    assert(seq![s[k]].map_values(m) =~= seq![(s[k].id, second)]);
}

/// Pruning the top overlay's root, when no overlay below shares it, pops
/// exactly the top: this is what Escape does to an opted-in top.
pub proof fn lemma_pruning_top_pops_it(s: Seq<OpenOverlay>)
    requires
        s.len() > 0,
        forall|i: int| 0 <= i < s.len() - 1 ==> #[trigger] s[i].root != s.last().root,
    ensures
        s.filter(kept_root(seq![s.last().root])) == s.drop_last(),
{
    let init = s.drop_last();
    assert forall|i: int| 0 <= i < init.len() implies init[i].root != s.last().root by {
        assert(init[i] == s[i]);
    }
    lemma_prune_undoes_push(init, s.last(), Map::empty());
    assert(init.push(s.last()) =~= s);
}

/// Once an overlay with an id is open, a unique open of the same id is refused.
pub proof fn lemma_unique_open_is_idempotent(s: Seq<OpenOverlay>, opened: OpenOverlay)
    ensures
        has_id(s.push(opened), opened.id),
{
    assert(s.push(opened)[s.len() as int].id == opened.id);
}

/// Deeper overlays get strictly higher z-indices.
pub proof fn lemma_z_index_orders_depths(lower: int, upper: int)
    requires
        0 <= lower < upper,
    ensures
        spec_z_index(lower) < spec_z_index(upper),
{
}

/// Toasts float above every overlay below depth 9900, the depths whose
/// z-index stays under the toast column's.
pub proof fn lemma_toasts_above_overlays(depth: int)
    requires
        0 <= depth < 9900,
    ensures
        spec_z_index(depth) < crate::toast::TOAST_Z,
{
}

/// Whether `root` occurs in `roots`.
fn contains_root(roots: &Vec<u64>, root: u64) -> (r: bool)
    ensures
        r == roots@.contains(root),
{
    let mut i: usize = 0;
    while i < roots.len()
        invariant
            i <= roots@.len(),
            forall|j: int| 0 <= j < i ==> roots@[j] != root,
        decreases roots@.len() - i,
    {
        if roots[i] == root {
            return true;
        }
        i = i + 1;
    }
    false
}

} // verus!
