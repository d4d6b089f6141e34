//! Coalescing of raw change notifications into normalized change events.
//! Platform translation and the OS subscription stay with the caller; this
//! module holds the debounce logic: repeated raw notifications for one path
//! within the debounce window collapse into a single event, per-path order
//! is kept, and an entry is emitted once its window has passed.

use vstd::prelude::*;
use crate::coordinator::{ChangeEvent, EventView};

verus! {

/// A raw notification kind, already reduced to plain values by the caller's
/// platform translation.
#[derive(Clone, Copy, PartialEq, Eq, Structural, Debug)]
pub enum RawKind {
    Create,
    Write,
    Remove,
}

/// What the raw notifications seen so far for one path amount to.
#[derive(Clone, Copy, PartialEq, Eq, Structural, Debug)]
pub enum CoalescedKind {
    Created,
    Modified,
    Removed,
}

/// Model of one pending (not yet emitted) coalesced notification.
pub ghost struct PendingView {
    pub path: Seq<char>,
    pub kind: CoalescedKind,
    pub first_at: u64,
    pub deadline: u64,
}

/// One pending coalesced notification: the event it will become, the time
/// of the first raw notification, and the end of its debounce window.
pub struct Pending {
    pub path: String,
    pub kind: CoalescedKind,
    pub first_at: u64,
    pub deadline: u64,
}

impl View for Pending {
    type V = PendingView;

    open spec fn view(&self) -> PendingView {
        PendingView {
            path: self.path@,
            kind: self.kind,
            first_at: self.first_at,
            deadline: self.deadline,
        }
    }
}

impl DeepView for Pending {
    type V = PendingView;

    open spec fn deep_view(&self) -> PendingView {
        self@
    }
}

/// End of the debounce window opened at `at`, saturating at the largest
/// representable time.
pub open spec fn deadline_for(at: u64, window: u64) -> u64 {
    if at + window > u64::MAX {
        u64::MAX
    } else {
        (at + window) as u64
    }
}

/// What a lone raw notification amounts to.
pub open spec fn fresh_kind(k: RawKind) -> CoalescedKind {
    match k {
        RawKind::Create => CoalescedKind::Created,
        RawKind::Write => CoalescedKind::Modified,
        RawKind::Remove => CoalescedKind::Removed,
    }
}

/// How a further raw notification within the window folds into the pending
/// one. A creation followed by writes stays one creation; any removal wins;
/// a removal followed by a recreation amounts to a modification.
pub open spec fn merge_kind(pending: CoalescedKind, new: RawKind) -> CoalescedKind {
    match new {
        RawKind::Remove => CoalescedKind::Removed,
        RawKind::Create => match pending {
            CoalescedKind::Created => CoalescedKind::Created,
            CoalescedKind::Modified => CoalescedKind::Modified,
            CoalescedKind::Removed => CoalescedKind::Modified,
        },
        RawKind::Write => match pending {
            CoalescedKind::Created => CoalescedKind::Created,
            CoalescedKind::Modified => CoalescedKind::Modified,
            CoalescedKind::Removed => CoalescedKind::Modified,
        },
    }
}

pub open spec fn fresh_pending(path: Seq<char>, kind: RawKind, at: u64, window: u64) -> PendingView {
    PendingView { path, kind: fresh_kind(kind), first_at: at, deadline: deadline_for(at, window) }
}

pub open spec fn merged(p: PendingView, kind: RawKind) -> PendingView {
    PendingView { path: p.path, kind: merge_kind(p.kind, kind), first_at: p.first_at, deadline: p.deadline }
}

/// The event a pending entry is emitted as, stamped with the time of its
/// first raw notification.
pub open spec fn event_of(p: PendingView) -> EventView {
    match p.kind {
        CoalescedKind::Created => EventView::Created { path: p.path, observed_at: p.first_at },
        CoalescedKind::Modified => EventView::Modified { path: p.path, observed_at: p.first_at },
        CoalescedKind::Removed => EventView::Removed { path: p.path, observed_at: p.first_at },
    }
}

/// What offering one raw notification does: within the window it merges
/// into the path's pending entry; after the window it replaces the stale
/// entry, which is handed out for emission; with no pending entry it opens
/// a fresh one.
pub open spec fn offer_model(
    s: Seq<PendingView>,
    path: Seq<char>,
    kind: RawKind,
    at: u64,
    window: u64,
) -> (Seq<PendingView>, Option<PendingView>)
    decreases s.len(),
{
    if s.len() == 0 {
        (seq![fresh_pending(path, kind, at, window)], None)
    } else if s[0].path == path {
        if at <= s[0].deadline {
            (seq![merged(s[0], kind)] + s.drop_first(), None)
        } else {
            (seq![fresh_pending(path, kind, at, window)] + s.drop_first(), Some(s[0]))
        }
    } else {
        let rec = offer_model(s.drop_first(), path, kind, at, window);
        (seq![s[0]] + rec.0, rec.1)
    }
}

/// A pending entry is due once the moment lies past its window.
pub open spec fn due(p: PendingView, now: u64) -> bool {
    now > p.deadline
}

/// The entries a drain at `now` keeps, in order.
pub open spec fn keep_model(s: Seq<PendingView>, now: u64) -> Seq<PendingView>
    decreases s.len(),
{
    if s.len() == 0 {
        s
    } else if due(s[0], now) {
        keep_model(s.drop_first(), now)
    } else {
        seq![s[0]] + keep_model(s.drop_first(), now)
    }
}

/// The entries a drain at `now` emits, in order.
pub open spec fn due_model(s: Seq<PendingView>, now: u64) -> Seq<PendingView>
    decreases s.len(),
{
    if s.len() == 0 {
        s
    } else if due(s[0], now) {
        seq![s[0]] + due_model(s.drop_first(), now)
    } else {
        due_model(s.drop_first(), now)
    }
}

/// The events a sequence of pending entries is emitted as.
pub open spec fn events_of(s: Seq<PendingView>) -> Seq<EventView> {
    Seq::new(s.len(), |i: int| event_of(s[i]))
}

pub open spec fn pending_paths_unique(s: Seq<PendingView>) -> bool {
    forall|i: int, j: int| 0 <= i < j < s.len() ==> s[i].path != s[j].path
}

pub proof fn lemma_offer_at(s: Seq<PendingView>, path: Seq<char>, kind: RawKind, at: u64, window: u64, i: int)
    requires
        0 <= i < s.len(),
        s[i].path == path,
        forall|j: int| 0 <= j < i ==> s[j].path != path,
    ensures
        at <= s[i].deadline ==> offer_model(s, path, kind, at, window) == (
            s.update(i, merged(s[i], kind)),
            None::<PendingView>,
        ),
        at > s[i].deadline ==> offer_model(s, path, kind, at, window) == (
            s.update(i, fresh_pending(path, kind, at, window)),
            Some(s[i]),
        ),
    decreases s.len(),
{
    if i == 0 {
        if at <= s[0].deadline {
            assert(offer_model(s, path, kind, at, window).0 =~= s.update(0, merged(s[0], kind)));
        } else {
            assert(offer_model(s, path, kind, at, window).0 =~= s.update(
                0,
                fresh_pending(path, kind, at, window),
            ));
        }
    } else {
        assert(s[0].path != path);
        assert forall|j: int| 0 <= j < i - 1 implies s.drop_first()[j].path != path by {
            assert(s.drop_first()[j] == s[j + 1]);
        }
        assert(s.drop_first()[i - 1] == s[i]);
        lemma_offer_at(s.drop_first(), path, kind, at, window, i - 1);
        if at <= s[i].deadline {
            assert(offer_model(s, path, kind, at, window).0 =~= s.update(i, merged(s[i], kind)));
        } else {
            assert(offer_model(s, path, kind, at, window).0 =~= s.update(
                i,
                fresh_pending(path, kind, at, window),
            ));
        }
    }
}

pub proof fn lemma_offer_fresh(s: Seq<PendingView>, path: Seq<char>, kind: RawKind, at: u64, window: u64)
    requires
        forall|j: int| 0 <= j < s.len() ==> s[j].path != path,
    ensures
        offer_model(s, path, kind, at, window) == (
            s.push(fresh_pending(path, kind, at, window)),
            None::<PendingView>,
        ),
    decreases s.len(),
{
    if s.len() == 0 {
        assert(offer_model(s, path, kind, at, window).0 =~= s.push(
            fresh_pending(path, kind, at, window),
        ));
    } else {
        assert forall|j: int| 0 <= j < s.drop_first().len() implies s.drop_first()[j].path
            != path by {
            assert(s.drop_first()[j] == s[j + 1]);
        }
        lemma_offer_fresh(s.drop_first(), path, kind, at, window);
        assert(offer_model(s, path, kind, at, window).0 =~= s.push(
            fresh_pending(path, kind, at, window),
        ));
    }
}

pub proof fn lemma_keep_snoc(s: Seq<PendingView>, x: PendingView, now: u64)
    ensures
        keep_model(s.push(x), now) == keep_model(s, now) + (if due(x, now) {
            Seq::<PendingView>::empty()
        } else {
            seq![x]
        }),
        due_model(s.push(x), now) == due_model(s, now) + (if due(x, now) {
            seq![x]
        } else {
            Seq::<PendingView>::empty()
        }),
    decreases s.len(),
{
    reveal_with_fuel(keep_model, 3);
    reveal_with_fuel(due_model, 3);
    if s.len() == 0 {
        assert(s.push(x)[0] == x);
        assert(s.push(x).drop_first() =~= Seq::<PendingView>::empty());
        if due(x, now) {
            assert(keep_model(s.push(x), now) =~= keep_model(s, now));
            assert(due_model(s.push(x), now) =~= due_model(s, now) + seq![x]);
        } else {
            assert(keep_model(s.push(x), now) =~= keep_model(s, now) + seq![x]);
            assert(due_model(s.push(x), now) =~= due_model(s, now));
        }
    } else {
        assert(s.push(x)[0] == s[0]);
        assert(s.push(x).drop_first() =~= s.drop_first().push(x));
        lemma_keep_snoc(s.drop_first(), x, now);
        if due(x, now) {
            assert(keep_model(s.push(x), now) =~= keep_model(s, now));
            assert(due_model(s.push(x), now) =~= due_model(s, now) + seq![x]);
        } else {
            assert(keep_model(s.push(x), now) =~= keep_model(s, now) + seq![x]);
            assert(due_model(s.push(x), now) =~= due_model(s, now));
        }
    }
}

/// Model of the debouncer.
pub ghost struct DebouncerView {
    pub window: u64,
    pub pending: Seq<PendingView>,
}

/// Collapses raw notifications: at most one pending entry per path, merged
/// within the debounce window, emitted once the window has passed.
pub struct Debouncer {
    window: u64,
    pending: Vec<Pending>,
}

impl View for Debouncer {
    type V = DebouncerView;

    closed spec fn view(&self) -> DebouncerView {
        DebouncerView { window: self.window, pending: self.pending.deep_view() }
    }
}

impl Pending {
    fn duplicate(&self) -> (r: Pending)
        ensures
            r@ == self@,
    {
        Pending {
            path: self.path.clone(),
            kind: self.kind,
            first_at: self.first_at,
            deadline: self.deadline,
        }
    }

    /// The event this entry is emitted as.
    fn emit(&self) -> (r: ChangeEvent)
        ensures
            r@ == event_of(self@),
    {
        match self.kind {
            CoalescedKind::Created => ChangeEvent::Created {
                path: self.path.clone(),
                observed_at: self.first_at,
            },
            CoalescedKind::Modified => ChangeEvent::Modified {
                path: self.path.clone(),
                observed_at: self.first_at,
            },
            CoalescedKind::Removed => ChangeEvent::Removed {
                path: self.path.clone(),
                observed_at: self.first_at,
            },
        }
    }
}

impl Debouncer {
    /// At most one pending entry per path.
    pub open spec fn wf(&self) -> bool {
        pending_paths_unique(self@.pending)
    }

    /// A debouncer with the given window and nothing pending.
    pub fn new(window: u64) -> (r: Debouncer)
        ensures
            r@.window == window,
            r@.pending == Seq::<PendingView>::empty(),
            r.wf(),
    {
        let r = Debouncer { window, pending: Vec::new() };
        proof {
            assert(r@.pending =~= Seq::<PendingView>::empty());
        }
        r
    }

    /// Takes one raw notification. Exactly `offer_model`: within the
    /// window it merges; past the window it hands the stale entry out for
    /// emission and opens a fresh one; otherwise it opens a fresh entry.
    pub fn offer(&mut self, path: String, kind: RawKind, at: u64) -> (r: Option<ChangeEvent>)
        requires
            old(self).wf(),
        ensures
            final(self).wf(),
            final(self)@.window == old(self)@.window,
            final(self)@.pending == offer_model(
                old(self)@.pending,
                path@,
                kind,
                at,
                old(self)@.window,
            ).0,
            match r {
                Some(ev) => offer_model(old(self)@.pending, path@, kind, at, old(self)@.window).1
                    matches Some(p) && ev@ == event_of(p),
                None => offer_model(old(self)@.pending, path@, kind, at, old(self)@.window).1
                    is None,
            },
    {
        let ghost s0 = self@.pending;
        let ghost w = self.window;
        let deadline = if at > u64::MAX - self.window {
            u64::MAX
        } else {
            at + self.window
        };
        assert(deadline == deadline_for(at, w));
        let n = self.pending.len();
        for i in 0..n
            invariant
                n == self.pending.len(),
                self@.pending == s0,
                s0 == old(self)@.pending,
                w == self.window,
                w == old(self)@.window,
                deadline == deadline_for(at, w),
                pending_paths_unique(s0),
                forall|j: int| 0 <= j < i ==> s0[j].path != path@,
        {
            assert(s0[i as int] == self.pending@[i as int]@);
            if self.pending[i].path.eq(&path) {
                proof {
                    lemma_offer_at(s0, path@, kind, at, w, i as int);
                }
                if at <= self.pending[i].deadline {
                    let k = merge_kind_exec(self.pending[i].kind, kind);
                    let first_at = self.pending[i].first_at;
                    let old_deadline = self.pending[i].deadline;
                    self.pending.set(
                        i,
                        Pending { path, kind: k, first_at, deadline: old_deadline },
                    );
                    proof {
                        assert(self@.pending =~= s0.update(i as int, merged(s0[i as int], kind)));
                        assert forall|a: int, b: int|
                            0 <= a < b < self@.pending.len() implies self@.pending[a].path
                            != self@.pending[b].path by {
                            assert(self@.pending[a] == if a == i as int {
                                merged(s0[a], kind)
                            } else {
                                s0[a]
                            });
                            assert(self@.pending[b] == if b == i as int {
                                merged(s0[b], kind)
                            } else {
                                s0[b]
                            });
                        }
                    }
                    return None;
                } else {
                    let stale = self.pending[i].emit();
                    let k = fresh_kind_exec(kind);
                    self.pending.set(
                        i,
                        Pending { path, kind: k, first_at: at, deadline },
                    );
                    proof {
                        assert(self@.pending =~= s0.update(
                            i as int,
                            fresh_pending(path@, kind, at, w),
                        ));
                        assert forall|a: int, b: int|
                            0 <= a < b < self@.pending.len() implies self@.pending[a].path
                            != self@.pending[b].path by {
                            assert(self@.pending[a] == if a == i as int {
                                fresh_pending(path@, kind, at, w)
                            } else {
                                s0[a]
                            });
                            assert(self@.pending[b] == if b == i as int {
                                fresh_pending(path@, kind, at, w)
                            } else {
                                s0[b]
                            });
                        }
                    }
                    return Some(stale);
                }
            }
        }
        proof {
            lemma_offer_fresh(s0, path@, kind, at, w);
        }
        let k = fresh_kind_exec(kind);
        let ghost pv = path@;
        self.pending.push(Pending { path, kind: k, first_at: at, deadline });
        proof {
            assert(self@.pending =~= s0.push(fresh_pending(pv, kind, at, w)));
            assert forall|a: int, b: int|
                0 <= a < b < self@.pending.len() implies self@.pending[a].path
                != self@.pending[b].path by {
                assert(self@.pending[a] == if a < s0.len() {
                    s0[a]
                } else {
                    fresh_pending(pv, kind, at, w)
                });
                assert(self@.pending[b] == if b < s0.len() {
                    s0[b]
                } else {
                    fresh_pending(pv, kind, at, w)
                });
            }
        }
        None
    }

    /// Emits every pending entry whose window has passed at `now`, in
    /// arrival order, and keeps the rest.
    pub fn drain_due(&mut self, now: u64) -> (r: Vec<ChangeEvent>)
        requires
            old(self).wf(),
        ensures
            final(self).wf(),
            final(self)@.window == old(self)@.window,
            final(self)@.pending == keep_model(old(self)@.pending, now),
            r.deep_view() == events_of(due_model(old(self)@.pending, now)),
    {
        let ghost s0 = self@.pending;
        let mut taken: Vec<Pending> = Vec::new();
        std::mem::swap(&mut taken, &mut self.pending);
        let mut out: Vec<ChangeEvent> = Vec::new();
        let mut kept: Vec<Pending> = Vec::new();
        let n = taken.len();
        for i in 0..n
            invariant
                n == taken.len(),
                taken.deep_view() == s0,
                kept.deep_view() =~= keep_model(s0.take(i as int), now),
                out.deep_view() =~= events_of(due_model(s0.take(i as int), now)),
        {
            assert(s0[i as int] == taken@[i as int]@);
            proof {
                assert(s0.take(i as int).push(s0[i as int]) =~= s0.take(i as int + 1));
                lemma_keep_snoc(s0.take(i as int), s0[i as int], now);
            }
            if now > taken[i].deadline {
                let ghost os0 = out@;
                let ghost ov0 = out.deep_view();
                out.push(taken[i].emit());
                proof {
                    assert(ov0 == Seq::new(os0.len(), |q: int| os0[q].deep_view()));
                    assert(ov0.len() == os0.len());
                    assert forall|k: int|
                        0 <= k < out.deep_view().len() implies out.deep_view()[k] == events_of(
                        due_model(s0.take(i as int + 1), now),
                    )[k] by {
                        assert(out.deep_view()[k] == out@[k].deep_view());
                        if k < os0.len() {
                            assert(out@[k] == os0[k]);
                            assert(ov0[k] == os0[k].deep_view());
                        }
                    }
                    assert(out.deep_view() =~= events_of(due_model(s0.take(i as int + 1), now)));
                    assert(kept.deep_view() =~= keep_model(s0.take(i as int + 1), now));
                }
            } else {
                let ghost ks0 = kept@;
                let ghost kv0 = kept.deep_view();
                kept.push(taken[i].duplicate());
                proof {
                    assert(kv0 == Seq::new(ks0.len(), |q: int| ks0[q].deep_view()));
                    assert(kv0.len() == ks0.len());
                    assert forall|k: int|
                        0 <= k < kept.deep_view().len() implies kept.deep_view()[k] == keep_model(
                        s0.take(i as int + 1),
                        now,
                    )[k] by {
                        assert(kept.deep_view()[k] == kept@[k].deep_view());
                        if k < ks0.len() {
                            assert(kept@[k] == ks0[k]);
                            assert(kv0[k] == ks0[k].deep_view());
                        }
                    }
                    assert(kept.deep_view() =~= keep_model(s0.take(i as int + 1), now));
                    assert(out.deep_view() =~= events_of(due_model(s0.take(i as int + 1), now)));
                }
            }
        }
        self.pending = kept;
        proof {
            assert(s0.take(n as int) =~= s0);
            lemma_keep_unique(s0, now);
        }
        out
    }
}

/// The kept entries of a drain keep their unique paths.
pub proof fn lemma_keep_unique(s: Seq<PendingView>, now: u64)
    requires
        pending_paths_unique(s),
    ensures
        pending_paths_unique(keep_model(s, now)),
    decreases s.len(),
{
    if s.len() == 0 {
    } else {
        assert forall|a: int, b: int|
            0 <= a < b < s.drop_first().len() implies s.drop_first()[a].path != s.drop_first()[
            b
        ].path by {
            assert(s.drop_first()[a] == s[a + 1]);
            assert(s.drop_first()[b] == s[b + 1]);
        }
        lemma_keep_unique(s.drop_first(), now);
        if due(s[0], now) {
        } else {
            let t = seq![s[0]] + keep_model(s.drop_first(), now);
            assert forall|a: int, b: int| 0 <= a < b < t.len() implies t[a].path != t[b].path by {
                if a == 0 {
                    assert(t[b] == keep_model(s.drop_first(), now)[b - 1]);
                    lemma_keep_values(s.drop_first(), now, b - 1);
                    let j = choose|j: int|
                        0 <= j < s.drop_first().len() && s.drop_first()[j] == t[b];
                    assert(s[j + 1] == t[b]);
                    assert(s[0].path != s[j + 1].path);
                } else {
                    assert(t[a] == keep_model(s.drop_first(), now)[a - 1]);
                    assert(t[b] == keep_model(s.drop_first(), now)[b - 1]);
                }
            }
        }
    }
}

/// Every kept entry of a drain stood in the pending set.
pub proof fn lemma_keep_values(s: Seq<PendingView>, now: u64, k: int)
    requires
        0 <= k < keep_model(s, now).len(),
    ensures
        s.contains(keep_model(s, now)[k]),
    decreases s.len(),
{
    if s.len() == 0 {
    } else if due(s[0], now) {
        lemma_keep_values(s.drop_first(), now, k);
        let j = choose|j: int|
            0 <= j < s.drop_first().len() && s.drop_first()[j] == keep_model(s, now)[k];
        assert(s.contains(keep_model(s, now)[k])) by {
            assert(0 <= j + 1 < s.len() && s[j + 1] == keep_model(s, now)[k]);
        }
    } else {
        let t = seq![s[0]] + keep_model(s.drop_first(), now);
        if k == 0 {
            assert(s.contains(t[0])) by {
                assert(s[0] == t[0]);
            }
        } else {
            assert(t[k] == keep_model(s.drop_first(), now)[k - 1]);
            lemma_keep_values(s.drop_first(), now, k - 1);
            let j = choose|j: int| 0 <= j < s.drop_first().len() && s.drop_first()[j] == t[k];
            assert(s.contains(t[k])) by {
                assert(0 <= j + 1 < s.len() && s[j + 1] == t[k]);
            }
        }
    }
}

/// Every emitted entry of a drain stood in the pending set.
pub proof fn lemma_due_values(s: Seq<PendingView>, now: u64, k: int)
    requires
        0 <= k < due_model(s, now).len(),
    ensures
        s.contains(due_model(s, now)[k]),
    decreases s.len(),
{
    if s.len() == 0 {
    } else if due(s[0], now) {
        let t = seq![s[0]] + due_model(s.drop_first(), now);
        if k == 0 {
            assert(s.contains(t[0])) by {
                assert(s[0] == t[0]);
            }
        } else {
            assert(t[k] == due_model(s.drop_first(), now)[k - 1]);
            lemma_due_values(s.drop_first(), now, k - 1);
            let j = choose|j: int| 0 <= j < s.drop_first().len() && s.drop_first()[j] == t[k];
            assert(s.contains(t[k])) by {
                assert(0 <= j + 1 < s.len() && s[j + 1] == t[k]);
            }
        }
    } else {
        lemma_due_values(s.drop_first(), now, k);
        let j = choose|j: int|
            0 <= j < s.drop_first().len() && s.drop_first()[j] == due_model(s, now)[k];
        assert(s.contains(due_model(s, now)[k])) by {
            assert(0 <= j + 1 < s.len() && s[j + 1] == due_model(s, now)[k]);
        }
    }
}

/// One drain emits at most one event per path: the emitted entries keep
/// their pairwise-distinct paths, so per-path order can never be disturbed
/// within a drain.
pub proof fn lemma_due_unique(s: Seq<PendingView>, now: u64)
    requires
        pending_paths_unique(s),
    ensures
        pending_paths_unique(due_model(s, now)),
    decreases s.len(),
{
    if s.len() == 0 {
    } else {
        assert forall|a: int, b: int|
            0 <= a < b < s.drop_first().len() implies s.drop_first()[a].path != s.drop_first()[
            b
        ].path by {
            assert(s.drop_first()[a] == s[a + 1]);
            assert(s.drop_first()[b] == s[b + 1]);
        }
        lemma_due_unique(s.drop_first(), now);
        if due(s[0], now) {
            let t = seq![s[0]] + due_model(s.drop_first(), now);
            assert forall|a: int, b: int| 0 <= a < b < t.len() implies t[a].path != t[b].path by {
                if a == 0 {
                    assert(t[b] == due_model(s.drop_first(), now)[b - 1]);
                    lemma_due_values(s.drop_first(), now, b - 1);
                    let j = choose|j: int|
                        0 <= j < s.drop_first().len() && s.drop_first()[j] == t[b];
                    assert(s[j + 1] == t[b]);
                    assert(s[0].path != s[j + 1].path);
                } else {
                    assert(t[a] == due_model(s.drop_first(), now)[a - 1]);
                    assert(t[b] == due_model(s.drop_first(), now)[b - 1]);
                }
            }
        }
    }
}

fn merge_kind_exec(pending: CoalescedKind, new: RawKind) -> (r: CoalescedKind)
    ensures
        r == merge_kind(pending, new),
{
    match new {
        RawKind::Remove => CoalescedKind::Removed,
        RawKind::Create => match pending {
            CoalescedKind::Created => CoalescedKind::Created,
            CoalescedKind::Modified => CoalescedKind::Modified,
            CoalescedKind::Removed => CoalescedKind::Modified,
        },
        RawKind::Write => match pending {
            CoalescedKind::Created => CoalescedKind::Created,
            CoalescedKind::Modified => CoalescedKind::Modified,
            CoalescedKind::Removed => CoalescedKind::Modified,
        },
    }
}

fn fresh_kind_exec(k: RawKind) -> (r: CoalescedKind)
    ensures
        r == fresh_kind(k),
{
    match k {
        RawKind::Create => CoalescedKind::Created,
        RawKind::Write => CoalescedKind::Modified,
        RawKind::Remove => CoalescedKind::Removed,
    }
}

/// Two raw write notifications for one path within the debounce window
/// collapse into exactly one pending entry, and draining once the window
/// has passed emits exactly one event: a `Modified` for that path, stamped
/// with the first notification's time.
pub proof fn lemma_writes_collapse(p: Seq<char>, at1: u64, at2: u64, now: u64, window: u64)
    requires
        at2 <= deadline_for(at1, window),
        now > deadline_for(at1, window),
    ensures
        ({
            let first = offer_model(Seq::<PendingView>::empty(), p, RawKind::Write, at1, window);
            let second = offer_model(first.0, p, RawKind::Write, at2, window);
            &&& first.1 is None
            &&& second.1 is None
            &&& second.0.len() == 1
            &&& keep_model(second.0, now) == Seq::<PendingView>::empty()
            &&& events_of(due_model(second.0, now)) == seq![
                EventView::Modified { path: p, observed_at: at1 },
            ]
        }),
{
    reveal_with_fuel(keep_model, 3);
    reveal_with_fuel(due_model, 3);
    let first = offer_model(Seq::<PendingView>::empty(), p, RawKind::Write, at1, window);
    let e0 = fresh_pending(p, RawKind::Write, at1, window);
    assert(first.0 =~= seq![e0]);
    let second = offer_model(first.0, p, RawKind::Write, at2, window);
    assert(first.0[0] == e0);
    let e1 = merged(e0, RawKind::Write);
    assert(second.0 =~= seq![e1]);
    assert(due(e1, now));
    assert(second.0.drop_first() =~= Seq::<PendingView>::empty());
    assert(keep_model(second.0, now) =~= Seq::<PendingView>::empty());
    assert(due_model(second.0, now) =~= seq![e1]);
    assert(events_of(due_model(second.0, now)) =~= seq![
        EventView::Modified { path: p, observed_at: at1 },
    ]);
}

/// A creation followed by a write within the window still amounts to one
/// `Created` event, not an additional `Modified`.
pub proof fn lemma_create_then_write_stays_created(
    p: Seq<char>,
    at1: u64,
    at2: u64,
    now: u64,
    window: u64,
)
    requires
        at2 <= deadline_for(at1, window),
        now > deadline_for(at1, window),
    ensures
        ({
            let first = offer_model(Seq::<PendingView>::empty(), p, RawKind::Create, at1, window);
            let second = offer_model(first.0, p, RawKind::Write, at2, window);
            &&& first.1 is None
            &&& second.1 is None
            &&& events_of(due_model(second.0, now)) == seq![
                EventView::Created { path: p, observed_at: at1 },
            ]
        }),
{
    reveal_with_fuel(keep_model, 3);
    reveal_with_fuel(due_model, 3);
    let first = offer_model(Seq::<PendingView>::empty(), p, RawKind::Create, at1, window);
    let e0 = fresh_pending(p, RawKind::Create, at1, window);
    assert(first.0 =~= seq![e0]);
    let second = offer_model(first.0, p, RawKind::Write, at2, window);
    assert(first.0[0] == e0);
    let e1 = merged(e0, RawKind::Write);
    assert(second.0 =~= seq![e1]);
    assert(due(e1, now));
    assert(second.0.drop_first() =~= Seq::<PendingView>::empty());
    assert(due_model(second.0, now) =~= seq![e1]);
    assert(events_of(due_model(second.0, now)) =~= seq![
        EventView::Created { path: p, observed_at: at1 },
    ]);
}

} // verus!
