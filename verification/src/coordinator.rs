//! The event coordinator: warms the store with the initial scan, buffers
//! change events that arrive during warming, and once live applies each
//! event to the store. One writer drives it; a store operation never races
//! with the scan because warming completes before any buffered event is
//! applied.

use vstd::prelude::*;
use crate::descriptor::{FileDescriptor, FdView};
use crate::store::{
    Store, lookup, upsert_model, remove_model, paths_unique, lemma_upsert_fresh,
    lemma_upsert_unique, lemma_lookup_remove_same, lemma_upsert_values, lemma_remove_values,
};

verus! {

/// A normalized filesystem change event, immutable once emitted.
pub enum ChangeEvent {
    Created { path: String, observed_at: u64 },
    Modified { path: String, observed_at: u64 },
    Removed { path: String, observed_at: u64 },
    Renamed { from: String, to: String, observed_at: u64 },
}

/// Model of a change event.
pub ghost enum EventView {
    Created { path: Seq<char>, observed_at: u64 },
    Modified { path: Seq<char>, observed_at: u64 },
    Removed { path: Seq<char>, observed_at: u64 },
    Renamed { from: Seq<char>, to: Seq<char>, observed_at: u64 },
}

impl View for ChangeEvent {
    type V = EventView;

    open spec fn view(&self) -> EventView {
        match self {
            ChangeEvent::Created { path, observed_at } => EventView::Created {
                path: path@,
                observed_at: *observed_at,
            },
            ChangeEvent::Modified { path, observed_at } => EventView::Modified {
                path: path@,
                observed_at: *observed_at,
            },
            ChangeEvent::Removed { path, observed_at } => EventView::Removed {
                path: path@,
                observed_at: *observed_at,
            },
            ChangeEvent::Renamed { from, to, observed_at } => EventView::Renamed {
                from: from@,
                to: to@,
                observed_at: *observed_at,
            },
        }
    }
}

impl DeepView for ChangeEvent {
    type V = EventView;

    open spec fn deep_view(&self) -> EventView {
        self@
    }
}

/// Model of a reread result: the fresh metadata of the event's target, or
/// `None` when the target vanished before it could be read again.
pub open spec fn reread_view(r: Option<FileDescriptor>) -> Option<FdView> {
    match r {
        Some(d) => Some(d@),
        None => None,
    }
}

/// What one event does to the store contents. `Created` and `Modified` both
/// upsert the freshly read metadata whole (so a `Modified` for an unknown
/// path heals the index); `Removed` deletes the path; `Renamed` deletes the
/// old path and upserts the freshly read metadata of the new one. A vanished
/// target leaves nothing to upsert.
pub open spec fn apply_event_model(
    s: Seq<FdView>,
    e: EventView,
    reread: Option<FdView>,
) -> Seq<FdView> {
    match e {
        EventView::Created { .. } => match reread {
            Some(d) => upsert_model(s, d),
            None => s,
        },
        EventView::Modified { .. } => match reread {
            Some(d) => upsert_model(s, d),
            None => s,
        },
        EventView::Removed { path, .. } => remove_model(s, path),
        EventView::Renamed { from, .. } => match reread {
            Some(d) => upsert_model(remove_model(s, from), d),
            None => remove_model(s, from),
        },
    }
}

/// Applies one change event to the store. The caller rereads the target's
/// metadata (an outside step) and passes the result in; the store is changed
/// exactly as `apply_event_model` says.
pub fn apply_event(store: &mut Store, e: &ChangeEvent, reread: Option<FileDescriptor>)
    requires
        old(store).wf(),
    ensures
        final(store)@ == apply_event_model(old(store)@, e@, reread_view(reread)),
        final(store).wf(),
{
    match e {
        ChangeEvent::Created { .. } | ChangeEvent::Modified { .. } => {
            match reread {
                Some(d) => store.upsert(d),
                None => (),
            }
        },
        ChangeEvent::Removed { path, .. } => store.remove(path),
        ChangeEvent::Renamed { from, .. } => {
            store.remove(from);
            match reread {
                Some(d) => store.upsert(d),
                None => (),
            }
        },
    }
}

/// What warming does: the initial descriptors are upserted one after the
/// other, in scan order.
pub open spec fn warm_model(s: Seq<FdView>, ds: Seq<FdView>) -> Seq<FdView>
    decreases ds.len(),
{
    if ds.len() == 0 {
        s
    } else {
        warm_model(upsert_model(s, ds[0]), ds.drop_first())
    }
}

pub proof fn lemma_warm_snoc(s: Seq<FdView>, ds: Seq<FdView>, d: FdView)
    ensures
        warm_model(s, ds.push(d)) == upsert_model(warm_model(s, ds), d),
    decreases ds.len(),
{
    reveal_with_fuel(warm_model, 3);
    if ds.len() == 0 {
        assert(ds.push(d)[0] == d);
        assert(ds.push(d).drop_first() =~= Seq::<FdView>::empty());
        assert(warm_model(s, ds.push(d)) == warm_model(
            upsert_model(s, d),
            Seq::<FdView>::empty(),
        ));
    } else {
        assert(ds.push(d)[0] == ds[0]);
        assert(ds.push(d).drop_first() =~= ds.drop_first().push(d));
        lemma_warm_snoc(upsert_model(s, ds[0]), ds.drop_first(), d);
    }
}

/// Upserts every descriptor of the initial scan into the store, in order.
pub fn warm(store: &mut Store, descriptors: &Vec<FileDescriptor>)
    requires
        old(store).wf(),
    ensures
        final(store)@ == warm_model(old(store)@, descriptors.deep_view()),
        final(store).wf(),
{
    let ghost s0 = store@;
    let ghost ds = descriptors.deep_view();
    let n = descriptors.len();
    for i in 0..n
        invariant
            n == descriptors.len(),
            ds == descriptors.deep_view(),
            s0 == old(store)@,
            store@ == warm_model(s0, ds.take(i as int)),
            store.wf(),
    {
        assert(ds[i as int] == descriptors@[i as int]@);
        store.upsert(descriptors[i].duplicate());
        proof {
            assert(ds.take(i as int).push(ds[i as int]) =~= ds.take(i as int + 1));
            lemma_warm_snoc(s0, ds.take(i as int), ds[i as int]);
        }
    }
    proof {
        assert(ds.take(n as int) =~= ds);
    }
}

/// Warming an empty store with a snapshot whose paths are unique (as a scan
/// produces) makes the store list exactly that snapshot: no entry missing,
/// none duplicated, in scan order. The general step: descriptors with fresh,
/// pairwise-distinct paths are appended one for one.
pub proof fn lemma_warm_fresh(s: Seq<FdView>, ds: Seq<FdView>)
    requires
        paths_unique(ds),
        forall|i: int, j: int|
            0 <= i < s.len() && 0 <= j < ds.len() ==> (#[trigger] s[i]).path != (
            #[trigger] ds[j]).path,
    ensures
        warm_model(s, ds) == s + ds,
    decreases ds.len(),
{
    if ds.len() == 0 {
        assert(warm_model(s, ds) =~= s + ds);
    } else {
        assert forall|j: int| 0 <= j < s.len() implies s[j].path != ds[0].path by {}
        lemma_upsert_fresh(s, ds[0]);
        let s1 = s.push(ds[0]);
        assert forall|a: int, b: int|
            0 <= a < b < ds.drop_first().len() implies ds.drop_first()[a].path != ds.drop_first()[
            b
        ].path by {
            assert(ds.drop_first()[a] == ds[a + 1]);
            assert(ds.drop_first()[b] == ds[b + 1]);
        }
        assert forall|i: int, j: int|
            0 <= i < s1.len() && 0 <= j < ds.drop_first().len() implies s1[i].path
            != ds.drop_first()[j].path by {
            assert(ds.drop_first()[j] == ds[j + 1]);
            if i < s.len() {
                assert(s1[i] == s[i]);
            } else {
                assert(s1[i] == ds[0]);
            }
        }
        lemma_warm_fresh(s1, ds.drop_first());
        assert(s.push(ds[0]) + ds.drop_first() =~= s + ds);
    }
}

/// Warming an empty store lists exactly the scan snapshot.
pub proof fn lemma_warming_yields_snapshot(ds: Seq<FdView>)
    requires
        paths_unique(ds),
    ensures
        warm_model(Seq::<FdView>::empty(), ds) == ds,
{
    lemma_warm_fresh(Seq::<FdView>::empty(), ds);
    assert(Seq::<FdView>::empty() + ds =~= ds);
}

/// Created, then Modified, then Removed for one path leaves the path absent
/// from the store, whatever metadata the rereads saw.
pub proof fn lemma_created_modified_removed(
    s: Seq<FdView>,
    p: Seq<char>,
    d1: FdView,
    d2: FdView,
    t1: u64,
    t2: u64,
    t3: u64,
)
    requires
        paths_unique(s),
    ensures
        lookup(
            apply_event_model(
                apply_event_model(
                    apply_event_model(s, EventView::Created { path: p, observed_at: t1 }, Some(d1)),
                    EventView::Modified { path: p, observed_at: t2 },
                    Some(d2),
                ),
                EventView::Removed { path: p, observed_at: t3 },
                None,
            ),
            p,
        ) is None,
{
    let s1 = upsert_model(s, d1);
    let s2 = upsert_model(s1, d2);
    lemma_upsert_unique(s, d1);
    lemma_upsert_unique(s1, d2);
    lemma_lookup_remove_same(s2, p);
}

/// A `Modified` event for a path, with the metadata the reread saw, ends in
/// the same store as a `Created` event for it: a missed creation heals.
pub proof fn lemma_modified_heals(s: Seq<FdView>, p: Seq<char>, d: FdView, t1: u64, t2: u64)
    requires
        !crate::store::contains_path(s, p),
    ensures
        apply_event_model(s, EventView::Modified { path: p, observed_at: t1 }, Some(d))
            == apply_event_model(s, EventView::Created { path: p, observed_at: t2 }, Some(d)),
{
}

/// Every descriptor readable after any sequence of store operations was
/// written whole: it stood in the initial contents or was the argument of
/// one upsert. No operation can leave a mixed descriptor behind.
pub ghost enum StoreOp {
    Upsert(FdView),
    Remove(Seq<char>),
}

pub open spec fn apply_op(s: Seq<FdView>, op: StoreOp) -> Seq<FdView> {
    match op {
        StoreOp::Upsert(d) => upsert_model(s, d),
        StoreOp::Remove(p) => remove_model(s, p),
    }
}

pub open spec fn apply_ops(s: Seq<FdView>, ops: Seq<StoreOp>) -> Seq<FdView>
    decreases ops.len(),
{
    if ops.len() == 0 {
        s
    } else {
        apply_ops(apply_op(s, ops[0]), ops.drop_first())
    }
}

/// The per-path atomicity law: a reader of the store after any operation
/// sequence sees only descriptors that were written whole by one upsert (or
/// stood whole in the initial contents) — never a mix of two writes.
pub proof fn lemma_store_values_written_whole(s: Seq<FdView>, ops: Seq<StoreOp>, k: int)
    requires
        0 <= k < apply_ops(s, ops).len(),
    ensures
        s.contains(apply_ops(s, ops)[k]) || exists|n: int|
            0 <= n < ops.len() && ops[n] == StoreOp::Upsert(apply_ops(s, ops)[k]),
    decreases ops.len(),
{
    if ops.len() == 0 {
    } else {
        let v = apply_ops(s, ops)[k];
        let s1 = apply_op(s, ops[0]);
        assert(apply_ops(s, ops) == apply_ops(s1, ops.drop_first()));
        lemma_store_values_written_whole(s1, ops.drop_first(), k);
        if s1.contains(v) {
            let m = choose|m: int| 0 <= m < s1.len() && s1[m] == v;
            match ops[0] {
                StoreOp::Upsert(d) => {
                    lemma_upsert_values(s, d, m);
                    if s.contains(v) {
                    } else {
                        assert(v == d);
                        assert(ops[0] == StoreOp::Upsert(v));
                    }
                },
                StoreOp::Remove(p) => {
                    lemma_remove_values(s, p, m);
                },
            }
        } else {
            let n = choose|n: int|
                0 <= n < ops.drop_first().len() && ops.drop_first()[n] == StoreOp::Upsert(v);
            assert(ops[n + 1] == StoreOp::Upsert(v));
        }
    }
}

/// The coordinator's phase: applying the initial scan, or applying live
/// events.
#[derive(Clone, Copy, PartialEq, Eq, Structural, Debug)]
pub enum Phase {
    Warming,
    Live,
}

/// Model of the coordinator.
pub ghost struct CoordinatorView {
    pub phase: Phase,
    pub buffer: Seq<EventView>,
}

/// Sequences the initial scan against the live event stream: events that
/// arrive while the scan is still being applied are buffered, never dropped,
/// and handed back in arrival order once warming finishes.
pub struct Coordinator {
    phase: Phase,
    buffer: Vec<ChangeEvent>,
}

impl View for Coordinator {
    type V = CoordinatorView;

    closed spec fn view(&self) -> CoordinatorView {
        CoordinatorView { phase: self.phase, buffer: self.buffer.deep_view() }
    }
}

impl Coordinator {
    /// Starts in the warming phase with nothing buffered.
    pub fn new() -> (r: Coordinator)
        ensures
            r@.phase == Phase::Warming,
            r@.buffer == Seq::<EventView>::empty(),
    {
        let r = Coordinator { phase: Phase::Warming, buffer: Vec::new() };
        proof {
            assert(r@.buffer =~= Seq::<EventView>::empty());
        }
        r
    }

    pub fn phase(&self) -> (r: Phase)
        ensures
            r == self@.phase,
    {
        self.phase
    }

    /// Offers one incoming event. During warming it is buffered and nothing
    /// is to be applied yet; once live it is handed back for immediate
    /// application.
    pub fn accept(&mut self, e: ChangeEvent) -> (r: Option<ChangeEvent>)
        ensures
            old(self)@.phase == Phase::Warming ==> final(self)@.phase == Phase::Warming
                && final(self)@.buffer == old(self)@.buffer.push(e@) && r is None,
            old(self)@.phase == Phase::Live ==> final(self)@ == old(self)@ && (r matches Some(out)
                && out@ == e@),
    {
        match self.phase {
            Phase::Warming => {
                let ghost bs0 = self.buffer@;
                let ghost bv0 = self.buffer.deep_view();
                self.buffer.push(e);
                proof {
                    assert(bv0 == Seq::new(bs0.len(), |q: int| bs0[q].deep_view()));
                    assert(bv0.len() == bs0.len());
                    assert forall|k: int|
                        0 <= k < self.buffer.deep_view().len() implies self.buffer.deep_view()[k]
                        == bv0.push(e@)[k] by {
                        assert(self.buffer.deep_view()[k] == self.buffer@[k].deep_view());
                        if k < bs0.len() {
                            assert(self.buffer@[k] == bs0[k]);
                            assert(bv0[k] == bs0[k].deep_view());
                        }
                    }
                    assert(self.buffer.deep_view() =~= bv0.push(e@));
                }
                None
            },
            Phase::Live => Some(e),
        }
    }

    /// Ends warming: switches to live and hands back every buffered event,
    /// in arrival order, for the caller to apply before any new event.
    pub fn finish_warming(&mut self) -> (r: Vec<ChangeEvent>)
        requires
            old(self)@.phase == Phase::Warming,
        ensures
            final(self)@.phase == Phase::Live,
            final(self)@.buffer == Seq::<EventView>::empty(),
            r.deep_view() == old(self)@.buffer,
    {
        self.phase = Phase::Live;
        let mut drained: Vec<ChangeEvent> = Vec::new();
        std::mem::swap(&mut drained, &mut self.buffer);
        proof {
            assert(self.buffer.deep_view() =~= Seq::<EventView>::empty());
        }
        drained
    }
}

} // verus!
