//! The directory lister, as a scan state machine. The caller performs the
//! actual directory reads and feeds each listing back; the scanner decides
//! which directory to read next, never re-enters a directory once visited
//! (so a symlink cycle cannot loop the scan), applies the filters, skips a
//! failed directory read without aborting the rest, and fails the whole
//! scan only when the root itself cannot be read.

use vstd::prelude::*;
use crate::descriptor::{FileDescriptor, FdView, Filter, FilterView, EntryKind, passes, contains_string};
use crate::store::{contains_path, paths_unique};

verus! {

/// The one failure that aborts a scan: the configured root cannot be read.
pub enum ListerError {
    RootUnavailable(String),
}

/// Model of the scan state.
pub ghost struct ScannerView {
    pub filter: FilterView,
    pub root: Seq<char>,
    pub pending: Seq<Seq<char>>,
    pub visited: Seq<Seq<char>>,
    pub results: Seq<FdView>,
    pub root_failed: bool,
}

/// Scanner well-formedness: no directory is queued twice, none is queued
/// once visited, each is visited at most once, and no result path repeats.
pub open spec fn view_wf(v: ScannerView) -> bool {
    &&& forall|i: int, j: int| 0 <= i < j < v.pending.len() ==> v.pending[i] != v.pending[j]
    &&& forall|i: int, j: int| 0 <= i < j < v.visited.len() ==> v.visited[i] != v.visited[j]
    &&& forall|i: int| 0 <= i < v.pending.len() ==> !v.visited.contains(#[trigger] v.pending[i])
    &&& paths_unique(v.results)
}

/// What recording one directory entry does: a descriptor is kept when it
/// passes the filter and its path is new; a subdirectory is queued when it
/// was neither queued nor visited before.
pub open spec fn add_entry(v: ScannerView, e: FdView) -> ScannerView {
    let results = if passes(v.filter, e) && !contains_path(v.results, e.path) {
        v.results.push(e)
    } else {
        v.results
    };
    let pending = if e.kind == EntryKind::Directory && !v.pending.contains(e.path)
        && !v.visited.contains(e.path) {
        v.pending.push(e.path)
    } else {
        v.pending
    };
    ScannerView {
        filter: v.filter,
        root: v.root,
        pending,
        visited: v.visited,
        results,
        root_failed: v.root_failed,
    }
}

pub open spec fn add_entries(v: ScannerView, es: Seq<FdView>) -> ScannerView
    decreases es.len(),
{
    if es.len() == 0 {
        v
    } else {
        add_entries(add_entry(v, es[0]), es.drop_first())
    }
}

pub proof fn lemma_add_snoc(v: ScannerView, es: Seq<FdView>, e: FdView)
    ensures
        add_entries(v, es.push(e)) == add_entry(add_entries(v, es), e),
    decreases es.len(),
{
    reveal_with_fuel(add_entries, 3);
    if es.len() == 0 {
        assert(es.push(e)[0] == e);
        assert(es.push(e).drop_first() =~= Seq::<FdView>::empty());
        assert(add_entries(v, es.push(e)) == add_entries(add_entry(v, e), Seq::<FdView>::empty()));
    } else {
        assert(es.push(e)[0] == es[0]);
        assert(es.push(e).drop_first() =~= es.drop_first().push(e));
        lemma_add_snoc(add_entry(v, es[0]), es.drop_first(), e);
    }
}

/// One recorded entry keeps the scanner well-formed.
pub proof fn lemma_add_entry_wf(v: ScannerView, e: FdView)
    requires
        view_wf(v),
    ensures
        view_wf(add_entry(v, e)),
{
    let v2 = add_entry(v, e);
    if passes(v.filter, e) && !contains_path(v.results, e.path) {
        assert forall|a: int, b: int|
            0 <= a < b < v2.results.len() implies v2.results[a].path != v2.results[b].path by {
            if b == v.results.len() {
                assert(v2.results[a] == v.results[a]);
                assert(v2.results[b] == e);
                if v.results[a].path == e.path {
                    assert(contains_path(v.results, e.path)) by {
                        assert(0 <= a < v.results.len() && v.results[a].path == e.path);
                    }
                }
            } else {
                assert(v2.results[a] == v.results[a]);
                assert(v2.results[b] == v.results[b]);
            }
        }
    }
    if e.kind == EntryKind::Directory && !v.pending.contains(e.path) && !v.visited.contains(
        e.path,
    ) {
        assert forall|a: int, b: int|
            0 <= a < b < v2.pending.len() implies v2.pending[a] != v2.pending[b] by {
            if b == v.pending.len() {
                assert(v2.pending[a] == v.pending[a]);
                assert(v2.pending[b] == e.path);
                if v.pending[a] == e.path {
                    assert(v.pending.contains(e.path)) by {
                        assert(0 <= a < v.pending.len() && v.pending[a] == e.path);
                    }
                }
            } else {
                assert(v2.pending[a] == v.pending[a]);
                assert(v2.pending[b] == v.pending[b]);
            }
        }
        assert forall|i: int|
            0 <= i < v2.pending.len() implies !v2.visited.contains(#[trigger] v2.pending[i]) by {
            if i < v.pending.len() {
                assert(v2.pending[i] == v.pending[i]);
            } else {
                assert(v2.pending[i] == e.path);
            }
        }
    }
}

/// A whole listing keeps the scanner well-formed.
pub proof fn lemma_add_entries_wf(v: ScannerView, es: Seq<FdView>)
    requires
        view_wf(v),
    ensures
        view_wf(add_entries(v, es)),
    decreases es.len(),
{
    if es.len() == 0 {
    } else {
        lemma_add_entry_wf(v, es[0]);
        lemma_add_entries_wf(add_entry(v, es[0]), es.drop_first());
    }
}

/// Recording a listing whose entries all pass the filter and are new to
/// the scan — as in a filesystem tree, where every path is enumerated once
/// — keeps exactly one descriptor per entry, in order: a listing of N
/// regular files and M subdirectories adds N + M descriptors.
pub proof fn lemma_listing_adds_all(v: ScannerView, es: Seq<FdView>)
    requires
        forall|j: int| 0 <= j < es.len() ==> passes(v.filter, #[trigger] es[j]),
        forall|j: int| 0 <= j < es.len() ==> !contains_path(v.results, (#[trigger] es[j]).path),
        forall|a: int, b: int| 0 <= a < b < es.len() ==> es[a].path != es[b].path,
    ensures
        add_entries(v, es).results == v.results + es,
        add_entries(v, es).results.len() == v.results.len() + es.len(),
    decreases es.len(),
{
    if es.len() == 0 {
        assert(add_entries(v, es).results =~= v.results + es);
    } else {
        let v1 = add_entry(v, es[0]);
        assert(v1.results == v.results.push(es[0]));
        assert forall|j: int| 0 <= j < es.drop_first().len() implies passes(
            v1.filter,
            #[trigger] es.drop_first()[j],
        ) by {
            assert(es.drop_first()[j] == es[j + 1]);
        }
        assert forall|j: int|
            0 <= j < es.drop_first().len() implies !contains_path(
            v1.results,
            (#[trigger] es.drop_first()[j]).path,
        ) by {
            assert(es.drop_first()[j] == es[j + 1]);
            if contains_path(v1.results, es[j + 1].path) {
                let k = choose|k: int|
                    0 <= k < v1.results.len() && v1.results[k].path == es[j + 1].path;
                if k < v.results.len() {
                    assert(v.results[k].path == es[j + 1].path);
                    assert(contains_path(v.results, es[j + 1].path)) by {
                        assert(0 <= k < v.results.len() && v.results[k].path == es[j + 1].path);
                    }
                } else {
                    assert(v1.results[k] == es[0]);
                    assert(es[0].path == es[j + 1].path);
                }
            }
        }
        assert forall|a: int, b: int|
            0 <= a < b < es.drop_first().len() implies es.drop_first()[a].path != es.drop_first()[
            b
        ].path by {
            assert(es.drop_first()[a] == es[a + 1]);
            assert(es.drop_first()[b] == es[b + 1]);
        }
        lemma_listing_adds_all(v1, es.drop_first());
        assert(v.results.push(es[0]) + es.drop_first() =~= v.results + es);
    }
}

/// The entries of a whole scan, one listing per directory read, flattened
/// in read order.
pub open spec fn flat(ls: Seq<Seq<FdView>>) -> Seq<FdView>
    decreases ls.len(),
{
    if ls.len() == 0 {
        Seq::<FdView>::empty()
    } else {
        ls[0] + flat(ls.drop_first())
    }
}

/// The scan state after recording one listing per directory read, in order.
pub open spec fn record_all(v: ScannerView, ls: Seq<Seq<FdView>>) -> ScannerView
    decreases ls.len(),
{
    if ls.len() == 0 {
        v
    } else {
        record_all(add_entries(v, ls[0]), ls.drop_first())
    }
}

pub proof fn lemma_add_entries_keeps_filter(v: ScannerView, es: Seq<FdView>)
    ensures
        add_entries(v, es).filter == v.filter,
    decreases es.len(),
{
    if es.len() == 0 {
    } else {
        lemma_add_entries_keeps_filter(add_entry(v, es[0]), es.drop_first());
    }
}

/// The whole-scan shape of the count property: a scan that reads each
/// directory of a tree once — every entry path appearing exactly once over
/// all the listings, every entry passing the filter and new to the scan —
/// collects exactly one descriptor per entry, in read order. A tree of N
/// regular files and M subdirectories thus yields N + M descriptors.
pub proof fn lemma_scan_collects_tree(v: ScannerView, ls: Seq<Seq<FdView>>)
    requires
        forall|i: int| 0 <= i < flat(ls).len() ==> passes(v.filter, #[trigger] flat(ls)[i]),
        forall|i: int| 0 <= i < flat(ls).len() ==> !contains_path(
            v.results,
            (#[trigger] flat(ls)[i]).path,
        ),
        forall|a: int, b: int| 0 <= a < b < flat(ls).len() ==> flat(ls)[a].path != flat(ls)[b].path,
    ensures
        record_all(v, ls).results == v.results + flat(ls),
        record_all(v, ls).results.len() == v.results.len() + flat(ls).len(),
    decreases ls.len(),
{
    if ls.len() == 0 {
        assert(record_all(v, ls).results =~= v.results + flat(ls));
    } else {
        let e0 = ls[0];
        let rest = flat(ls.drop_first());
        assert(flat(ls) == e0 + rest);
        assert forall|j: int| 0 <= j < e0.len() implies passes(v.filter, #[trigger] e0[j]) by {
            assert(flat(ls)[j] == e0[j]);
        }
        assert forall|j: int|
            0 <= j < e0.len() implies !contains_path(v.results, (#[trigger] e0[j]).path) by {
            assert(flat(ls)[j] == e0[j]);
        }
        assert forall|a: int, b: int| 0 <= a < b < e0.len() implies e0[a].path != e0[b].path by {
            assert(flat(ls)[a] == e0[a]);
            assert(flat(ls)[b] == e0[b]);
        }
        lemma_listing_adds_all(v, e0);
        let v1 = add_entries(v, e0);
        lemma_add_entries_keeps_filter(v, e0);
        assert forall|i: int| 0 <= i < rest.len() implies passes(v1.filter, #[trigger] rest[i]) by {
            assert(flat(ls)[e0.len() + i] == rest[i]);
        }
        assert forall|i: int|
            0 <= i < rest.len() implies !contains_path(v1.results, (#[trigger] rest[i]).path) by {
            assert(flat(ls)[e0.len() + i] == rest[i]);
            if contains_path(v1.results, rest[i].path) {
                let k = choose|k: int|
                    0 <= k < v1.results.len() && v1.results[k].path == rest[i].path;
                if k < v.results.len() {
                    assert(v.results[k].path == rest[i].path);
                    assert(contains_path(v.results, rest[i].path)) by {
                        assert(0 <= k < v.results.len() && v.results[k].path == rest[i].path);
                    }
                } else {
                    let j = k - v.results.len();
                    assert(v1.results[k] == e0[j]);
                    assert(flat(ls)[j] == e0[j]);
                    assert(flat(ls)[j].path == flat(ls)[e0.len() + i].path);
                }
            }
        }
        assert forall|a: int, b: int|
            0 <= a < b < rest.len() implies rest[a].path != rest[b].path by {
            assert(flat(ls)[e0.len() + a] == rest[a]);
            assert(flat(ls)[e0.len() + b] == rest[b]);
        }
        lemma_scan_collects_tree(v1, ls.drop_first());
        assert((v.results + e0) + rest =~= v.results + (e0 + rest));
    }
}

fn results_contain_path(rs: &Vec<FileDescriptor>, p: &String) -> (r: bool)
    ensures
        r == contains_path(rs.deep_view(), p@),
{
    let n = rs.len();
    for i in 0..n
        invariant
            n == rs.len(),
            forall|j: int| 0 <= j < i ==> (#[trigger] rs.deep_view()[j]).path != p@,
    {
        assert(rs.deep_view()[i as int] == rs@[i as int]@);
        if rs[i].path.eq(p) {
            assert(contains_path(rs.deep_view(), p@)) by {
                assert(rs.deep_view()[i as int].path == p@);
            }
            return true;
        }
    }
    false
}

/// The scan state machine. The caller loops: ask `next_dir`, read that
/// directory, feed the outcome to `record_listing` or `record_failure`,
/// and call `finish` once nothing is pending.
pub struct Scanner {
    filter: Filter,
    root: String,
    pending: Vec<String>,
    visited: Vec<String>,
    results: Vec<FileDescriptor>,
    root_failed: bool,
}

impl View for Scanner {
    type V = ScannerView;

    closed spec fn view(&self) -> ScannerView {
        ScannerView {
            filter: self.filter@,
            root: self.root@,
            pending: self.pending.deep_view(),
            visited: self.visited.deep_view(),
            results: self.results.deep_view(),
            root_failed: self.root_failed,
        }
    }
}

impl Scanner {
    pub open spec fn wf(&self) -> bool {
        view_wf(self@)
    }

    /// A scan of `root` under `filter`: the root is queued, nothing is
    /// visited, nothing found yet.
    pub fn new(root: String, filter: Filter) -> (r: Scanner)
        ensures
            r@.filter == filter@,
            r@.root == root@,
            r@.pending == seq![root@],
            r@.visited == Seq::<Seq<char>>::empty(),
            r@.results == Seq::<FdView>::empty(),
            !r@.root_failed,
            r.wf(),
    {
        let ghost rv = root@;
        let mut pending: Vec<String> = Vec::new();
        pending.push(root.clone());
        let r = Scanner {
            filter,
            root,
            pending,
            visited: Vec::new(),
            results: Vec::new(),
            root_failed: false,
        };
        proof {
            assert(r@.pending =~= seq![rv]);
            assert(r@.visited =~= Seq::<Seq<char>>::empty());
            assert(r@.results =~= Seq::<FdView>::empty());
        }
        r
    }

    /// Hands out the next directory to read, marking it visited. A
    /// directory is handed out at most once over the whole scan, so a
    /// cycle of links cannot make the scan loop.
    pub fn next_dir(&mut self) -> (r: Option<String>)
        requires
            old(self).wf(),
        ensures
            final(self).wf(),
            old(self)@.pending.len() == 0 ==> r is None && final(self)@ == old(self)@,
            old(self)@.pending.len() > 0 ==> (r matches Some(d) && d@ == old(self)@.pending.last()
                && !old(self)@.visited.contains(d@) && final(self)@ == (ScannerView {
                pending: old(self)@.pending.drop_last(),
                visited: old(self)@.visited.push(d@),
                ..old(self)@
            })),
    {
        let ghost v0 = self@;
        if self.pending.len() == 0 {
            proof {
                assert(self@ == v0);
            }
            return None;
        }
        let d = match self.pending.pop() {
            Some(d) => d,
            None => {
                return None;
            },
        };
        proof {
            assert(self.pending.deep_view() =~= v0.pending.drop_last());
            assert(d@ == v0.pending.last());
        }
        let ghost vs0 = self.visited@;
        let ghost vv0 = self.visited.deep_view();
        self.visited.push(d.clone());
        proof {
            assert(vv0 == Seq::new(vs0.len(), |q: int| vs0[q].deep_view()));
            assert(vv0.len() == vs0.len());
            assert forall|k: int|
                0 <= k < self.visited.deep_view().len() implies self.visited.deep_view()[k]
                == vv0.push(d@)[k] by {
                assert(self.visited.deep_view()[k] == self.visited@[k].deep_view());
                if k < vs0.len() {
                    assert(self.visited@[k] == vs0[k]);
                    assert(vv0[k] == vs0[k].deep_view());
                }
            }
            assert(self.visited.deep_view() =~= vv0.push(d@));
            assert(!v0.visited.contains(d@)) by {
                assert(v0.pending[v0.pending.len() - 1] == d@);
            }
            assert forall|i: int, j: int|
                0 <= i < j < self@.visited.len() implies self@.visited[i] != self@.visited[j] by {
                if j == v0.visited.len() {
                    assert(self@.visited[i] == v0.visited[i]);
                    assert(self@.visited[j] == d@);
                    if v0.visited[i] == d@ {
                        assert(v0.visited.contains(d@)) by {
                            assert(0 <= i < v0.visited.len() && v0.visited[i] == d@);
                        }
                    }
                } else {
                    assert(self@.visited[i] == v0.visited[i]);
                    assert(self@.visited[j] == v0.visited[j]);
                }
            }
            assert forall|i: int, j: int|
                0 <= i < j < self@.pending.len() implies self@.pending[i] != self@.pending[j] by {
                assert(self@.pending[i] == v0.pending[i]);
                assert(self@.pending[j] == v0.pending[j]);
            }
            assert forall|i: int|
                0 <= i < self@.pending.len() implies !self@.visited.contains(
                #[trigger] self@.pending[i],
            ) by {
                assert(self@.pending[i] == v0.pending[i]);
                if self@.visited.contains(v0.pending[i]) {
                    let k = choose|k: int|
                        0 <= k < self@.visited.len() && self@.visited[k] == v0.pending[i];
                    if k < v0.visited.len() {
                        assert(v0.visited.contains(v0.pending[i])) by {
                            assert(v0.visited[k] == v0.pending[i]);
                        }
                    } else {
                        assert(self@.visited[k] == d@);
                        assert(v0.pending[i] == v0.pending[v0.pending.len() - 1]);
                    }
                }
            }
        }
        Some(d)
    }

    /// Records the entries of one successfully read directory.
    pub fn record_listing(&mut self, entries: &Vec<FileDescriptor>)
        requires
            old(self).wf(),
        ensures
            final(self).wf(),
            final(self)@ == add_entries(old(self)@, entries.deep_view()),
    {
        let ghost v0 = self@;
        let ghost es = entries.deep_view();
        let n = entries.len();
        for i in 0..n
            invariant
                n == entries.len(),
                es == entries.deep_view(),
                v0 == old(self)@,
                self@ == add_entries(v0, es.take(i as int)),
                self.wf(),
        {
            assert(es[i as int] == entries@[i as int]@);
            let ghost vpre = self@;
            let keep = self.filter.matches(&entries[i]) && !results_contain_path(
                &self.results,
                &entries[i].path,
            );
            if keep {
                let ghost rs0 = self.results@;
                let ghost rv0 = self.results.deep_view();
                self.results.push(entries[i].duplicate());
                proof {
                    assert(rv0 == Seq::new(rs0.len(), |q: int| rs0[q].deep_view()));
                    assert(rv0.len() == rs0.len());
                    assert forall|k: int|
                        0 <= k < self.results.deep_view().len() implies self.results.deep_view()[k]
                        == rv0.push(es[i as int])[k] by {
                        assert(self.results.deep_view()[k] == self.results@[k].deep_view());
                        if k < rs0.len() {
                            assert(self.results@[k] == rs0[k]);
                            assert(rv0[k] == rs0[k].deep_view());
                        }
                    }
                    assert(self.results.deep_view() =~= rv0.push(es[i as int]));
                }
            }
            let is_dir = matches!(entries[i].kind, EntryKind::Directory);
            let queue = is_dir && !contains_string(&self.pending, &entries[i].path)
                && !contains_string(&self.visited, &entries[i].path);
            if queue {
                let ghost ps0 = self.pending@;
                let ghost pv0 = self.pending.deep_view();
                self.pending.push(entries[i].path.clone());
                proof {
                    assert(pv0 == Seq::new(ps0.len(), |q: int| ps0[q].deep_view()));
                    assert(pv0.len() == ps0.len());
                    assert forall|k: int|
                        0 <= k < self.pending.deep_view().len() implies self.pending.deep_view()[k]
                        == pv0.push(es[i as int].path)[k] by {
                        assert(self.pending.deep_view()[k] == self.pending@[k].deep_view());
                        if k < ps0.len() {
                            assert(self.pending@[k] == ps0[k]);
                            assert(pv0[k] == ps0[k].deep_view());
                        }
                    }
                    assert(self.pending.deep_view() =~= pv0.push(es[i as int].path));
                }
            }
            proof {
                assert(self@ == add_entry(vpre, es[i as int]));
                assert(es.take(i as int).push(es[i as int]) =~= es.take(i as int + 1));
                lemma_add_snoc(v0, es.take(i as int), es[i as int]);
                lemma_add_entry_wf(vpre, es[i as int]);
            }
        }
        proof {
            assert(es.take(n as int) =~= es);
        }
    }

    /// Records that a directory could not be read. The scan goes on with
    /// the other directories; only a failed root fails the whole scan.
    pub fn record_failure(&mut self, dir: &String)
        requires
            old(self).wf(),
        ensures
            final(self).wf(),
            final(self)@ == (ScannerView {
                root_failed: old(self)@.root_failed || dir@ == old(self)@.root,
                ..old(self)@
            }),
    {
        if self.root.eq(dir) {
            self.root_failed = true;
        }
    }

    /// Ends the scan: the descriptors found, in discovery order, or
    /// `RootUnavailable` naming the root when the root itself could not be
    /// read — the one failure that aborts a scan.
    pub fn finish(self) -> (r: Result<Vec<FileDescriptor>, ListerError>)
        ensures
            self@.root_failed ==> (r matches Err(ListerError::RootUnavailable(p)) && p@
                == self@.root),
            !self@.root_failed ==> (r matches Ok(found) && found.deep_view() == self@.results),
    {
        if self.root_failed {
            Err(ListerError::RootUnavailable(self.root))
        } else {
            Ok(self.results)
        }
    }
}

} // verus!
