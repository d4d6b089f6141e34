//! The file-metadata store: a keyed index of descriptors with at most one
//! entry per canonical path. A single logical writer mutates it; readers
//! obtain whole-descriptor snapshots, so no caller ever sees a descriptor
//! with fields from two different writes. The in-memory backing cannot fail
//! on a per-operation basis.

use vstd::prelude::*;
use crate::descriptor::{FileDescriptor, FdView};

verus! {

/// True when no two entries share a path.
pub open spec fn paths_unique(s: Seq<FdView>) -> bool {
    forall|i: int, j: int| 0 <= i < j < s.len() ==> s[i].path != s[j].path
}

/// True when some entry has the given path.
pub open spec fn contains_path(s: Seq<FdView>, p: Seq<char>) -> bool {
    exists|i: int| 0 <= i < s.len() && s[i].path == p
}

/// The first entry with the given path, if any.
pub open spec fn lookup(s: Seq<FdView>, p: Seq<char>) -> Option<FdView>
    decreases s.len(),
{
    if s.len() == 0 {
        None
    } else if s[0].path == p {
        Some(s[0])
    } else {
        lookup(s.drop_first(), p)
    }
}

/// Replace the first entry with `d.path` by `d`, or append `d` when absent.
pub open spec fn upsert_model(s: Seq<FdView>, d: FdView) -> Seq<FdView>
    decreases s.len(),
{
    if s.len() == 0 {
        seq![d]
    } else if s[0].path == d.path {
        seq![d] + s.drop_first()
    } else {
        seq![s[0]] + upsert_model(s.drop_first(), d)
    }
}

/// Drop the first entry with the given path, if any.
pub open spec fn remove_model(s: Seq<FdView>, p: Seq<char>) -> Seq<FdView>
    decreases s.len(),
{
    if s.len() == 0 {
        s
    } else if s[0].path == p {
        s.drop_first()
    } else {
        seq![s[0]] + remove_model(s.drop_first(), p)
    }
}

pub proof fn lemma_upsert_at(s: Seq<FdView>, d: FdView, i: int)
    requires
        0 <= i < s.len(),
        s[i].path == d.path,
        forall|j: int| 0 <= j < i ==> s[j].path != d.path,
    ensures
        upsert_model(s, d) == s.update(i, d),
    decreases s.len(),
{
    if i == 0 {
        assert(upsert_model(s, d) =~= s.update(0, d));
    } else {
        assert(s[0].path != d.path);
        assert forall|j: int| 0 <= j < i - 1 implies s.drop_first()[j].path != d.path by {
            assert(s.drop_first()[j] == s[j + 1]);
        }
        assert(s.drop_first()[i - 1] == s[i]);
        lemma_upsert_at(s.drop_first(), d, i - 1);
        assert(upsert_model(s, d) =~= s.update(i, d));
    }
}

pub proof fn lemma_upsert_fresh(s: Seq<FdView>, d: FdView)
    requires
        forall|j: int| 0 <= j < s.len() ==> s[j].path != d.path,
    ensures
        upsert_model(s, d) == s.push(d),
    decreases s.len(),
{
    if s.len() == 0 {
        assert(upsert_model(s, d) =~= s.push(d));
    } else {
        assert(s[0].path != d.path);
        assert forall|j: int| 0 <= j < s.drop_first().len() implies s.drop_first()[j].path
            != d.path by {
            assert(s.drop_first()[j] == s[j + 1]);
        }
        lemma_upsert_fresh(s.drop_first(), d);
        assert(upsert_model(s, d) =~= s.push(d));
    }
}

pub proof fn lemma_remove_at(s: Seq<FdView>, p: Seq<char>, i: int)
    requires
        0 <= i < s.len(),
        s[i].path == p,
        forall|j: int| 0 <= j < i ==> s[j].path != p,
    ensures
        remove_model(s, p) == s.remove(i),
    decreases s.len(),
{
    if i == 0 {
        assert(remove_model(s, p) =~= s.remove(0));
    } else {
        assert(s[0].path != p);
        assert forall|j: int| 0 <= j < i - 1 implies s.drop_first()[j].path != p by {
            assert(s.drop_first()[j] == s[j + 1]);
        }
        assert(s.drop_first()[i - 1] == s[i]);
        lemma_remove_at(s.drop_first(), p, i - 1);
        assert(remove_model(s, p) =~= s.remove(i));
    }
}

pub proof fn lemma_remove_absent(s: Seq<FdView>, p: Seq<char>)
    requires
        forall|j: int| 0 <= j < s.len() ==> s[j].path != p,
    ensures
        remove_model(s, p) == s,
    decreases s.len(),
{
    if s.len() == 0 {
    } else {
        assert forall|j: int| 0 <= j < s.drop_first().len() implies s.drop_first()[j].path != p by {
            assert(s.drop_first()[j] == s[j + 1]);
        }
        lemma_remove_absent(s.drop_first(), p);
        assert(remove_model(s, p) =~= s);
    }
}

pub proof fn lemma_lookup_at(s: Seq<FdView>, p: Seq<char>, i: int)
    requires
        0 <= i < s.len(),
        s[i].path == p,
        forall|j: int| 0 <= j < i ==> s[j].path != p,
    ensures
        lookup(s, p) == Some(s[i]),
    decreases s.len(),
{
    if i == 0 {
    } else {
        assert(s[0].path != p);
        assert forall|j: int| 0 <= j < i - 1 implies s.drop_first()[j].path != p by {
            assert(s.drop_first()[j] == s[j + 1]);
        }
        assert(s.drop_first()[i - 1] == s[i]);
        lemma_lookup_at(s.drop_first(), p, i - 1);
    }
}

pub proof fn lemma_lookup_absent(s: Seq<FdView>, p: Seq<char>)
    requires
        forall|j: int| 0 <= j < s.len() ==> s[j].path != p,
    ensures
        lookup(s, p) is None,
    decreases s.len(),
{
    if s.len() == 0 {
    } else {
        assert forall|j: int| 0 <= j < s.drop_first().len() implies s.drop_first()[j].path != p by {
            assert(s.drop_first()[j] == s[j + 1]);
        }
        lemma_lookup_absent(s.drop_first(), p);
    }
}

/// After an upsert, looking the path up yields exactly the upserted
/// descriptor, whole.
pub proof fn lemma_lookup_upsert_same(s: Seq<FdView>, d: FdView)
    ensures
        lookup(upsert_model(s, d), d.path) == Some(d),
    decreases s.len(),
{
    if s.len() == 0 {
        assert(upsert_model(s, d)[0] == d);
    } else if s[0].path == d.path {
        assert(upsert_model(s, d)[0] == d);
    } else {
        let t = seq![s[0]] + upsert_model(s.drop_first(), d);
        lemma_lookup_upsert_same(s.drop_first(), d);
        assert(t[0] == s[0]);
        assert(t.drop_first() =~= upsert_model(s.drop_first(), d));
    }
}

/// An upsert leaves every other path's lookup unchanged.
pub proof fn lemma_lookup_upsert_other(s: Seq<FdView>, d: FdView, p: Seq<char>)
    requires
        p != d.path,
    ensures
        lookup(upsert_model(s, d), p) == lookup(s, p),
    decreases s.len(),
{
    if s.len() == 0 {
        let t = upsert_model(s, d);
        assert(t =~= seq![d]);
        assert forall|j: int| 0 <= j < t.len() implies t[j].path != p by {
            assert(t[0] == d);
        }
        lemma_lookup_absent(t, p);
    } else if s[0].path == d.path {
        let t = seq![d] + s.drop_first();
        assert(t[0] == d);
        assert(t.drop_first() =~= s.drop_first());
        assert(lookup(t, p) == lookup(s.drop_first(), p));
        assert(lookup(s, p) == lookup(s.drop_first(), p));
    } else {
        let t = seq![s[0]] + upsert_model(s.drop_first(), d);
        lemma_lookup_upsert_other(s.drop_first(), d, p);
        assert(t[0] == s[0]);
        assert(t.drop_first() =~= upsert_model(s.drop_first(), d));
        if s[0].path == p {
            assert(lookup(t, p) == Some(t[0]));
            assert(lookup(s, p) == Some(s[0]));
        } else {
            assert(lookup(t, p) == lookup(t.drop_first(), p));
            assert(lookup(s, p) == lookup(s.drop_first(), p));
        }
    }
}

/// After a removal, the removed path is absent (given unique paths).
pub proof fn lemma_lookup_remove_same(s: Seq<FdView>, p: Seq<char>)
    requires
        paths_unique(s),
    ensures
        lookup(remove_model(s, p), p) is None,
    decreases s.len(),
{
    if s.len() == 0 {
    } else if s[0].path == p {
        assert forall|j: int| 0 <= j < s.drop_first().len() implies s.drop_first()[j].path != p by {
            assert(s.drop_first()[j] == s[j + 1]);
        }
        lemma_lookup_absent(s.drop_first(), p);
    } else {
        let t = seq![s[0]] + remove_model(s.drop_first(), p);
        assert forall|i: int, j: int| 0 <= i < j < s.drop_first().len() implies s.drop_first()[
            i
        ].path != s.drop_first()[j].path by {
            assert(s.drop_first()[i] == s[i + 1]);
            assert(s.drop_first()[j] == s[j + 1]);
        }
        lemma_lookup_remove_same(s.drop_first(), p);
        assert(t[0] == s[0]);
        assert(t.drop_first() =~= remove_model(s.drop_first(), p));
    }
}

/// A removal leaves every other path's lookup unchanged.
pub proof fn lemma_lookup_remove_other(s: Seq<FdView>, p: Seq<char>, q: Seq<char>)
    requires
        q != p,
    ensures
        lookup(remove_model(s, p), q) == lookup(s, q),
    decreases s.len(),
{
    if s.len() == 0 {
    } else if s[0].path == p {
    } else {
        let t = seq![s[0]] + remove_model(s.drop_first(), p);
        lemma_lookup_remove_other(s.drop_first(), p, q);
        assert(t[0] == s[0]);
        assert(t.drop_first() =~= remove_model(s.drop_first(), p));
    }
}

/// A lookup misses exactly when no entry has the path.
pub proof fn lemma_lookup_none_iff_absent(s: Seq<FdView>, p: Seq<char>)
    ensures
        (lookup(s, p) is None) <==> !contains_path(s, p),
    decreases s.len(),
{
    if s.len() == 0 {
    } else if s[0].path == p {
        assert(contains_path(s, p)) by {
            assert(0 <= 0 < s.len() && s[0].path == p);
        }
    } else {
        lemma_lookup_none_iff_absent(s.drop_first(), p);
        if contains_path(s, p) {
            let i = choose|i: int| 0 <= i < s.len() && s[i].path == p;
            assert(s.drop_first()[i - 1] == s[i]);
            assert(contains_path(s.drop_first(), p)) by {
                assert(0 <= i - 1 < s.drop_first().len() && s.drop_first()[i - 1].path == p);
            }
        }
        if contains_path(s.drop_first(), p) {
            let i = choose|i: int| 0 <= i < s.drop_first().len() && s.drop_first()[i].path == p;
            assert(s[i + 1] == s.drop_first()[i]);
            assert(contains_path(s, p)) by {
                assert(0 <= i + 1 < s.len() && s[i + 1].path == p);
            }
        }
    }
}

/// Every entry after an upsert is either the upserted descriptor itself or
/// one that already stood in the store, whole.
pub proof fn lemma_upsert_values(s: Seq<FdView>, d: FdView, k: int)
    requires
        0 <= k < upsert_model(s, d).len(),
    ensures
        upsert_model(s, d)[k] == d || s.contains(upsert_model(s, d)[k]),
    decreases s.len(),
{
    if s.len() == 0 {
    } else if s[0].path == d.path {
        let t = seq![d] + s.drop_first();
        if k > 0 {
            assert(t[k] == s.drop_first()[k - 1]);
            assert(s.drop_first()[k - 1] == s[k]);
            assert(s.contains(t[k])) by {
                assert(0 <= k < s.len() && s[k] == t[k]);
            }
        }
    } else {
        let t = seq![s[0]] + upsert_model(s.drop_first(), d);
        if k == 0 {
            assert(s.contains(t[0])) by {
                assert(s[0] == t[0]);
            }
        } else {
            assert(t[k] == upsert_model(s.drop_first(), d)[k - 1]);
            lemma_upsert_values(s.drop_first(), d, k - 1);
            if s.drop_first().contains(t[k]) {
                let j = choose|j: int|
                    0 <= j < s.drop_first().len() && s.drop_first()[j] == t[k];
                assert(s.contains(t[k])) by {
                    assert(0 <= j + 1 < s.len() && s[j + 1] == t[k]);
                }
            }
        }
    }
}

/// Every entry after a removal already stood in the store, whole.
pub proof fn lemma_remove_values(s: Seq<FdView>, p: Seq<char>, k: int)
    requires
        0 <= k < remove_model(s, p).len(),
    ensures
        s.contains(remove_model(s, p)[k]),
    decreases s.len(),
{
    if s.len() == 0 {
    } else if s[0].path == p {
        assert(remove_model(s, p)[k] == s.drop_first()[k]);
        assert(s.contains(remove_model(s, p)[k])) by {
            assert(0 <= k + 1 < s.len() && s[k + 1] == remove_model(s, p)[k]);
        }
    } else {
        let t = seq![s[0]] + remove_model(s.drop_first(), p);
        if k == 0 {
            assert(s.contains(t[0])) by {
                assert(s[0] == t[0]);
            }
        } else {
            assert(t[k] == remove_model(s.drop_first(), p)[k - 1]);
            lemma_remove_values(s.drop_first(), p, k - 1);
            let j = choose|j: int| 0 <= j < s.drop_first().len() && s.drop_first()[j] == t[k];
            assert(s.contains(t[k])) by {
                assert(0 <= j + 1 < s.len() && s[j + 1] == t[k]);
            }
        }
    }
}

/// An upsert keeps the paths unique.
pub proof fn lemma_upsert_unique(s: Seq<FdView>, d: FdView)
    requires
        paths_unique(s),
    ensures
        paths_unique(upsert_model(s, d)),
    decreases s.len(),
{
    if s.len() == 0 {
    } else if s[0].path == d.path {
        let t = seq![d] + s.drop_first();
        assert forall|a: int, b: int| 0 <= a < b < t.len() implies t[a].path != t[b].path by {
            if a == 0 {
                assert(t[b] == s[b]);
                assert(s[0].path != s[b].path);
            } else {
                assert(t[a] == s[a]);
                assert(t[b] == s[b]);
            }
        }
    } else {
        assert forall|a: int, b: int|
            0 <= a < b < s.drop_first().len() implies s.drop_first()[a].path != s.drop_first()[
            b
        ].path by {
            assert(s.drop_first()[a] == s[a + 1]);
            assert(s.drop_first()[b] == s[b + 1]);
        }
        lemma_upsert_unique(s.drop_first(), d);
        let u = upsert_model(s.drop_first(), d);
        let t = seq![s[0]] + u;
        assert forall|a: int, b: int| 0 <= a < b < t.len() implies t[a].path != t[b].path by {
            if a == 0 {
                assert(t[b] == u[b - 1]);
                lemma_upsert_values(s.drop_first(), d, b - 1);
                if s.drop_first().contains(u[b - 1]) {
                    let j = choose|j: int|
                        0 <= j < s.drop_first().len() && s.drop_first()[j] == u[b - 1];
                    assert(s[j + 1] == u[b - 1]);
                    assert(s[0].path != s[j + 1].path);
                }
            } else {
                assert(t[a] == u[a - 1]);
                assert(t[b] == u[b - 1]);
            }
        }
    }
}

/// A removal keeps the paths unique.
pub proof fn lemma_remove_unique(s: Seq<FdView>, p: Seq<char>)
    requires
        paths_unique(s),
    ensures
        paths_unique(remove_model(s, p)),
    decreases s.len(),
{
    if s.len() == 0 {
    } else if s[0].path == p {
        let t = s.drop_first();
        assert forall|a: int, b: int| 0 <= a < b < t.len() implies t[a].path != t[b].path by {
            assert(t[a] == s[a + 1]);
            assert(t[b] == s[b + 1]);
        }
    } else {
        assert forall|a: int, b: int|
            0 <= a < b < s.drop_first().len() implies s.drop_first()[a].path != s.drop_first()[
            b
        ].path by {
            assert(s.drop_first()[a] == s[a + 1]);
            assert(s.drop_first()[b] == s[b + 1]);
        }
        lemma_remove_unique(s.drop_first(), p);
        let u = remove_model(s.drop_first(), p);
        let t = seq![s[0]] + u;
        assert forall|a: int, b: int| 0 <= a < b < t.len() implies t[a].path != t[b].path by {
            if a == 0 {
                assert(t[b] == u[b - 1]);
                lemma_remove_values(s.drop_first(), p, b - 1);
                let j = choose|j: int|
                    0 <= j < s.drop_first().len() && s.drop_first()[j] == u[b - 1];
                assert(s[j + 1] == u[b - 1]);
                assert(s[0].path != s[j + 1].path);
            } else {
                assert(t[a] == u[a - 1]);
                assert(t[b] == u[b - 1]);
            }
        }
    }
}

/// The persistent file-metadata store, backed in memory.
pub struct Store {
    entries: Vec<FileDescriptor>,
}

impl View for Store {
    type V = Seq<FdView>;

    closed spec fn view(&self) -> Seq<FdView> {
        self.entries.deep_view()
    }
}

impl Store {
    /// Well-formed: at most one descriptor per canonical path.
    pub open spec fn wf(&self) -> bool {
        paths_unique(self@)
    }

    /// An empty store.
    pub fn new() -> (r: Store)
        ensures
            r@ == Seq::<FdView>::empty(),
            r.wf(),
    {
        let r = Store { entries: Vec::new() };
        proof {
            assert(r@ =~= Seq::<FdView>::empty());
        }
        r
    }

    /// Idempotent structure creation: for the in-memory backing the
    /// structure always exists already, so this never fails and never
    /// changes the contents.
    pub fn init(&mut self)
        ensures
            final(self)@ == old(self)@,
    {
    }

    /// Insert the descriptor, replacing any previous descriptor for the
    /// same path; the descriptor is written whole.
    pub fn upsert(&mut self, d: FileDescriptor)
        requires
            old(self).wf(),
        ensures
            final(self)@ == upsert_model(old(self)@, d@),
            final(self).wf(),
    {
        let ghost s0 = self@;
        let ghost dv = d@;
        let n = self.entries.len();
        for i in 0..n
            invariant
                n == self.entries.len(),
                self@ == s0,
                s0 == old(self)@,
                paths_unique(s0),
                dv == d@,
                forall|j: int| 0 <= j < i ==> s0[j].path != dv.path,
        {
            assert(s0[i as int] == self.entries@[i as int]@);
            if self.entries[i].path.eq(&d.path) {
                self.entries.set(i, d);
                proof {
                    assert(self@ =~= s0.update(i as int, dv));
                    lemma_upsert_at(s0, dv, i as int);
                    assert forall|a: int, b: int| 0 <= a < b < self@.len() implies self@[a].path
                        != self@[b].path by {
                        assert(self@[a] == if a == i as int { dv } else { s0[a] });
                        assert(self@[b] == if b == i as int { dv } else { s0[b] });
                    }
                }
                return;
            }
        }
        self.entries.push(d);
        proof {
            assert(self@ =~= s0.push(dv));
            lemma_upsert_fresh(s0, dv);
            assert forall|a: int, b: int| 0 <= a < b < self@.len() implies self@[a].path
                != self@[b].path by {
                assert(self@[a] == if a < s0.len() { s0[a] } else { dv });
                assert(self@[b] == if b < s0.len() { s0[b] } else { dv });
            }
        }
    }

    /// Delete the descriptor for the path, if present.
    pub fn remove(&mut self, path: &String)
        requires
            old(self).wf(),
        ensures
            final(self)@ == remove_model(old(self)@, path@),
            final(self).wf(),
    {
        let ghost s0 = self@;
        let n = self.entries.len();
        for i in 0..n
            invariant
                n == self.entries.len(),
                self@ == s0,
                s0 == old(self)@,
                paths_unique(s0),
                forall|j: int| 0 <= j < i ==> s0[j].path != path@,
        {
            assert(s0[i as int] == self.entries@[i as int]@);
            if self.entries[i].path.eq(path) {
                self.entries.remove(i);
                proof {
                    assert(self@ =~= s0.remove(i as int));
                    lemma_remove_at(s0, path@, i as int);
                    assert forall|a: int, b: int| 0 <= a < b < self@.len() implies self@[a].path
                        != self@[b].path by {
                        assert(self@[a] == if a < i as int { s0[a] } else { s0[a + 1] });
                        assert(self@[b] == if b < i as int { s0[b] } else { s0[b + 1] });
                    }
                }
                return;
            }
        }
        proof {
            lemma_remove_absent(s0, path@);
        }
    }

    /// Point lookup; returns a whole-descriptor snapshot.
    pub fn get(&self, path: &String) -> (r: Option<FileDescriptor>)
        requires
            self.wf(),
        ensures
            match r {
                Some(d) => lookup(self@, path@) == Some(d@),
                None => lookup(self@, path@) is None,
            },
    {
        let n = self.entries.len();
        for i in 0..n
            invariant
                n == self.entries.len(),
                forall|j: int| 0 <= j < i ==> self@[j].path != path@,
        {
            assert(self@[i as int] == self.entries@[i as int]@);
            if self.entries[i].path.eq(path) {
                proof {
                    lemma_lookup_at(self@, path@, i as int);
                }
                return Some(self.entries[i].duplicate());
            }
        }
        proof {
            lemma_lookup_absent(self@, path@);
        }
        None
    }

    /// Full enumeration; returns a snapshot of every descriptor, in
    /// insertion order.
    pub fn list(&self) -> (r: Vec<FileDescriptor>)
        ensures
            r.deep_view() == self@,
    {
        let n = self.entries.len();
        let mut r: Vec<FileDescriptor> = Vec::new();
        for i in 0..n
            invariant
                n == self.entries.len(),
                r.deep_view() =~= self@.take(i as int),
        {
            assert(self@[i as int] == self.entries@[i as int]@);
            let ghost rs0 = r@;
            let ghost rv0 = r.deep_view();
            r.push(self.entries[i].duplicate());
            proof {
                assert(rv0 == Seq::new(rs0.len(), |q: int| rs0[q].deep_view()));
                assert(rv0.len() == rs0.len());
                assert(rv0 =~= self@.take(i as int));
                assert(rv0.len() == i as int);
                assert(rs0.len() == i as int);
                assert(r@.len() == i as int + 1);
                assert forall|k: int| 0 <= k < i as int + 1 implies r.deep_view()[k] == self@.take(
                    i as int + 1,
                )[k] by {
                    assert(r.deep_view() == Seq::new(r@.len(), |q: int| r@[q].deep_view()));
                    assert(r.deep_view()[k] == r@[k].deep_view());
                    if k < i as int {
                        assert(r@[k] == rs0[k]);
                        assert(rv0[k] == rs0[k].deep_view());
                    }
                }
                assert(r.deep_view() =~= self@.take(i as int + 1));
            }
        }
        proof {
            assert(self@.take(n as int) =~= self@);
        }
        r
    }

    /// Number of descriptors held.
    pub fn len(&self) -> (r: usize)
        ensures
            r == self@.len(),
    {
        self.entries.len()
    }
}

} // verus!
