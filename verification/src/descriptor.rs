//! The data model of the index: file descriptors and scan filters.

use vstd::prelude::*;

verus! {

/// Whether a filesystem entry is a regular file or a directory.
#[derive(Clone, Copy, PartialEq, Eq, Structural, Debug)]
pub enum EntryKind {
    Regular,
    Directory,
}

/// Mathematical model of a descriptor: every field as a plain value.
pub ghost struct FdView {
    pub path: Seq<char>,
    pub kind: EntryKind,
    pub size: u64,
    pub modified_at: u64,
    pub extension: Option<Seq<char>>,
}

/// The metadata record kept in the index for one filesystem entry,
/// uniquely identified by its canonical path.
pub struct FileDescriptor {
    pub path: String,
    pub kind: EntryKind,
    pub size: u64,
    pub modified_at: u64,
    pub extension: Option<String>,
}

impl View for FileDescriptor {
    type V = FdView;

    open spec fn view(&self) -> FdView {
        FdView {
            path: self.path@,
            kind: self.kind,
            size: self.size,
            modified_at: self.modified_at,
            extension: match self.extension {
                Some(e) => Some(e@),
                None => None,
            },
        }
    }
}

impl DeepView for FileDescriptor {
    type V = FdView;

    open spec fn deep_view(&self) -> FdView {
        self@
    }
}

impl FileDescriptor {
    /// Field-by-field copy with the same model as the value copied.
    pub fn duplicate(&self) -> (r: FileDescriptor)
        ensures
            r@ == self@,
    {
        FileDescriptor {
            path: self.path.clone(),
            kind: self.kind,
            size: self.size,
            modified_at: self.modified_at,
            extension: match &self.extension {
                Some(e) => Some(e.clone()),
                None => None,
            },
        }
    }
}

/// Which entry kinds a scan keeps.
#[derive(Clone, Copy, PartialEq, Eq, Structural, Debug)]
pub enum TypeFilter {
    All,
    Directory,
    Regular,
}

/// Model of a scan filter.
pub ghost struct FilterView {
    pub type_filter: TypeFilter,
    pub extensions: Option<Seq<Seq<char>>>,
}

/// A scan filter: an entry is kept when its kind matches the type filter
/// and, if an extension allow-list is set, its extension is on the list.
pub struct Filter {
    pub type_filter: TypeFilter,
    pub extensions: Option<Vec<String>>,
}

impl View for Filter {
    type V = FilterView;

    open spec fn view(&self) -> FilterView {
        FilterView {
            type_filter: self.type_filter,
            extensions: match self.extensions {
                Some(ref v) => Some(v.deep_view()),
                None => None,
            },
        }
    }
}

pub open spec fn kind_passes(f: TypeFilter, k: EntryKind) -> bool {
    match f {
        TypeFilter::All => true,
        TypeFilter::Directory => k == EntryKind::Directory,
        TypeFilter::Regular => k == EntryKind::Regular,
    }
}

pub open spec fn ext_passes(allow: Option<Seq<Seq<char>>>, e: Option<Seq<char>>) -> bool {
    match allow {
        None => true,
        Some(list) => match e {
            Some(x) => list.contains(x),
            None => false,
        },
    }
}

/// An entry passes the filter when both its kind and its extension do.
pub open spec fn passes(f: FilterView, d: FdView) -> bool {
    kind_passes(f.type_filter, d.kind) && ext_passes(f.extensions, d.extension)
}

impl Filter {
    /// A filter that keeps every entry.
    pub fn keep_all() -> (r: Filter)
        ensures
            r@.type_filter == TypeFilter::All,
            r@.extensions is None,
            forall|d: FdView| passes(r@, d),
    {
        Filter { type_filter: TypeFilter::All, extensions: None }
    }

    /// Decides whether one descriptor passes this filter.
    pub fn matches(&self, d: &FileDescriptor) -> (r: bool)
        ensures
            r == passes(self@, d@),
    {
        let kind_ok = match self.type_filter {
            TypeFilter::All => true,
            TypeFilter::Directory => matches!(d.kind, EntryKind::Directory),
            TypeFilter::Regular => matches!(d.kind, EntryKind::Regular),
        };
        if !kind_ok {
            return false;
        }
        match &self.extensions {
            None => true,
            Some(allow) => match &d.extension {
                None => false,
                Some(e) => contains_string(allow, e),
            },
        }
    }
}

/// Linear search for a string in a vector, by character content.
pub fn contains_string(v: &Vec<String>, x: &String) -> (r: bool)
    ensures
        r == v.deep_view().contains(x@),
{
    let n = v.len();
    for i in 0..n
        invariant
            n == v.len(),
            forall|j: int| 0 <= j < i ==> v.deep_view()[j] != x@,
    {
        assert(v.deep_view()[i as int] == v@[i as int]@);
        if v[i].eq(x) {
            assert(v.deep_view()[i as int] == x@);
            return true;
        }
    }
    false
}

} // verus!
