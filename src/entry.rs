use vstd::prelude::*;

verus! {

/// The type of a directory member, as read without following it.
#[derive(Clone, Copy, Debug, PartialEq, Eq, Structural)]
pub enum EntryKind {
    File,
    Directory,
    Symlink,
    Other,
}

/// One member of a listed directory.
///
/// `kind` is the member's own type. `target` is the type it resolves to: the
/// same as `kind` for anything but a symlink, and for a symlink the type of
/// what it points to (`Symlink` again where that cannot be resolved).
#[derive(Clone, Debug)]
pub struct Entry {
    pub path: String,
    pub kind: EntryKind,
    pub target: EntryKind,
}

impl Entry {
    /// The type that the walker's decisions go by: the member's own type, or
    /// the resolved one where symlinks are followed.
    pub open spec fn effective_kind(self, follow_symlinks: bool) -> EntryKind {
        if follow_symlinks {
            self.target
        } else {
            self.kind
        }
    }

    pub fn new(path: String, kind: EntryKind, target: EntryKind) -> (r: Entry)
        ensures
            r.path == path,
            r.kind == kind,
            r.target == target,
    {
        Entry { path, kind, target }
    }

    pub fn is_dir(&self, follow_symlinks: bool) -> (r: bool)
        ensures
            r == (self.effective_kind(follow_symlinks) == EntryKind::Directory),
    {
        let k = if follow_symlinks {
            self.target
        } else {
            self.kind
        };
        k == EntryKind::Directory
    }
}

/// A filter that withholds entries from the output by their type. It never
/// keeps a directory from being walked into.
#[derive(Clone, Copy, Debug, PartialEq, Eq, Structural)]
pub enum EntryFilter {
    /// Withholds directories and unresolved symlinks: only files and other
    /// members are surfaced.
    FileOnly,
    /// Withholds everything that is not a directory.
    DirectoryOnly,
}

impl EntryFilter {
    pub open spec fn ignores_spec(self, kind: EntryKind) -> bool {
        match self {
            EntryFilter::FileOnly => kind == EntryKind::Directory || kind == EntryKind::Symlink,
            EntryFilter::DirectoryOnly => kind != EntryKind::Directory,
        }
    }

    pub fn ignores(&self, kind: EntryKind) -> (r: bool)
        ensures
            r == self.ignores_spec(kind),
    {
        match self {
            EntryFilter::FileOnly => kind == EntryKind::Directory || kind == EntryKind::Symlink,
            EntryFilter::DirectoryOnly => kind != EntryKind::Directory,
        }
    }
}

/// Whether any filter of the chain withholds an entry of the given type.
pub open spec fn chain_ignores(filters: Seq<EntryFilter>, kind: EntryKind) -> bool {
    exists|i: int| 0 <= i < filters.len() && (#[trigger] filters[i]).ignores_spec(kind)
}

/// Tests the filters in order and stops at the first that withholds the entry.
pub fn any_ignores(filters: &Vec<EntryFilter>, kind: EntryKind) -> (r: bool)
    ensures
        r == chain_ignores(filters@, kind),
{
    let mut i: usize = 0;
    while i < filters.len()
        invariant
            0 <= i <= filters@.len(),
            forall|j: int| 0 <= j < i ==> !(#[trigger] filters@[j]).ignores_spec(kind),
        decreases filters@.len() - i,
    {
        if filters[i].ignores(kind) {
            return true;
        }
        i += 1;
    }
    false
}

} // verus!
