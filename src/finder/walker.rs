//! Depth-bounded directory walkers.
//!
//! A walker never touches the filesystem. It names the directory it needs
//! listed next; the caller lists it and hands the listing back; the walker
//! decides which children are reported, which are descended into and which
//! failures end the walk. The sequential walker reports entries in
//! depth-first pre-order; the work pool hands directories out in any order,
//! to any number of workers. Both keep a ghost log of the directories they
//! listed, over which their results are stated.
use vstd::prelude::*;
use crate::errors::{Failure, FailureKind, FailureView};
use super::entry::{Entry, EntryKind, EntryView, is_hidden, is_hidden_name};
use super::options::FindOptions;

verus! {

/// Identity of a directory on its device, used to notice cycles of links.
#[derive(Debug, Clone, Copy, PartialEq, Eq, Structural)]
pub struct FileId {
    pub device: u64,
    pub inode: u64,
}

/// One object found in a directory listing.
#[derive(Debug)]
pub struct Child {
    /// Base name.
    pub name: String,
    /// Full path.
    pub path: String,
    /// Type of the object itself: a symbolic link is `Symlink`.
    pub kind: EntryKind,
    /// Type of what a link leads to; the same as `kind` for anything that is
    /// not a link, and for a link whose target cannot be read.
    pub target_kind: EntryKind,
    /// Identity of the directory it leads to, where known.
    pub id: Option<FileId>,
}

/// The abstract value of a [`Child`].
pub struct ChildView {
    pub name: Seq<char>,
    pub path: Seq<char>,
    pub kind: EntryKind,
    pub target_kind: EntryKind,
    pub id: Option<FileId>,
}

impl View for Child {
    type V = ChildView;

    open spec fn view(&self) -> ChildView {
        ChildView {
            name: self.name@,
            path: self.path@,
            kind: self.kind,
            target_kind: self.target_kind,
            id: self.id,
        }
    }
}

/// A directory that is to be listed, with its depth below the root and the
/// identities of the directories on the way to it (itself included, where known).
#[derive(Debug)]
pub struct PendingDir {
    pub path: String,
    pub depth: usize,
    pub ancestry: Vec<FileId>,
}

/// The abstract value of a [`PendingDir`].
pub struct DirView {
    pub path: Seq<char>,
    pub depth: nat,
    pub ancestry: Seq<FileId>,
}

impl View for PendingDir {
    type V = DirView;

    open spec fn view(&self) -> DirView {
        DirView { path: self.path@, depth: self.depth as nat, ancestry: self.ancestry@ }
    }
}

/// One item of a listing: a child, or the failure to read one.
pub type ListingItem = Result<Child, Failure>;

/// The listing of a directory: its items in the order they were read, or
/// the failure to read the directory at all.
pub type Listing = Result<Vec<ListingItem>, Failure>;

/// The abstract value of a listing item: the child, or the failure's class.
pub open spec fn item_view(item: ListingItem) -> Result<ChildView, FailureView> {
    match item {
        Ok(c) => Ok(c@),
        Err(f) => Err(f@),
    }
}

/// The abstract value of the items of a listing.
pub open spec fn items_view(items: Seq<ListingItem>) -> Seq<Result<ChildView, FailureView>> {
    items.map_values(|item: ListingItem| item_view(item))
}

/// Whether `depth` is within the depth bound.
pub open spec fn within_depth(options: FindOptions, depth: int) -> bool {
    match options.max_depth {
        Some(m) => depth <= m,
        None => true,
    }
}

/// Whether a child called `name` is reported (and may be descended into):
/// hidden names are left out when the options say so.
pub open spec fn is_reported(options: FindOptions, name: Seq<char>) -> bool {
    !(options.ignore_hidden && is_hidden_name(name))
}

/// The type reported for a child: a link reports its target's type only
/// when links are followed.
pub open spec fn reported_kind(options: FindOptions, c: ChildView) -> EntryKind {
    if options.follow_links { c.target_kind } else { c.kind }
}

/// Whether a failure of `kind` is skipped rather than fatal.
pub open spec fn is_ignored(options: FindOptions, kind: FailureKind) -> bool {
    match kind {
        FailureKind::PermissionDenied => options.ignore_permission_errors,
        _ => options.ignore_io_errors,
    }
}

/// Whether `id` closes a cycle with the directories in `ancestry`.
pub open spec fn closes_cycle(ancestry: Seq<FileId>, id: Option<FileId>) -> bool {
    id is Some && ancestry.contains(id->Some_0)
}

/// Whether the walker descends into child `c` of directory `d`: a reported
/// directory, not a link unless links are followed, within the depth bound
/// (and the machine's), and not closing a cycle.
pub open spec fn descends(options: FindOptions, d: DirView, c: ChildView) -> bool {
    &&& is_reported(options, c.name)
    &&& c.target_kind == EntryKind::Directory
    &&& (c.kind != EntryKind::Symlink || options.follow_links)
    &&& within_depth(options, d.depth + 1 as int)
    &&& d.depth + 1 < usize::MAX
    &&& !closes_cycle(d.ancestry, c.id)
}

/// The entry reported for child `c` of directory `d`.
pub open spec fn entry_of(options: FindOptions, d: DirView, c: ChildView) -> EntryView {
    EntryView { path: c.path, name: c.name, depth: d.depth + 1 as int, kind: reported_kind(options, c) }
}

/// The directory descended into for child `c` of directory `d`.
pub open spec fn subdir_of(d: DirView, c: ChildView) -> DirView {
    DirView {
        path: c.path,
        depth: (d.depth + 1) as nat,
        ancestry: match c.id {
            Some(id) => d.ancestry.push(id),
            None => d.ancestry,
        },
    }
}

/// Whether every entry of `entries` lies within the bounds of `options`:
/// never the root (depth zero), and at most one below the depth bound.
pub open spec fn entries_in_bounds(options: FindOptions, entries: Seq<Entry>) -> bool {
    forall|i: int| 0 <= i < entries.len() ==> {
        &&& (#[trigger] entries[i]).depth >= 1
        &&& within_depth(options, entries[i].depth - 1)
    }
}

impl PendingDir {
    /// The root of a walk: depth zero, reached through itself alone.
    pub fn root(path: String, id: Option<FileId>) -> (r: PendingDir)
        ensures
            r.path@ == path@,
            r.depth == 0,
            r.ancestry@ == match id {
                Some(i) => seq![i],
                None => Seq::<FileId>::empty(),
            },
    {
        let mut ancestry: Vec<FileId> = Vec::new();
        match id {
            Some(i) => {
                ancestry.push(i);
                assert(ancestry@ =~= seq![i]);
            },
            None => {
                assert(ancestry@ =~= Seq::<FileId>::empty());
            },
        }
        PendingDir { path, depth: 0, ancestry }
    }
}

/// The elements of `items`, last first.
pub fn reversed<T>(items: Vec<T>) -> (r: Vec<T>)
    ensures
        r@.len() == items@.len(),
        forall|j: int| 0 <= j < r@.len() ==> #[trigger] r@[j] == items@[items@.len() - 1 - j],
{
    let mut items = items;
    let ghost original = items@;
    let mut r: Vec<T> = Vec::new();
    while items.len() > 0
        invariant
            items@ == original.take(items@.len() as int),
            r@.len() + items@.len() == original.len(),
            forall|j: int| 0 <= j < r@.len() ==> #[trigger] r@[j] == original[original.len() - 1 - j],
        decreases items@.len(),
    {
        let item = items.pop().unwrap();
        r.push(item);
        assert(items@ =~= original.take(items@.len() as int));
    }
    r
}

/// Whether `ancestry` holds `id`.
fn ancestry_contains(ancestry: &Vec<FileId>, id: FileId) -> (r: bool)
    ensures
        r == ancestry@.contains(id),
{
    let mut i: usize = 0;
    while i < ancestry.len()
        invariant
            i <= ancestry@.len(),
            forall|j: int| 0 <= j < i ==> ancestry@[j] != id,
        decreases ancestry@.len() - i,
    {
        if ancestry[i] == id {
            return true;
        }
        i = i + 1;
    }
    false
}

/// Whether a failure of `kind` is skipped rather than fatal.
pub fn failure_is_ignored(options: &FindOptions, kind: FailureKind) -> (r: bool)
    ensures
        r == is_ignored(*options, kind),
{
    match kind {
        FailureKind::PermissionDenied => options.ignore_permission_errors,
        _ => options.ignore_io_errors,
    }
}

/// Whether a child called `name` is reported.
pub fn reports(options: &FindOptions, name: &str) -> (r: bool)
    ensures
        r == is_reported(*options, name@),
{
    !(options.ignore_hidden && is_hidden(name))
}

/// Whether the walker descends into `child` of `parent`.
pub fn should_descend(options: &FindOptions, parent: &PendingDir, child: &Child) -> (r: bool)
    ensures
        r == descends(*options, parent@, child@),
{
    if !reports(options, child.name.as_str()) {
        return false;
    }
    if child.target_kind != EntryKind::Directory {
        return false;
    }
    if child.kind == EntryKind::Symlink && !options.follow_links {
        return false;
    }
    if parent.depth >= usize::MAX - 1 {
        return false;
    }
    match options.max_depth {
        Some(m) => {
            if parent.depth + 1 > m {
                return false;
            }
        },
        None => {},
    }
    match child.id {
        Some(id) => !ancestry_contains(&parent.ancestry, id),
        None => true,
    }
}

/// The entry reported for `child` of `parent`.
pub fn entry_for(options: &FindOptions, parent: &PendingDir, child: &Child) -> (r: Entry)
    requires
        parent.depth < usize::MAX,
    ensures
        r@ == entry_of(*options, parent@, child@),
{
    let kind = if options.follow_links { child.target_kind } else { child.kind };
    Entry {
        path: child.path.clone(),
        name: child.name.clone(),
        depth: parent.depth + 1,
        kind,
    }
}

/// The directory descended into for `child` of `parent`.
pub fn subdir_for(parent: &PendingDir, child: &Child) -> (r: PendingDir)
    requires
        parent.depth < usize::MAX,
    ensures
        r@ == subdir_of(parent@, child@),
{
    let mut ancestry: Vec<FileId> = Vec::new();
    let mut i: usize = 0;
    while i < parent.ancestry.len()
        invariant
            i <= parent.ancestry@.len(),
            ancestry@ == parent.ancestry@.take(i as int),
        decreases parent.ancestry@.len() - i,
    {
        ancestry.push(parent.ancestry[i]);
        i = i + 1;
        assert(ancestry@ =~= parent.ancestry@.take(i as int));
    }
    assert(ancestry@ =~= parent.ancestry@);
    match child.id {
        Some(id) => ancestry.push(id),
        None => {},
    }
    PendingDir { path: child.path.clone(), depth: parent.depth + 1, ancestry }
}

} // verus!
