//! Reported filesystem objects.
use vstd::prelude::*;

verus! {

/// File type of a reported object.
#[derive(Debug, Clone, Copy, PartialEq, Eq, Structural)]
pub enum EntryKind {
    Regular,
    Directory,
    Symlink,
    Other,
}

/// One reported filesystem object: its path, its base name, its depth below
/// the root (the root's children are at depth one) and its file type.
#[derive(Debug, Clone)]
pub struct Entry {
    pub path: String,
    pub name: String,
    pub depth: usize,
    pub kind: EntryKind,
}

/// The abstract value of an [`Entry`].
pub struct EntryView {
    pub path: Seq<char>,
    pub name: Seq<char>,
    pub depth: int,
    pub kind: EntryKind,
}

impl View for Entry {
    type V = EntryView;

    open spec fn view(&self) -> EntryView {
        EntryView { path: self.path@, name: self.name@, depth: self.depth as int, kind: self.kind }
    }
}

/// A name is hidden when it begins with a dot.
pub open spec fn is_hidden_name(name: Seq<char>) -> bool {
    name.len() > 0 && name[0] == '.'
}

/// Whether `name` is hidden.
pub fn is_hidden(name: &str) -> (r: bool)
    ensures
        r == is_hidden_name(name@),
{
    name.unicode_len() > 0 && name.get_char(0) == '.'
}

} // verus!
