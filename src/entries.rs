//! Entries of a repository listing and what the run history says of them.

use vstd::prelude::*;

verus! {

/// What the run history says of a listed entry.
#[derive(Debug, Clone, Copy, PartialEq, Eq, Structural)]
pub enum EntryStatus {
    /// No run of this path was recorded.
    NeverStarted,
    /// The recorded run was of this very content; it succeeded or failed.
    Finished(bool),
    /// The content differs from the one of the recorded run.
    Changed,
    /// The record could not be read, or the content not hashed.
    Unknown,
    Directory,
}

/// One line of a directory listing.
#[derive(Debug, Clone)]
pub struct ListEntry {
    /// Path relative to the repository root.
    pub relative_path: String,
    pub name: String,
    pub selected: bool,
    pub is_directory: bool,
    pub status: EntryStatus,
}

/// The mathematical value of a listed entry.
pub struct EntryView {
    pub path: Seq<char>,
    pub name: Seq<char>,
    pub selected: bool,
    pub is_directory: bool,
    pub status: EntryStatus,
}

impl View for ListEntry {
    type V = EntryView;

    open spec fn view(&self) -> EntryView {
        EntryView {
            path: self.relative_path@,
            name: self.name@,
            selected: self.selected,
            is_directory: self.is_directory,
            status: self.status,
        }
    }
}

/// The values of a list of entries.
pub open spec fn entry_views(s: Seq<ListEntry>) -> Seq<EntryView> {
    s.map_values(|e: ListEntry| e@)
}

} // verus!
