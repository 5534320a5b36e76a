//! The entry-point pane's rows.

use vstd::prelude::*;

verus! {

/// The pane listing a program's entry points.
pub struct EntryView {
    entries: Vec<Entry>,
}

impl EntryView {
    /// The rows the pane shows.
    pub closed spec fn entries_view(&self) -> Seq<Entry> {
        self.entries@
    }

    /// A pane over the given rows.
    pub fn new(entries: Vec<Entry>) -> (r: EntryView)
        ensures
            r.entries_view() == entries@,
    {
        EntryView { entries }
    }
}

/// One entry point: its address, what kind it is, and its name.
pub struct Entry {
    va: u64,
    type_: EntryType,
    name: String,
}

impl Entry {
    /// The row's address.
    pub closed spec fn va_spec(&self) -> u64 {
        self.va
    }

    /// The row's kind.
    pub closed spec fn type_spec(&self) -> EntryType {
        self.type_
    }

    /// The row's name.
    pub closed spec fn name_spec(&self) -> Seq<char> {
        self.name@
    }

    /// A row from its fields.
    pub fn new(va: u64, type_: EntryType, name: String) -> (r: Entry)
        ensures
            r.va_spec() == va,
            r.type_spec() == type_,
            r.name_spec() == name@,
    {
        Entry { va, type_, name }
    }
}

/// The kinds of entry point the pane distinguishes.
pub enum EntryType {
    Main,
    Export,
    TlsCallback,
}

} // verus!
