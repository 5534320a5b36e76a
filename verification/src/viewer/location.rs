//! The locations pane's rows.

use vstd::prelude::*;

verus! {

/// The pane listing the program's named locations.
pub struct LocationView {
    locations: Vec<Location>,
}

impl LocationView {
    /// The rows the pane shows.
    pub closed spec fn locations_view(&self) -> Seq<Location> {
        self.locations@
    }

    /// A pane over the given rows.
    pub fn new(locations: Vec<Location>) -> (r: LocationView)
        ensures
            r.locations_view() == locations@,
    {
        LocationView { locations }
    }
}

/// One named location: its address, what kind it is, and its name.
pub struct Location {
    pub va: u64,
    pub type_: LocationType,
    pub name: String,
}

/// The kinds of location the pane distinguishes.
pub enum LocationType {
    TlsCallback,
    EntryPoint,
    Export,
}

} // verus!
