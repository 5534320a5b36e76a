//! The raw-bytes pane's state.

use vstd::prelude::*;

verus! {

/// The pane showing a stretch of raw bytes at an address.
pub struct RawView {
    va: u64,
    data: Vec<u8>,
}

impl RawView {
    /// Where the shown bytes start.
    pub closed spec fn va_spec(&self) -> u64 {
        self.va
    }

    /// The shown bytes.
    pub closed spec fn data_view(&self) -> Seq<u8> {
        self.data@
    }

    /// A pane over the given bytes.
    pub fn new(va: u64, data: Vec<u8>) -> (r: RawView)
        ensures
            r.va_spec() == va,
            r.data_view() == data@,
    {
        RawView { va, data }
    }
}

} // verus!
