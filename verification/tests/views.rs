//! The viewer panes' data types and the session user property.

use ngdp::mojang_session_api::UserProperty;
use ngdp::viewer::entry::{Entry, EntryType, EntryView};
use ngdp::viewer::location::{Location, LocationType, LocationView};
use ngdp::viewer::raw::RawView;

#[test]
fn user_property_starts_unsigned() {
    let p = UserProperty::new(String::from("textures"), String::from("value"));
    assert_eq!(p.name, "textures");
    assert_eq!(p.value, "value");
    assert!(p.signature.is_none());
}

#[test]
fn panes_build_from_their_rows() {
    let e = Entry::new(0x401000, EntryType::Main, String::from("start"));
    let _entries = EntryView::new(vec![e]);
    let loc = Location { va: 0x402000, type_: LocationType::Export, name: String::from("f") };
    let _locations = LocationView::new(vec![loc]);
    let _raw = RawView::new(0x400000, vec![0x90, 0xC3]);
}
