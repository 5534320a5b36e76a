//! The session service's user-property record.

use vstd::prelude::*;

verus! {

/// One property attached to a user profile, optionally signed.
#[derive(Clone, Debug)]
pub struct UserProperty {
    pub name: String,
    pub value: String,
    pub signature: Option<String>,
}

impl UserProperty {
    /// An unsigned property.
    pub fn new(name: String, value: String) -> (r: UserProperty)
        ensures
            r.name@ == name@,
            r.value@ == value@,
            r.signature is None,
    {
        UserProperty { name, value, signature: None }
    }
}

} // verus!
