//! What the request layers attach to a request.
use vstd::prelude::*;

use crate::state::id::{new_uuid_string, parse_uuid, uuid_canonical, uuid_shape};

verus! {

/// The anonymous identifier of the browser a request came from.
#[derive(Debug, Clone)]
pub struct Apid(pub String);

/// The browser identifier that an `apid` cookie's value carries: the value
/// itself, when it is a UUID.
pub fn apid_of_cookie(value: &str) -> (apid: Option<String>)
    ensures
        apid is Some <==> uuid_canonical(value@) is Some,
        apid matches Some(a) ==> a@ == value@,
{
    match parse_uuid(value) {
        Ok(_) => Some(value.to_string()),
        Err(_) => None,
    }
}

/// A fresh browser identifier: a random UUID in hyphenated form.
pub fn new_apid() -> (apid: String)
    ensures
        uuid_shape(apid@),
{
    new_uuid_string()
}

} // verus!
