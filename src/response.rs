//! Field-level error bodies of the HTTP interface.
use vstd::prelude::*;

verus! {

/// An error about one request field.
#[derive(Clone, Debug)]
pub struct JsonError {
    pub field: String,
    pub message: String,
}

impl JsonError {
    pub fn new(field: String, message: String) -> (e: JsonError)
        ensures
            e.field@ == field@,
            e.message@ == message@,
    {
        JsonError { field, message }
    }
}

} // verus!
