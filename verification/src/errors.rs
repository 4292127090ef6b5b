//! The structured error value reported to clients.

use vstd::prelude::*;

verus! {

/// An error reply: a fixed tag, an HTTP-like status code and a
/// human-readable body.
#[derive(Debug)]
pub struct HTMLError {
    pub kind: String,
    pub status_code: u64,
    pub body: String,
}

impl HTMLError {
    /// A fresh error value carrying `status_code` and `body`.
    pub fn new(status_code: u64, body: &str) -> (r: HTMLError)
        ensures
            r.kind@ == "ERROR"@,
            r.status_code == status_code,
            r.body@ == body@,
    {
        HTMLError { kind: "ERROR".to_owned(), status_code, body: body.to_owned() }
    }
}

} // verus!
