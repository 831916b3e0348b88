//! Responses as plain values: status, headers and body.

use vstd::prelude::*;
use crate::router::string_pairs;
use vstd::string::StringSliceAdditionalSpecFns;

verus! {

/// A response: status code, headers in order, and body bytes.
pub struct Reply {
    pub status: u16,
    pub headers: Vec<(String, String)>,
    pub body: Vec<u8>,
}

/// Builds the responses that the dispatcher itself produces.
pub struct ResponseBuilder;

impl ResponseBuilder {
    /// Status 200, `Content-Type: text/plain`, and `chunk` as the body.
    pub fn with_text(chunk: &str) -> (r: Reply)
        ensures
            r.status == 200,
            string_pairs(r.headers@) == seq![("Content-Type"@, "text/plain"@)],
            r.body@ == chunk.spec_bytes(),
    {
        let mut headers: Vec<(String, String)> = Vec::new();
        headers.push((String::from_str("Content-Type"), String::from_str("text/plain")));
        let r = Reply { status: 200, headers, body: chunk.as_bytes_vec() };
        assert(string_pairs(r.headers@) =~= seq![("Content-Type"@, "text/plain"@)]);
        r
    }

    /// Status 200, no headers, empty body.
    pub fn empty() -> (r: Reply)
        ensures
            r.status == 200,
            r.headers@.len() == 0,
            r.body@.len() == 0,
    {
        Reply { status: 200, headers: Vec::new(), body: Vec::new() }
    }

    /// The canonical "not found" response: status 404, no headers, empty body.
    pub fn not_found() -> (r: Reply)
        ensures
            r.status == 404,
            r.headers@.len() == 0,
            r.body@.len() == 0,
    {
        Reply { status: 404, headers: Vec::new(), body: Vec::new() }
    }
}

} // verus!
