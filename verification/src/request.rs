//! The structured request of one invocation: assembled once from the
//! host-supplied raw fields, consumed whole by the single dispatch call,
//! and discarded when the handler returns.

use vstd::prelude::*;

use crate::method::Method;
use crate::query::QueryMap;

verus! {

/// One HTTP-like request: its verb, the ordered header list (duplicates
/// preserved), the path the table is searched with, the query map, and the
/// raw body, which the router never reads.
pub struct Request {
    pub method: Method,
    pub headers: Vec<(String, String)>,
    pub path: String,
    pub query: QueryMap,
    pub body: Vec<u8>,
}

impl Request {
    /// Assembles a request from already-translated raw fields.
    pub fn new(
        method: Method,
        headers: Vec<(String, String)>,
        path: String,
        query: QueryMap,
        body: Vec<u8>,
    ) -> (r: Request)
        ensures
            r.method == method,
            r.headers == headers,
            r.path == path,
            r.query == query,
            r.body == body,
    {
        Request { method, headers, path, query, body }
    }
}

} // verus!
