//! An in-process request router for single-shot webhook invocations.
//!
//! A route table is built once, before any request arrives, from path
//! patterns such as `/users/:id` together with `(method set, handler)`
//! bindings.  For each incoming request, the dispatcher looks the request
//! path up in the table, merges the captured path parameters into the
//! request's query map (path parameters overwrite same-named query keys),
//! picks the first binding whose method set contains the request's method,
//! and runs that one handler exactly once.  A path with no matching pattern
//! and a matched path whose method no binding accepts are reported as the
//! two distinct failures `NotFound` and `MethodNotAllowed`.

pub mod dispatch;
pub mod laws;
pub mod method;
pub mod pattern;
pub mod query;
pub mod request;
pub mod table;

pub use dispatch::delete;
pub use dispatch::dispatch;
pub use dispatch::get;
pub use dispatch::head;
pub use dispatch::options;
pub use dispatch::patch;
pub use dispatch::post;
pub use dispatch::put;
pub use dispatch::resolve;
pub use dispatch::trace;
pub use dispatch::Handler;
pub use dispatch::RouteError;
pub use method::Method;
pub use method::MethodSet;
pub use method::ParseError;
pub use query::merge_params;
pub use query::QueryMap;
pub use request::Request;
pub use table::LookupError;
pub use table::RegisterError;
pub use table::RouteTable;
