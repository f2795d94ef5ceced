//! The dispatcher: resolves a request to the first binding whose method set
//! holds the request's method, merges captured path parameters into the
//! query, and runs that one handler exactly once.

use vstd::prelude::*;

use crate::method::Method;
use crate::method::MethodSet;
use crate::pattern::spec_split;
use crate::query::merge_params;
use crate::query::QueryMap;
use crate::request::Request;
use crate::table::binding_methods;
use crate::table::lemma_best_is_match;
use crate::table::lemma_table_fields;
use crate::table::spec_best;
use crate::table::RouteModel;
use crate::table::RouteTable;

verus! {

/// Why a request could not be dispatched: no registered pattern accepts its
/// path, or one does but no binding's method set holds its method.  Callers
/// translate the two into distinct responses (conventionally 404 and 405).
#[derive(Clone, Copy, PartialEq, Eq, Structural, Debug)]
pub enum RouteError {
    NotFound,
    MethodNotAllowed,
}

/// One request handler.  The dispatcher hands it the header list, the query
/// map with the captured path parameters merged in, and the raw body; any
/// response the handler produces goes to `sink`.
pub trait Handler<S> {
    fn handle(
        &self,
        headers: &Vec<(String, String)>,
        query: &QueryMap,
        body: &Vec<u8>,
        sink: &mut S,
    );
}

/// The binding the dispatcher selects for a method: the first, in binding
/// order, whose method set holds it.
pub open spec fn spec_select(msets: Seq<Set<Method>>, m: Method) -> Option<int>
    decreases msets.len(),
{
    if msets.len() == 0 {
        None
    } else if msets[0].contains(m) {
        Some(0)
    } else {
        match spec_select(msets.drop_first(), m) {
            Some(j) => Some(j + 1),
            None => None,
        }
    }
}

/// The selected binding is the first whose method set holds the method;
/// when none is selected, no binding's method set holds it.  In particular
/// at most one binding is ever selected for a request.
pub proof fn lemma_select_characterization(msets: Seq<Set<Method>>, m: Method)
    ensures
        match spec_select(msets, m) {
            Some(j) => 0 <= j < msets.len() && msets[j].contains(m) && forall|k: int|
                0 <= k < j ==> !(#[trigger] msets[k]).contains(m),
            None => forall|k: int| 0 <= k < msets.len() ==> !(#[trigger] msets[k]).contains(m),
        },
    decreases msets.len(),
{
    if msets.len() == 0 {
    } else if msets[0].contains(m) {
    } else {
        lemma_select_characterization(msets.drop_first(), m);
        assert(forall|k: int| 0 <= k < msets.len() - 1 ==> #[trigger] msets.drop_first()[k]
            == msets[k + 1]);
        match spec_select(msets.drop_first(), m) {
            Some(j) => {
                assert(msets.drop_first()[j] == msets[j + 1]);
                assert forall|k: int| 0 <= k < j + 1 implies !(#[trigger] msets[k]).contains(m) by {
                    if k > 0 {
                        assert(!msets.drop_first()[k - 1].contains(m));
                    }
                }
            },
            None => {
                assert forall|k: int| 0 <= k < msets.len() implies !(#[trigger] msets[k]).contains(
                    m,
                ) by {
                    if k > 0 {
                        assert(!msets.drop_first()[k - 1].contains(m));
                    }
                }
            },
        }
    }
}

/// A binding whose method set holds the method, coming after none that
/// does, is the selected one.
pub proof fn lemma_select_first(msets: Seq<Set<Method>>, m: Method, j: int)
    requires
        0 <= j < msets.len(),
        msets[j].contains(m),
        forall|k: int| 0 <= k < j ==> !(#[trigger] msets[k]).contains(m),
    ensures
        spec_select(msets, m) == Some(j),
    decreases msets.len(),
{
    if j == 0 {
    } else {
        assert(!msets[0].contains(m));
        assert(forall|k: int| 0 <= k < msets.len() - 1 ==> #[trigger] msets.drop_first()[k]
            == msets[k + 1]);
        assert forall|k: int| 0 <= k < j - 1 implies !(#[trigger] msets.drop_first()[k]).contains(
            m,
        ) by {
            assert(!msets[k + 1].contains(m));
        }
        lemma_select_first(msets.drop_first(), m, j - 1);
    }
}

/// The routing decision a request gets: the resolved route and selected
/// binding, or the failure that rules both out.
pub open spec fn spec_route(t: Seq<RouteModel>, m: Method, path: Seq<char>) -> Result<
    (int, int),
    RouteError,
> {
    match spec_best(t, spec_split(path)) {
        None => Err(RouteError::NotFound),
        Some(i) => match spec_select(t[i].methods, m) {
            None => Err(RouteError::MethodNotAllowed),
            Some(j) => Ok((i, j)),
        },
    }
}

/// Resolves a request to the route and binding `dispatch` would run,
/// without running anything.
pub fn resolve<H>(table: &RouteTable<H>, method: Method, path: &str) -> (r: Result<
    (usize, usize),
    RouteError,
>)
    ensures
        ({
            let s = spec_route(table@, method, path@);
            match r {
                Ok((i, j)) => s == Ok::<(int, int), RouteError>((i as int, j as int)),
                Err(e) => s == Err::<(int, int), RouteError>(e),
            }
        }),
{
    proof {
        lemma_table_fields(table);
    }
    match table.lookup(path) {
        Err(_) => Err(RouteError::NotFound),
        Ok((i, _params)) => {
            proof {
                lemma_best_is_match(table@, spec_split(path@));
            }
            let bs = &table.routes[i].bindings;
            let ghost msets = table@[i as int].methods;
            let n = bs.len();
            let mut j: usize = 0;
            while j < n
                invariant
                    n == bs@.len(),
                    msets == binding_methods(bs@),
                    i < table@.len(),
                    spec_best(table@, spec_split(path@)) == Some(i as int),
                    msets == table@[i as int].methods,
                    j <= n,
                    forall|k: int| 0 <= k < j ==> !(#[trigger] msets[k]).contains(method),
                decreases n - j,
            {
                if bs[j].0.contains(method) {
                    proof {
                        assert(msets[j as int] == bs@[j as int].0@);
                        lemma_select_first(msets, method, j as int);
                    }
                    return Ok((i, j));
                }
                assert(msets[j as int] == bs@[j as int].0@);
                j += 1;
            }
            proof {
                lemma_select_characterization(msets, method);
            }
            Err(RouteError::MethodNotAllowed)
        },
    }
}

/// Dispatches one request: looks its path up, merges the captured path
/// parameters into its query (parameters overwrite same-named keys), and
/// runs the handler of the first binding whose method set holds the
/// request's method — that one handler, exactly once.  `NotFound` and
/// `MethodNotAllowed` report the two distinct failures; no response is
/// written for either.  The request is consumed: nothing of it outlives
/// the call.
pub fn dispatch<S, H: Handler<S>>(table: &RouteTable<H>, request: Request, sink: &mut S) -> (r:
    Result<(), RouteError>)
    requires
        request.query.wf(),
    ensures
        ({
            let s = spec_route(table@, request.method, request.path@);
            match r {
                Ok(()) => s is Ok,
                Err(e) => s == Err::<(int, int), RouteError>(e),
            }
        }),
{
    let Request { method, headers, path, query, body } = request;
    let path = path.as_str();
    proof {
        lemma_table_fields(table);
    }
    match table.lookup(path) {
        Err(_) => Err(RouteError::NotFound),
        Ok((i, params)) => {
            proof {
                lemma_best_is_match(table@, spec_split(path@));
            }
            let merged = merge_params(query, &params);
            let bs = &table.routes[i].bindings;
            let ghost msets = table@[i as int].methods;
            let n = bs.len();
            let mut j: usize = 0;
            while j < n
                invariant
                    n == bs@.len(),
                    msets == binding_methods(bs@),
                    i < table@.len(),
                    path@ == request.path@,
                    method == request.method,
                    spec_best(table@, spec_split(path@)) == Some(i as int),
                    msets == table@[i as int].methods,
                    j <= n,
                    forall|k: int| 0 <= k < j ==> !(#[trigger] msets[k]).contains(method),
                decreases n - j,
            {
                if bs[j].0.contains(method) {
                    proof {
                        assert(msets[j as int] == bs@[j as int].0@);
                        lemma_select_first(msets, method, j as int);
                    }
                    bs[j].1.handle(&headers, &merged, &body, sink);
                    return Ok(());
                }
                assert(msets[j as int] == bs@[j as int].0@);
                j += 1;
            }
            proof {
                lemma_select_characterization(msets, method);
            }
            Err(RouteError::MethodNotAllowed)
        },
    }
}

/// Binds a handler to the GET method.
pub fn get<H>(handler: H) -> (r: (MethodSet, H))
    ensures
        r.0@ == set![Method::Get],
        r.1 == handler,
{
    (MethodSet::single(Method::Get), handler)
}

/// Binds a handler to the HEAD method.
pub fn head<H>(handler: H) -> (r: (MethodSet, H))
    ensures
        r.0@ == set![Method::Head],
        r.1 == handler,
{
    (MethodSet::single(Method::Head), handler)
}

/// Binds a handler to the POST method.
pub fn post<H>(handler: H) -> (r: (MethodSet, H))
    ensures
        r.0@ == set![Method::Post],
        r.1 == handler,
{
    (MethodSet::single(Method::Post), handler)
}

/// Binds a handler to the PUT method.
pub fn put<H>(handler: H) -> (r: (MethodSet, H))
    ensures
        r.0@ == set![Method::Put],
        r.1 == handler,
{
    (MethodSet::single(Method::Put), handler)
}

/// Binds a handler to the DELETE method.
pub fn delete<H>(handler: H) -> (r: (MethodSet, H))
    ensures
        r.0@ == set![Method::Delete],
        r.1 == handler,
{
    (MethodSet::single(Method::Delete), handler)
}

/// Binds a handler to the OPTIONS method.
pub fn options<H>(handler: H) -> (r: (MethodSet, H))
    ensures
        r.0@ == set![Method::Options],
        r.1 == handler,
{
    (MethodSet::single(Method::Options), handler)
}

/// Binds a handler to the TRACE method.
pub fn trace<H>(handler: H) -> (r: (MethodSet, H))
    ensures
        r.0@ == set![Method::Trace],
        r.1 == handler,
{
    (MethodSet::single(Method::Trace), handler)
}

/// Binds a handler to the PATCH method.
pub fn patch<H>(handler: H) -> (r: (MethodSet, H))
    ensures
        r.0@ == set![Method::Patch],
        r.1 == handler,
{
    (MethodSet::single(Method::Patch), handler)
}

} // verus!
