//! The router's laws, stated over the models that the executable
//! functions' contracts are written in and proved once for all tables and
//! requests.

use vstd::prelude::*;

use crate::dispatch::lemma_select_characterization;
use crate::dispatch::spec_route;
use crate::dispatch::RouteError;
use crate::method::Method;
use crate::pattern::lemma_captures_contains;
use crate::pattern::lemma_captures_static;
use crate::pattern::lemma_same_shape_match_conflicts;
use crate::pattern::lemma_static_most_specific;
use crate::pattern::more_specific;
use crate::pattern::pattern_matches;
use crate::pattern::same_shape;
use crate::pattern::seg_text;
use crate::pattern::spec_split;
use crate::pattern::SegView;
use crate::query::spec_merge;
use crate::table::lemma_best_is_match;
use crate::table::lemma_best_unique_winner;
use crate::table::spec_best;
use crate::table::spec_lookup;
use crate::table::table_wf;
use crate::table::RouteModel;

verus! {

/// A pattern with no parameter segments.
pub open spec fn all_literal(p: Seq<SegView>) -> bool {
    forall|k: int| 0 <= k < p.len() ==> !((#[trigger] p[k]) is Param)
}

/// A registered all-literal pattern resolves its exact literal path to
/// itself, with no captured parameters.
pub proof fn lemma_lookup_static_exact(t: Seq<RouteModel>, path: Seq<char>, i: int)
    requires
        table_wf(t),
        0 <= i < t.len(),
        all_literal(t[i].pattern),
        pattern_matches(t[i].pattern, spec_split(path)),
    ensures
        spec_lookup(t, path) == Some((i, Seq::<(Seq<char>, Seq<char>)>::empty())),
{
    let segs = spec_split(path);
    assert forall|j: int|
        0 <= j < t.len() && j != i && pattern_matches(
            (#[trigger] t[j]).pattern,
            segs,
        ) implies more_specific(t[i].pattern, t[j].pattern) by {
        if same_shape(t[i].pattern, t[j].pattern) {
            lemma_same_shape_match_conflicts(t[i].pattern, t[j].pattern, segs);
        } else {
            lemma_static_most_specific(t[i].pattern, t[j].pattern);
        }
    }
    lemma_best_unique_winner(t, segs, i);
    lemma_captures_static(t[i].pattern, segs);
}

/// The resolved pattern's captures hold the path segment standing at each
/// of its parameter positions, under the parameter's declared name.
pub proof fn lemma_lookup_param_capture(t: Seq<RouteModel>, path: Seq<char>, i: int, j: int)
    requires
        spec_best(t, spec_split(path)) == Some(i),
        0 <= j < t[i].pattern.len(),
        t[i].pattern[j] is Param,
    ensures
        spec_lookup(t, path) matches Some((i2, params)) && i2 == i && params.contains(
            (seg_text(t[i].pattern[j]), spec_split(path)[j]),
        ),
{
    lemma_best_is_match(t, spec_split(path));
    lemma_captures_contains(t[i].pattern, spec_split(path), j);
}

/// Overwrite law: after the merge, a key named by a captured path
/// parameter holds that parameter's value (the last one of that name),
/// whatever the query held before.
pub proof fn lemma_merge_param_overwrites(
    q: Map<Seq<char>, Seq<char>>,
    params: Seq<(Seq<char>, Seq<char>)>,
    i: int,
)
    requires
        0 <= i < params.len(),
        forall|j: int| i < j < params.len() ==> (#[trigger] params[j]).0 != (params[i]).0,
    ensures
        spec_merge(q, params).contains_key((params[i]).0),
        spec_merge(q, params)[(params[i]).0] == (params[i]).1,
    decreases params.len(),
{
    if i == params.len() - 1 {
    } else {
        assert(params.drop_last()[i] == params[i]);
        assert forall|j: int|
            i < j < params.drop_last().len() implies (#[trigger] params.drop_last()[j]).0 != (
        params.drop_last()[i]).0 by {
            assert(params.drop_last()[j] == params[j]);
        }
        lemma_merge_param_overwrites(q, params.drop_last(), i);
        assert((params.last()).0 != (params[i]).0);
    }
}

/// A key no captured parameter names keeps its query binding through the
/// merge.
pub proof fn lemma_merge_preserves_query(
    q: Map<Seq<char>, Seq<char>>,
    params: Seq<(Seq<char>, Seq<char>)>,
    k: Seq<char>,
)
    requires
        forall|j: int| 0 <= j < params.len() ==> (#[trigger] params[j]).0 != k,
    ensures
        spec_merge(q, params).contains_key(k) == q.contains_key(k),
        q.contains_key(k) ==> spec_merge(q, params)[k] == q[k],
    decreases params.len(),
{
    if params.len() == 0 {
    } else {
        assert(forall|j: int| 0 <= j < params.len() - 1 ==> #[trigger] params.drop_last()[j]
            == params[j]);
        lemma_merge_preserves_query(q, params.drop_last(), k);
        assert((params.last()).0 != k);
    }
}

/// A path that no registered pattern accepts — and only such a path —
/// resolves to nothing, however many routes the table holds.
pub proof fn lemma_lookup_not_found(t: Seq<RouteModel>, path: Seq<char>)
    ensures
        spec_lookup(t, path) is None <==> forall|j: int|
            0 <= j < t.len() ==> !pattern_matches((#[trigger] t[j]).pattern, spec_split(path)),
{
    lemma_best_is_match(t, spec_split(path));
}

/// A matched path whose method no binding of the resolved route accepts is
/// `MethodNotAllowed` — distinct from `NotFound`.
pub proof fn lemma_method_not_allowed(t: Seq<RouteModel>, m: Method, path: Seq<char>, i: int)
    requires
        spec_best(t, spec_split(path)) == Some(i),
        forall|k: int|
            0 <= k < t[i].methods.len() ==> !((#[trigger] t[i].methods[k]).contains(m)),
    ensures
        spec_route(t, m, path) == Err::<(int, int), RouteError>(RouteError::MethodNotAllowed),
{
    lemma_best_is_match(t, spec_split(path));
    lemma_select_characterization(t[i].methods, m);
}

/// At most one handler runs per dispatch: a dispatched request names one
/// route and one binding — the first of the route whose method set holds
/// the request's method — and every earlier binding rejects the method.
pub proof fn lemma_at_most_one_handler(t: Seq<RouteModel>, m: Method, path: Seq<char>, i: int, j: int)
    requires
        spec_route(t, m, path) == Ok::<(int, int), RouteError>((i, j)),
    ensures
        spec_best(t, spec_split(path)) == Some(i),
        0 <= i < t.len(),
        0 <= j < t[i].methods.len(),
        t[i].methods[j].contains(m),
        forall|k: int| 0 <= k < j ==> !(#[trigger] t[i].methods[k]).contains(m),
{
    lemma_best_is_match(t, spec_split(path));
    let i0 = spec_best(t, spec_split(path))->0;
    lemma_select_characterization(t[i0].methods, m);
}

/// Determinism: `lookup` leaves the table untouched and its result is
/// pinned to a function of the table's model and the path, so two lookups
/// of the same path in an unchanged table agree.
pub proof fn lemma_lookup_deterministic(
    t: Seq<RouteModel>,
    path: Seq<char>,
    r1: Option<(int, Seq<(Seq<char>, Seq<char>)>)>,
    r2: Option<(int, Seq<(Seq<char>, Seq<char>)>)>,
)
    requires
        r1 == spec_lookup(t, path),
        r2 == spec_lookup(t, path),
    ensures
        r1 == r2,
{
}

} // verus!
