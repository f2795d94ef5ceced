//! The route table: registered patterns with their method-set/handler
//! bindings, the registration conflict check, and most-specific-match
//! lookup.

use vstd::prelude::*;

use crate::method::Method;
use crate::method::MethodSet;
use crate::pattern::capture_params;
use crate::pattern::conflicts;
use crate::pattern::conflicts_exec;
use crate::pattern::lemma_conflicts_symmetric;
use crate::pattern::lemma_more_specific_asymmetric;
use crate::pattern::more_specific;
use crate::pattern::more_specific_exec;
use crate::pattern::parse_pattern;
use crate::pattern::pattern_matches;
use crate::pattern::pattern_matches_exec;
use crate::pattern::spec_captures;
use crate::pattern::spec_parse_pattern;
use crate::pattern::spec_split;
use crate::pattern::split_path;
use crate::pattern::Segment;
use crate::pattern::SegView;

verus! {

/// Raised by `register` when the new pattern is ambiguous with a registered
/// one.
#[derive(Clone, Copy, PartialEq, Eq, Structural, Debug)]
pub enum RegisterError {
    Conflict,
}

/// Raised by `lookup` when no registered pattern accepts the path.
#[derive(Clone, Copy, PartialEq, Eq, Structural, Debug)]
pub enum LookupError {
    NotFound,
}

/// The mathematical content of one registered route: its pattern and the
/// method set of each of its bindings, in binding order.
pub struct RouteModel {
    pub pattern: Seq<SegView>,
    pub methods: Seq<Set<Method>>,
}

/// The method set of each binding, in order.
pub open spec fn binding_methods<H>(bs: Seq<(MethodSet, H)>) -> Seq<Set<Method>> {
    bs.map_values(|b: (MethodSet, H)| b.0@)
}

/// One registered route: a parsed pattern and its ordered bindings.
pub struct Route<H> {
    pub(crate) pattern: Vec<Segment>,
    pub(crate) bindings: Vec<(MethodSet, H)>,
}

impl<H> View for Route<H> {
    type V = RouteModel;

    closed spec fn view(&self) -> RouteModel {
        RouteModel { pattern: self.pattern.deep_view(), methods: binding_methods(self.bindings@) }
    }
}

/// The route table: patterns registered before the first request, immutable
/// afterwards.
pub struct RouteTable<H> {
    pub(crate) routes: Vec<Route<H>>,
}

impl<H> View for RouteTable<H> {
    type V = Seq<RouteModel>;

    closed spec fn view(&self) -> Seq<RouteModel> {
        self.routes@.map_values(|r: Route<H>| r@)
    }
}

/// No two registered patterns are ambiguous with one another.
pub open spec fn table_wf(t: Seq<RouteModel>) -> bool {
    forall|i: int, j: int|
        0 <= i < t.len() && 0 <= j < t.len() && i != j ==> !conflicts(
            (#[trigger] t[i]).pattern,
            (#[trigger] t[j]).pattern,
        )
}

/// The registered route the split path resolves to: among the patterns that
/// accept the path, the strictly most specific one, and the earliest
/// registered where neither is more specific than the other.
pub open spec fn spec_best(t: Seq<RouteModel>, segs: Seq<Seq<char>>) -> Option<int>
    decreases t.len(),
{
    if t.len() == 0 {
        None
    } else {
        let prev = spec_best(t.drop_last(), segs);
        let i = t.len() - 1;
        if pattern_matches(t[i].pattern, segs) {
            match prev {
                None => Some(i),
                Some(j) => if more_specific(t[i].pattern, t[j].pattern) {
                    Some(i)
                } else {
                    Some(j)
                },
            }
        } else {
            prev
        }
    }
}

/// What `lookup` returns on a path: the resolved route's index and its
/// captured parameters, or nothing.
pub open spec fn spec_lookup(t: Seq<RouteModel>, path: Seq<char>) -> Option<
    (int, Seq<(Seq<char>, Seq<char>)>),
> {
    match spec_best(t, spec_split(path)) {
        Some(i) => Some((i, spec_captures(t[i].pattern, spec_split(path)))),
        None => None,
    }
}

/// The resolved route accepts the path; when none is resolved, none
/// accepts it.
pub proof fn lemma_best_is_match(t: Seq<RouteModel>, segs: Seq<Seq<char>>)
    ensures
        match spec_best(t, segs) {
            Some(i) => 0 <= i < t.len() && pattern_matches(t[i].pattern, segs),
            None => forall|j: int|
                0 <= j < t.len() ==> !pattern_matches((#[trigger] t[j]).pattern, segs),
        },
    decreases t.len(),
{
    if t.len() == 0 {
    } else {
        lemma_best_is_match(t.drop_last(), segs);
        assert(forall|j: int| 0 <= j < t.len() - 1 ==> #[trigger] t.drop_last()[j] == t[j]);
        if spec_best(t.drop_last(), segs) is None && !pattern_matches(
            t[t.len() - 1].pattern,
            segs,
        ) {
            assert forall|j: int| 0 <= j < t.len() implies !pattern_matches(
                (#[trigger] t[j]).pattern,
                segs,
            ) by {
                if j < t.len() - 1 {
                    assert(!pattern_matches((t.drop_last()[j]).pattern, segs));
                }
            }
        }
    }
}

/// A registered pattern that accepts the path and is strictly more specific
/// than every other accepting pattern is the one resolved.
pub proof fn lemma_best_unique_winner(t: Seq<RouteModel>, segs: Seq<Seq<char>>, i: int)
    requires
        0 <= i < t.len(),
        pattern_matches(t[i].pattern, segs),
        forall|j: int|
            0 <= j < t.len() && j != i && pattern_matches((#[trigger] t[j]).pattern, segs)
                ==> more_specific(t[i].pattern, t[j].pattern),
    ensures
        spec_best(t, segs) == Some(i),
    decreases t.len(),
{
    let l = t.len() - 1;
    assert(forall|j: int| 0 <= j < t.len() - 1 ==> #[trigger] t.drop_last()[j] == t[j]);
    if i == l {
        lemma_best_is_match(t.drop_last(), segs);
        match spec_best(t.drop_last(), segs) {
            None => {},
            Some(j) => {
                assert(pattern_matches(t[j].pattern, segs));
                assert(more_specific(t[i].pattern, t[j].pattern));
            },
        }
    } else {
        lemma_best_unique_winner(t.drop_last(), segs, i);
        if pattern_matches(t[l].pattern, segs) {
            assert(more_specific(t[i].pattern, t[l].pattern));
            lemma_more_specific_asymmetric(t[i].pattern, t[l].pattern);
        }
    }
}

/// Bridges the table's model to its representation.
pub(crate) proof fn lemma_table_fields<H>(t: &RouteTable<H>)
    ensures
        t@.len() == t.routes@.len(),
        forall|i: int|
            0 <= i < t@.len() ==> (#[trigger] t@[i]).pattern == t.routes@[i].pattern.deep_view()
                && t@[i].methods == binding_methods(t.routes@[i].bindings@),
{
}

impl<H> RouteTable<H> {
    /// No two registered patterns are ambiguous with one another; `new`
    /// establishes this and `register` preserves it.
    pub open spec fn wf(&self) -> bool {
        table_wf(self@)
    }

    /// An empty table.
    pub fn new() -> (r: RouteTable<H>)
        ensures
            r@ == Seq::<RouteModel>::empty(),
            r.wf(),
    {
        let r = RouteTable { routes: Vec::new() };
        proof {
            assert(r@ =~= Seq::<RouteModel>::empty());
        }
        r
    }

    /// Registers `pattern` with its bindings.  The pattern is rejected, and
    /// the table left unchanged, exactly when it is ambiguous with an
    /// already registered pattern: the two put differently named parameters
    /// at the same position after a common prefix, or are the same pattern
    /// shape twice.
    pub fn register(&mut self, pattern: &str, bindings: Vec<(MethodSet, H)>) -> (r: Result<
        (),
        RegisterError,
    >)
        ensures
            match r {
                Ok(()) => {
                    &&& final(self)@ == old(self)@.push(
                        RouteModel {
                            pattern: spec_parse_pattern(pattern@),
                            methods: binding_methods(bindings@),
                        },
                    )
                    &&& forall|j: int|
                        0 <= j < old(self)@.len() ==> !conflicts(
                            spec_parse_pattern(pattern@),
                            (#[trigger] old(self)@[j]).pattern,
                        )
                },
                Err(e) => {
                    &&& e == RegisterError::Conflict
                    &&& final(self)@ == old(self)@
                    &&& exists|j: int|
                        0 <= j < old(self)@.len() && conflicts(
                            spec_parse_pattern(pattern@),
                            (#[trigger] old(self)@[j]).pattern,
                        )
                },
            },
            old(self).wf() && r is Ok ==> final(self).wf(),
    {
        let segs = parse_pattern(pattern);
        let n = self.routes.len();
        let mut i: usize = 0;
        while i < n
            invariant
                n == self.routes@.len(),
                self@.len() == n,
                i <= n,
                segs.deep_view() == spec_parse_pattern(pattern@),
                forall|j: int|
                    0 <= j < i ==> !conflicts(
                        spec_parse_pattern(pattern@),
                        (#[trigger] self@[j]).pattern,
                    ),
            decreases n - i,
        {
            if conflicts_exec(&segs, &self.routes[i].pattern) {
                assert(conflicts(spec_parse_pattern(pattern@), self@[i as int].pattern));
                return Err(RegisterError::Conflict);
            }
            assert(!conflicts(spec_parse_pattern(pattern@), self@[i as int].pattern));
            i += 1;
        }
        let ghost t0 = self@;
        self.routes.push(Route { pattern: segs, bindings });
        proof {
            let m = RouteModel {
                pattern: spec_parse_pattern(pattern@),
                methods: binding_methods(bindings@),
            };
            assert(self@ =~= t0.push(m));
            if table_wf(t0) {
                assert forall|a: int, b: int|
                    0 <= a < self@.len() && 0 <= b < self@.len() && a != b implies !conflicts(
                    (#[trigger] self@[a]).pattern,
                    (#[trigger] self@[b]).pattern,
                ) by {
                    if a < t0.len() && b < t0.len() {
                        assert(!conflicts(t0[a].pattern, t0[b].pattern));
                    } else if b == t0.len() {
                        lemma_conflicts_symmetric(t0[a].pattern, m.pattern);
                    }
                }
            }
        }
        Ok(())
    }

    /// Looks a path up: resolves it to the most specific accepting pattern
    /// and that pattern's captured parameters, or reports that no pattern
    /// accepts it.  The table is untouched, so equal paths resolve equally.
    pub fn lookup(&self, path: &str) -> (r: Result<(usize, Vec<(String, String)>), LookupError>)
        ensures
            match r {
                Ok((i, params)) => spec_lookup(self@, path@) == Some(
                    (i as int, params.deep_view()),
                ),
                Err(e) => e == LookupError::NotFound && spec_lookup(self@, path@) is None,
            },
    {
        let segs = split_path(path);
        let n = self.routes.len();
        let mut best: Option<usize> = None;
        let mut i: usize = 0;
        proof {
            assert(self@.take(0) =~= Seq::<RouteModel>::empty());
        }
        while i < n
            invariant
                n == self.routes@.len(),
                self@.len() == n,
                i <= n,
                segs.deep_view() == spec_split(path@),
                match best {
                    Some(b) => b < i && spec_best(self@.take(i as int), segs.deep_view()) == Some(
                        b as int,
                    ),
                    None => spec_best(self@.take(i as int), segs.deep_view()) is None,
                },
            decreases n - i,
        {
            proof {
                assert(self@.take(i as int + 1).drop_last() =~= self@.take(i as int));
                assert(self@.take(i as int + 1).last() == self@[i as int]);
            }
            if pattern_matches_exec(&self.routes[i].pattern, &segs) {
                assert(pattern_matches(self@[i as int].pattern, segs.deep_view()));
                match best {
                    None => {
                        best = Some(i);
                    },
                    Some(b) => {
                        if more_specific_exec(&self.routes[i].pattern, &self.routes[b].pattern) {
                            best = Some(i);
                        }
                    },
                }
            } else {
                assert(!pattern_matches(self@[i as int].pattern, segs.deep_view()));
            }
            i += 1;
        }
        proof {
            assert(self@.take(n as int) =~= self@);
        }
        match best {
            Some(b) => {
                proof {
                    lemma_best_is_match(self@, segs.deep_view());
                }
                let params = capture_params(&self.routes[b].pattern, &segs);
                Ok((b, params))
            },
            None => Err(LookupError::NotFound),
        }
    }
}

} // verus!
