//! Path patterns: splitting a path into slash-separated segments, literal
//! and named-parameter segments, matching, parameter capture, specificity,
//! and the registration conflict rule.

use vstd::prelude::*;

verus! {

/// One segment of a registered pattern: a literal string, or a named
/// parameter (written `:name` in the pattern text) that captures whatever
/// path segment stands at its position.
#[derive(Debug)]
pub enum Segment {
    Literal(String),
    Param(String),
}

/// The mathematical shape of a `Segment`.
pub enum SegView {
    Literal(Seq<char>),
    Param(Seq<char>),
}

impl View for Segment {
    type V = SegView;

    open spec fn view(&self) -> SegView {
        match self {
            Segment::Literal(s) => SegView::Literal(s@),
            Segment::Param(s) => SegView::Param(s@),
        }
    }
}

impl DeepView for Segment {
    type V = SegView;

    open spec fn deep_view(&self) -> SegView {
        self.view()
    }
}

/// The text carried by a segment: the literal string, or the parameter name.
pub open spec fn seg_text(s: SegView) -> Seq<char> {
    match s {
        SegView::Literal(l) => l,
        SegView::Param(n) => n,
    }
}

/// Splitting a string at every `/`, keeping empty segments.
pub open spec fn spec_split(s: Seq<char>) -> Seq<Seq<char>>
    decreases s.len(),
{
    if s.len() == 0 {
        seq![Seq::<char>::empty()]
    } else if s[0] == '/' {
        seq![Seq::<char>::empty()] + spec_split(s.drop_first())
    } else {
        let rest = spec_split(s.drop_first());
        seq![seq![s[0]] + rest[0]] + rest.drop_first()
    }
}

pub proof fn lemma_split_len(s: Seq<char>)
    ensures
        spec_split(s).len() >= 1,
    decreases s.len(),
{
    if s.len() == 0 {
    } else {
        lemma_split_len(s.drop_first());
    }
}

/// Whether `s` contains no separator.
pub open spec fn no_slash(s: Seq<char>) -> bool {
    forall|i: int| 0 <= i < s.len() ==> s[i] != '/'
}

/// A separator-free string splits into itself alone.
pub proof fn lemma_split_no_slash(s: Seq<char>)
    requires
        no_slash(s),
    ensures
        spec_split(s) == seq![s],
    decreases s.len(),
{
    if s.len() == 0 {
        assert(s =~= Seq::<char>::empty());
    } else {
        assert(s.drop_first().len() < s.len());
        assert(no_slash(s.drop_first()));
        lemma_split_no_slash(s.drop_first());
        let rest = spec_split(s.drop_first());
        assert(rest == seq![s.drop_first()]);
        assert(seq![s[0]] + rest[0] =~= s);
        assert(rest.drop_first() =~= Seq::<Seq<char>>::empty());
        assert(spec_split(s) =~= seq![s]);
    }
}

/// Splitting distributes over the first separator after a separator-free
/// prefix.
pub proof fn lemma_split_append(s: Seq<char>, t: Seq<char>)
    requires
        no_slash(s),
    ensures
        spec_split(s + seq!['/'] + t) == seq![s] + spec_split(t),
    decreases s.len(),
{
    let u = s + seq!['/'] + t;
    if s.len() == 0 {
        assert(s =~= Seq::<char>::empty());
        assert(u =~= seq!['/'] + t);
        assert(u[0] == '/');
        assert(u.drop_first() =~= t);
        assert(spec_split(u) =~= seq![s] + spec_split(t));
    } else {
        assert(u[0] == s[0]);
        assert(u[0] != '/');
        assert(u.drop_first() =~= s.drop_first() + seq!['/'] + t);
        assert(no_slash(s.drop_first()));
        lemma_split_append(s.drop_first(), t);
        let rest = spec_split(u.drop_first());
        assert(rest == seq![s.drop_first()] + spec_split(t));
        lemma_split_len(t);
        assert(rest[0] == s.drop_first());
        assert(seq![u[0]] + rest[0] =~= s);
        assert(rest.drop_first() =~= spec_split(t));
        assert(spec_split(u) =~= seq![s] + spec_split(t));
    }
}

/// How one raw segment of a pattern is read: a leading `:` makes it a named
/// parameter, anything else a literal.
pub open spec fn spec_classify(s: Seq<char>) -> SegView {
    if s.len() > 0 && s[0] == ':' {
        SegView::Param(s.drop_first())
    } else {
        SegView::Literal(s)
    }
}

/// The segments a pattern string denotes.
pub open spec fn spec_parse_pattern(s: Seq<char>) -> Seq<SegView> {
    spec_split(s).map_values(|t: Seq<char>| spec_classify(t))
}

/// Whether one pattern segment accepts one path segment: a literal accepts
/// exactly itself, a parameter accepts anything.
pub open spec fn seg_matches(seg: SegView, s: Seq<char>) -> bool {
    match seg {
        SegView::Literal(l) => l == s,
        SegView::Param(_) => true,
    }
}

/// Whether a pattern accepts a split path: same segment count, and every
/// pattern segment accepts the path segment at its position.
pub open spec fn pattern_matches(p: Seq<SegView>, segs: Seq<Seq<char>>) -> bool {
    &&& p.len() == segs.len()
    &&& forall|i: int| 0 <= i < p.len() ==> seg_matches(#[trigger] p[i], segs[i])
}

/// The `(name, value)` pairs a pattern extracts from a matching path, one
/// per parameter segment, in left-to-right segment order.
pub open spec fn spec_captures(p: Seq<SegView>, segs: Seq<Seq<char>>) -> Seq<(Seq<char>, Seq<char>)>
    decreases p.len(),
{
    if p.len() == 0 || segs.len() == 0 {
        Seq::empty()
    } else {
        let rest = spec_captures(p.drop_last(), segs.drop_last());
        match p.last() {
            SegView::Param(n) => rest.push((n, segs.last())),
            SegView::Literal(_) => rest,
        }
    }
}

/// An all-literal pattern captures nothing.
pub proof fn lemma_captures_static(p: Seq<SegView>, segs: Seq<Seq<char>>)
    requires
        forall|k: int| 0 <= k < p.len() ==> !(#[trigger] p[k] is Param),
    ensures
        spec_captures(p, segs) == Seq::<(Seq<char>, Seq<char>)>::empty(),
    decreases p.len(),
{
    if p.len() == 0 || segs.len() == 0 {
    } else {
        assert(forall|k: int| 0 <= k < p.drop_last().len() ==> !(#[trigger] p.drop_last()[k]
            is Param));
        lemma_captures_static(p.drop_last(), segs.drop_last());
        assert(!(p.last() is Param));
    }
}

/// Each parameter segment of a matching pattern contributes its captured
/// path segment under its declared name.
pub proof fn lemma_captures_contains(p: Seq<SegView>, segs: Seq<Seq<char>>, j: int)
    requires
        p.len() == segs.len(),
        0 <= j < p.len(),
        p[j] is Param,
    ensures
        spec_captures(p, segs).contains((seg_text(p[j]), segs[j])),
    decreases p.len(),
{
    let caps = spec_captures(p, segs);
    if j == p.len() - 1 {
        let rest = spec_captures(p.drop_last(), segs.drop_last());
        assert(caps == rest.push((seg_text(p[j]), segs[j])));
        assert(caps[rest.len() as int] == (seg_text(p[j]), segs[j]));
    } else {
        lemma_captures_contains(p.drop_last(), segs.drop_last(), j);
        let rest = spec_captures(p.drop_last(), segs.drop_last());
        let pair = (seg_text(p.drop_last()[j]), segs.drop_last()[j]);
        let k = choose|k: int| 0 <= k < rest.len() && rest[k] == pair;
        match p.last() {
            SegView::Param(n) => {
                assert(caps == rest.push((n, segs.last())));
                assert(caps[k] == pair);
            },
            SegView::Literal(_) => {
                assert(caps == rest);
            },
        }
        assert(caps.contains(pair));
    }
}

/// Whether two pattern segments are the same trie node: equal literals, or
/// parameters of equal name.
pub open spec fn node_eq(a: SegView, b: SegView) -> bool {
    match (a, b) {
        (SegView::Literal(x), SegView::Literal(y)) => x == y,
        (SegView::Param(x), SegView::Param(y)) => x == y,
        _ => false,
    }
}

/// Whether registering both `p` and `q` would leave the table ambiguous:
/// walking the two patterns over their common node-equal prefix, either they
/// end together (the same shape registered twice), or they put two
/// differently named parameters at the same position.
pub open spec fn conflicts(p: Seq<SegView>, q: Seq<SegView>) -> bool
    decreases p.len(),
{
    if p.len() == 0 && q.len() == 0 {
        true
    } else if p.len() == 0 || q.len() == 0 {
        false
    } else if p[0] is Param && q[0] is Param && !node_eq(p[0], q[0]) {
        true
    } else if node_eq(p[0], q[0]) {
        conflicts(p.drop_first(), q.drop_first())
    } else {
        false
    }
}

pub proof fn lemma_conflicts_symmetric(p: Seq<SegView>, q: Seq<SegView>)
    ensures
        conflicts(p, q) == conflicts(q, p),
    decreases p.len(),
{
    if p.len() == 0 || q.len() == 0 {
    } else {
        lemma_conflicts_symmetric(p.drop_first(), q.drop_first());
    }
}

/// Whether `p` is strictly more specific than `q`: at the first position
/// where one side has a literal and the other a parameter, `p` has the
/// literal.
pub open spec fn more_specific(p: Seq<SegView>, q: Seq<SegView>) -> bool
    decreases p.len(),
{
    if p.len() == 0 || q.len() == 0 {
        false
    } else if !(p[0] is Param) && q[0] is Param {
        true
    } else if p[0] is Param && !(q[0] is Param) {
        false
    } else {
        more_specific(p.drop_first(), q.drop_first())
    }
}

/// Whether the two patterns place literals and parameters alike.
pub open spec fn same_shape(p: Seq<SegView>, q: Seq<SegView>) -> bool {
    &&& p.len() == q.len()
    &&& forall|i: int| 0 <= i < p.len() ==> ((#[trigger] p[i]) is Param <==> (#[trigger] q[i])
        is Param)
}

pub proof fn lemma_more_specific_asymmetric(p: Seq<SegView>, q: Seq<SegView>)
    ensures
        more_specific(p, q) ==> !more_specific(q, p),
    decreases p.len(),
{
    if p.len() == 0 || q.len() == 0 {
    } else {
        lemma_more_specific_asymmetric(p.drop_first(), q.drop_first());
    }
}

/// Of two equally long patterns, either one is strictly more specific than
/// the other, or they share their shape.
pub proof fn lemma_shape_cases(p: Seq<SegView>, q: Seq<SegView>)
    requires
        p.len() == q.len(),
    ensures
        more_specific(p, q) || more_specific(q, p) || same_shape(p, q),
    decreases p.len(),
{
    if p.len() == 0 {
    } else if !(p[0] is Param) && q[0] is Param {
    } else if p[0] is Param && !(q[0] is Param) {
    } else {
        lemma_shape_cases(p.drop_first(), q.drop_first());
        if same_shape(p.drop_first(), q.drop_first()) {
            assert forall|i: int| 0 <= i < p.len() implies ((#[trigger] p[i]) is Param <==> (
            #[trigger] q[i]) is Param) by {
                if i > 0 {
                    assert(p.drop_first()[i - 1] is Param <==> q.drop_first()[i - 1] is Param);
                }
            }
        }
    }
}

/// Two same-shaped patterns that accept the same path conflict: their
/// literals all equal the path's segments, so they differ at most in
/// parameter names, which is exactly what registration rejects.
pub proof fn lemma_same_shape_match_conflicts(p: Seq<SegView>, q: Seq<SegView>, segs: Seq<Seq<char>>)
    requires
        same_shape(p, q),
        pattern_matches(p, segs),
        pattern_matches(q, segs),
    ensures
        conflicts(p, q),
    decreases p.len(),
{
    if p.len() == 0 {
    } else if p[0] is Param && q[0] is Param && !node_eq(p[0], q[0]) {
    } else {
        assert(seg_matches(p[0], segs[0]));
        assert(seg_matches(q[0], segs[0]));
        assert(node_eq(p[0], q[0]));
        assert(same_shape(p.drop_first(), q.drop_first())) by {
            assert forall|i: int| 0 <= i < p.drop_first().len() implies ((
            #[trigger] p.drop_first()[i]) is Param <==> (#[trigger] q.drop_first()[i])
                is Param) by {
                assert(p[i + 1] is Param <==> q[i + 1] is Param);
            }
        }
        assert(pattern_matches(p.drop_first(), segs.drop_first())) by {
            assert forall|i: int| 0 <= i < p.drop_first().len() implies seg_matches(
                #[trigger] p.drop_first()[i],
                segs.drop_first()[i],
            ) by {
                assert(seg_matches(p[i + 1], segs[i + 1]));
            }
        }
        assert(pattern_matches(q.drop_first(), segs.drop_first())) by {
            assert forall|i: int| 0 <= i < q.drop_first().len() implies seg_matches(
                #[trigger] q.drop_first()[i],
                segs.drop_first()[i],
            ) by {
                assert(seg_matches(q[i + 1], segs[i + 1]));
            }
        }
        lemma_same_shape_match_conflicts(p.drop_first(), q.drop_first(), segs.drop_first());
    }
}

/// An all-literal pattern is strictly more specific than any equally long
/// pattern of a different shape.
pub proof fn lemma_static_most_specific(p: Seq<SegView>, q: Seq<SegView>)
    requires
        p.len() == q.len(),
        forall|k: int| 0 <= k < p.len() ==> !(#[trigger] p[k] is Param),
        !same_shape(p, q),
    ensures
        more_specific(p, q),
    decreases p.len(),
{
    if p.len() == 0 {
        assert(same_shape(p, q));
    } else if q[0] is Param {
        assert(!(p[0] is Param));
    } else {
        assert(!same_shape(p.drop_first(), q.drop_first())) by {
            if same_shape(p.drop_first(), q.drop_first()) {
                assert forall|i: int| 0 <= i < p.len() implies ((#[trigger] p[i]) is Param <==> (
                #[trigger] q[i]) is Param) by {
                    if i > 0 {
                        assert(p.drop_first()[i - 1] is Param <==> q.drop_first()[i - 1] is Param);
                    }
                }
            }
        }
        assert(forall|k: int| 0 <= k < p.drop_first().len() ==> !(#[trigger] p.drop_first()[k]
            is Param));
        lemma_static_most_specific(p.drop_first(), q.drop_first());
    }
}

/// Splits a path at every `/`, keeping empty segments.
pub fn split_path(path: &str) -> (segs: Vec<String>)
    ensures
        segs.deep_view() == spec_split(path@),
{
    let n = path.unicode_len();
    let mut segs: Vec<String> = Vec::new();
    let mut start: usize = 0;
    let mut i: usize = 0;
    proof {
        assert(segs.deep_view() =~= Seq::<Seq<char>>::empty());
        assert(path@.skip(0) =~= path@);
        assert(segs.deep_view() + spec_split(path@.skip(0)) =~= spec_split(path@));
    }
    while i < n
        invariant
            n == path@.len(),
            start <= i <= n,
            no_slash(path@.subrange(start as int, i as int)),
            spec_split(path@) == segs.deep_view() + spec_split(path@.skip(start as int)),
        decreases n - i,
    {
        let c = path.get_char(i);
        if c == '/' {
            let seg = path.substring_char(start, i).to_owned();
            proof {
                let pre = path@.subrange(start as int, i as int);
                assert(path@.skip(start as int) =~= pre + seq!['/'] + path@.skip(i as int + 1));
                lemma_split_append(pre, path@.skip(i as int + 1));
            }
            let ghost old_segs = segs.deep_view();
            segs.push(seg);
            proof {
                assert(segs.deep_view() =~= old_segs.push(
                    path@.subrange(start as int, i as int),
                ));
                assert(segs.deep_view() + spec_split(path@.skip(i as int + 1)) =~= old_segs + (seq![
                    path@.subrange(start as int, i as int),
                ] + spec_split(path@.skip(i as int + 1))));
            }
            start = i + 1;
        } else {
            proof {
                assert(path@.subrange(start as int, i as int + 1) =~= path@.subrange(
                    start as int,
                    i as int,
                ).push(path@[i as int]));
            }
        }
        i += 1;
    }
    let seg = path.substring_char(start, n).to_owned();
    proof {
        assert(path@.skip(start as int) =~= path@.subrange(start as int, n as int));
        lemma_split_no_slash(path@.subrange(start as int, n as int));
    }
    let ghost old_segs = segs.deep_view();
    segs.push(seg);
    proof {
        assert(segs.deep_view() =~= old_segs.push(path@.subrange(start as int, n as int)));
        assert(segs.deep_view() =~= spec_split(path@));
    }
    segs
}

/// Reads one raw pattern segment: `:name` becomes a parameter, anything
/// else a literal.
fn classify_segment(seg: &String) -> (r: Segment)
    ensures
        r@ == spec_classify(seg@),
{
    let s = seg.as_str();
    let n = s.unicode_len();
    if n > 0 && s.get_char(0) == ':' {
        let name = s.substring_char(1, n).to_owned();
        proof {
            assert(name@ =~= seg@.drop_first());
        }
        Segment::Param(name)
    } else {
        Segment::Literal(seg.clone())
    }
}

/// Parses a pattern string into its segments.
pub fn parse_pattern(pattern: &str) -> (segs: Vec<Segment>)
    ensures
        segs.deep_view() == spec_parse_pattern(pattern@),
{
    let raw = split_path(pattern);
    let mut segs: Vec<Segment> = Vec::new();
    let mut i: usize = 0;
    while i < raw.len()
        invariant
            raw.deep_view() == spec_split(pattern@),
            i <= raw@.len(),
            segs.deep_view() == spec_parse_pattern(pattern@).take(i as int),
        decreases raw@.len() - i,
    {
        let ghost old_segs = segs.deep_view();
        segs.push(classify_segment(&raw[i]));
        proof {
            assert(raw@[i as int]@ == raw.deep_view()[i as int]);
            assert(segs.deep_view() =~= old_segs.push(spec_classify(raw.deep_view()[i as int])));
            assert(segs.deep_view() =~= spec_parse_pattern(pattern@).take(i as int + 1));
        }
        i += 1;
    }
    proof {
        assert(segs.deep_view() =~= spec_parse_pattern(pattern@));
    }
    segs
}

/// Whether a parsed pattern accepts a split path.
pub fn pattern_matches_exec(p: &Vec<Segment>, segs: &Vec<String>) -> (r: bool)
    ensures
        r == pattern_matches(p.deep_view(), segs.deep_view()),
{
    if p.len() != segs.len() {
        return false;
    }
    let mut i: usize = 0;
    while i < p.len()
        invariant
            p.deep_view().len() == segs.deep_view().len(),
            i <= p@.len(),
            forall|j: int| 0 <= j < i ==> seg_matches(
                #[trigger] p.deep_view()[j],
                segs.deep_view()[j],
            ),
        decreases p@.len() - i,
    {
        match &p[i] {
            Segment::Literal(l) => {
                if !(*l == segs[i]) {
                    assert(!seg_matches(p.deep_view()[i as int], segs.deep_view()[i as int]));
                    return false;
                }
            },
            Segment::Param(_) => {},
        }
        assert(seg_matches(p.deep_view()[i as int], segs.deep_view()[i as int]));
        i += 1;
    }
    true
}

/// Collects the parameter captures of a matching pattern, in segment order.
pub fn capture_params(p: &Vec<Segment>, segs: &Vec<String>) -> (r: Vec<(String, String)>)
    requires
        p.deep_view().len() == segs.deep_view().len(),
    ensures
        r.deep_view() == spec_captures(p.deep_view(), segs.deep_view()),
{
    let mut r: Vec<(String, String)> = Vec::new();
    let mut i: usize = 0;
    while i < p.len()
        invariant
            p.deep_view().len() == segs.deep_view().len(),
            i <= p@.len(),
            r.deep_view() == spec_captures(
                p.deep_view().take(i as int),
                segs.deep_view().take(i as int),
            ),
        decreases p@.len() - i,
    {
        let ghost old_r = r.deep_view();
        match &p[i] {
            Segment::Param(name) => {
                r.push((name.clone(), segs[i].clone()));
                proof {
                    assert(r.deep_view() =~= old_r.push(
                        (name@, segs.deep_view()[i as int]),
                    ));
                }
            },
            Segment::Literal(_) => {},
        }
        proof {
            let pp = p.deep_view().take(i as int + 1);
            let ss = segs.deep_view().take(i as int + 1);
            assert(pp.drop_last() =~= p.deep_view().take(i as int));
            assert(ss.drop_last() =~= segs.deep_view().take(i as int));
            assert(pp.last() == p.deep_view()[i as int]);
            assert(ss.last() == segs.deep_view()[i as int]);
            assert(r.deep_view() == spec_captures(pp, ss));
        }
        i += 1;
    }
    proof {
        assert(p.deep_view().take(p@.len() as int) =~= p.deep_view());
        assert(segs.deep_view().take(segs@.len() as int) =~= segs.deep_view());
    }
    r
}

/// Whether two parsed patterns fall under the registration conflict rule.
pub fn conflicts_exec(p: &Vec<Segment>, q: &Vec<Segment>) -> (r: bool)
    ensures
        r == conflicts(p.deep_view(), q.deep_view()),
{
    let mut i: usize = 0;
    proof {
        assert(p.deep_view().skip(0) =~= p.deep_view());
        assert(q.deep_view().skip(0) =~= q.deep_view());
    }
    loop
        invariant
            i <= p@.len(),
            i <= q@.len(),
            conflicts(p.deep_view(), q.deep_view()) == conflicts(
                p.deep_view().skip(i as int),
                q.deep_view().skip(i as int),
            ),
        decreases p@.len() - i,
    {
        proof {
            if i < p@.len() {
                assert(p.deep_view().skip(i as int).drop_first() =~= p.deep_view().skip(
                    i as int + 1,
                ));
            }
            if i < q@.len() {
                assert(q.deep_view().skip(i as int).drop_first() =~= q.deep_view().skip(
                    i as int + 1,
                ));
            }
        }
        if i == p.len() || i == q.len() {
            return p.len() == q.len();
        }
        let same = match (&p[i], &q[i]) {
            (Segment::Literal(a), Segment::Literal(b)) => {
                if !(*a == *b) {
                    assert(!node_eq(p.deep_view().skip(i as int)[0], q.deep_view().skip(
                        i as int,
                    )[0]));
                    return false;
                }
                true
            },
            (Segment::Param(a), Segment::Param(b)) => {
                if !(*a == *b) {
                    assert(p.deep_view().skip(i as int)[0] is Param);
                    assert(q.deep_view().skip(i as int)[0] is Param);
                    assert(!node_eq(p.deep_view().skip(i as int)[0], q.deep_view().skip(
                        i as int,
                    )[0]));
                    return true;
                }
                true
            },
            _ => {
                assert(!node_eq(p.deep_view().skip(i as int)[0], q.deep_view().skip(i as int)[0]));
                assert(!(p.deep_view().skip(i as int)[0] is Param && q.deep_view().skip(
                    i as int,
                )[0] is Param));
                return false;
            },
        };
        assert(same);
        assert(node_eq(p.deep_view().skip(i as int)[0], q.deep_view().skip(i as int)[0]));
        i += 1;
    }
}

/// Whether `p` is strictly more specific than `q`.
pub fn more_specific_exec(p: &Vec<Segment>, q: &Vec<Segment>) -> (r: bool)
    ensures
        r == more_specific(p.deep_view(), q.deep_view()),
{
    let mut i: usize = 0;
    proof {
        assert(p.deep_view().skip(0) =~= p.deep_view());
        assert(q.deep_view().skip(0) =~= q.deep_view());
    }
    loop
        invariant
            i <= p@.len(),
            i <= q@.len(),
            more_specific(p.deep_view(), q.deep_view()) == more_specific(
                p.deep_view().skip(i as int),
                q.deep_view().skip(i as int),
            ),
        decreases p@.len() - i,
    {
        proof {
            if i < p@.len() {
                assert(p.deep_view().skip(i as int).drop_first() =~= p.deep_view().skip(
                    i as int + 1,
                ));
            }
            if i < q@.len() {
                assert(q.deep_view().skip(i as int).drop_first() =~= q.deep_view().skip(
                    i as int + 1,
                ));
            }
        }
        if i == p.len() || i == q.len() {
            return false;
        }
        match (&p[i], &q[i]) {
            (Segment::Literal(_), Segment::Param(_)) => {
                assert(!(p.deep_view().skip(i as int)[0] is Param));
                assert(q.deep_view().skip(i as int)[0] is Param);
                return true;
            },
            (Segment::Param(_), Segment::Literal(_)) => {
                assert(p.deep_view().skip(i as int)[0] is Param);
                assert(!(q.deep_view().skip(i as int)[0] is Param));
                return false;
            },
            (Segment::Literal(_), Segment::Literal(_)) => {
                assert(!(p.deep_view().skip(i as int)[0] is Param));
                assert(!(q.deep_view().skip(i as int)[0] is Param));
            },
            (Segment::Param(_), Segment::Param(_)) => {
                assert(p.deep_view().skip(i as int)[0] is Param);
                assert(q.deep_view().skip(i as int)[0] is Param);
            },
        }
        i += 1;
    }
}

} // verus!
