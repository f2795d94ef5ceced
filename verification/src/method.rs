//! The closed set of HTTP verbs, parsing of a verb from raw bytes, and
//! method sets for route bindings.

use vstd::prelude::*;

verus! {

/// One of the eight HTTP verbs a request can carry.
#[derive(Clone, Copy, PartialEq, Eq, Structural, Debug)]
pub enum Method {
    Get,
    Head,
    Post,
    Put,
    Delete,
    Options,
    Trace,
    Patch,
}

/// Raised when a raw method field spells none of the eight verbs.
#[derive(Clone, Copy, PartialEq, Eq, Structural, Debug)]
pub struct ParseError;

/// The canonical (upper-case) spelling of a verb, as bytes.
pub open spec fn spec_method_name(m: Method) -> Seq<u8> {
    match m {
        Method::Get => seq![71u8, 69u8, 84u8],  // "GET"
        Method::Head => seq![72u8, 69u8, 65u8, 68u8],  // "HEAD"
        Method::Post => seq![80u8, 79u8, 83u8, 84u8],  // "POST"
        Method::Put => seq![80u8, 85u8, 84u8],  // "PUT"
        Method::Delete => seq![68u8, 69u8, 76u8, 69u8, 84u8, 69u8],  // "DELETE"
        Method::Options => seq![79u8, 80u8, 84u8, 73u8, 79u8, 78u8, 83u8],  // "OPTIONS"
        Method::Trace => seq![84u8, 82u8, 65u8, 67u8, 69u8],  // "TRACE"
        Method::Patch => seq![80u8, 65u8, 84u8, 67u8, 72u8],  // "PATCH"
    }
}

/// ASCII upper-casing of a single byte.
pub open spec fn spec_upper(b: u8) -> u8 {
    if 97 <= b && b <= 122 {  // 'a' ..= 'z'
        (b - 32) as u8
    } else {
        b
    }
}

/// ASCII upper-casing of a byte string.
pub open spec fn spec_upper_bytes(s: Seq<u8>) -> Seq<u8> {
    s.map_values(|b: u8| spec_upper(b))
}

/// Which verb, if any, a raw method field denotes: its spelling is compared
/// case-insensitively against the canonical verb names.
pub open spec fn spec_parse_method(s: Seq<u8>) -> Option<Method> {
    if spec_upper_bytes(s) == spec_method_name(Method::Get) {
        Some(Method::Get)
    } else if spec_upper_bytes(s) == spec_method_name(Method::Head) {
        Some(Method::Head)
    } else if spec_upper_bytes(s) == spec_method_name(Method::Post) {
        Some(Method::Post)
    } else if spec_upper_bytes(s) == spec_method_name(Method::Put) {
        Some(Method::Put)
    } else if spec_upper_bytes(s) == spec_method_name(Method::Delete) {
        Some(Method::Delete)
    } else if spec_upper_bytes(s) == spec_method_name(Method::Options) {
        Some(Method::Options)
    } else if spec_upper_bytes(s) == spec_method_name(Method::Trace) {
        Some(Method::Trace)
    } else if spec_upper_bytes(s) == spec_method_name(Method::Patch) {
        Some(Method::Patch)
    } else {
        None
    }
}

fn upper_byte(b: u8) -> (r: u8)
    ensures
        r == spec_upper(b),
{
    if 97 <= b && b <= 122 {  // 'a' ..= 'z'
        b - 32
    } else {
        b
    }
}

/// Whether `s`, upper-cased, equals `t` (with `t` already canonical).
fn eq_upper(s: &[u8], t: &[u8]) -> (r: bool)
    ensures
        r == (spec_upper_bytes(s@) == t@),
{
    if s.len() != t.len() {
        assert(spec_upper_bytes(s@).len() == s@.len());
        return false;
    }
    let mut i: usize = 0;
    while i < s.len()
        invariant
            i <= s@.len(),
            s@.len() == t@.len(),
            forall|j: int| 0 <= j < i ==> spec_upper(s@[j]) == t@[j],
        decreases s@.len() - i,
    {
        if upper_byte(s[i]) != t[i] {
            assert(spec_upper_bytes(s@)[i as int] != t@[i as int]);
            return false;
        }
        i += 1;
    }
    assert(spec_upper_bytes(s@) =~= t@);
    true
}

/// The canonical spelling of a verb, as owned bytes.
fn method_name(m: Method) -> (r: Vec<u8>)
    ensures
        r@ == spec_method_name(m),
{
    match m {
        Method::Get => {
            let r = vec![71u8, 69u8, 84u8];  // "GET"
            assert(r@ =~= spec_method_name(Method::Get));
            r
        },
        Method::Head => {
            let r = vec![72u8, 69u8, 65u8, 68u8];  // "HEAD"
            assert(r@ =~= spec_method_name(Method::Head));
            r
        },
        Method::Post => {
            let r = vec![80u8, 79u8, 83u8, 84u8];  // "POST"
            assert(r@ =~= spec_method_name(Method::Post));
            r
        },
        Method::Put => {
            let r = vec![80u8, 85u8, 84u8];  // "PUT"
            assert(r@ =~= spec_method_name(Method::Put));
            r
        },
        Method::Delete => {
            let r = vec![68u8, 69u8, 76u8, 69u8, 84u8, 69u8];  // "DELETE"
            assert(r@ =~= spec_method_name(Method::Delete));
            r
        },
        Method::Options => {
            let r = vec![79u8, 80u8, 84u8, 73u8, 79u8, 78u8, 83u8];  // "OPTIONS"
            assert(r@ =~= spec_method_name(Method::Options));
            r
        },
        Method::Trace => {
            let r = vec![84u8, 82u8, 65u8, 67u8, 69u8];  // "TRACE"
            assert(r@ =~= spec_method_name(Method::Trace));
            r
        },
        Method::Patch => {
            let r = vec![80u8, 65u8, 84u8, 67u8, 72u8];  // "PATCH"
            assert(r@ =~= spec_method_name(Method::Patch));
            r
        },
    }
}

impl Method {
    /// Parses a verb from raw bytes, case-insensitively; anything but the
    /// eight canonical spellings is rejected.
    pub fn from_bytes(bytes: &[u8]) -> (r: Result<Method, ParseError>)
        ensures
            match r {
                Ok(m) => spec_parse_method(bytes@) == Some(m),
                Err(_) => spec_parse_method(bytes@) is None,
            },
    {
        if eq_upper(bytes, method_name(Method::Get).as_slice()) {
            Ok(Method::Get)
        } else if eq_upper(bytes, method_name(Method::Head).as_slice()) {
            Ok(Method::Head)
        } else if eq_upper(bytes, method_name(Method::Post).as_slice()) {
            Ok(Method::Post)
        } else if eq_upper(bytes, method_name(Method::Put).as_slice()) {
            Ok(Method::Put)
        } else if eq_upper(bytes, method_name(Method::Delete).as_slice()) {
            Ok(Method::Delete)
        } else if eq_upper(bytes, method_name(Method::Options).as_slice()) {
            Ok(Method::Options)
        } else if eq_upper(bytes, method_name(Method::Trace).as_slice()) {
            Ok(Method::Trace)
        } else if eq_upper(bytes, method_name(Method::Patch).as_slice()) {
            Ok(Method::Patch)
        } else {
            Err(ParseError)
        }
    }
}

/// The set of verbs one handler is bound to.
pub struct MethodSet {
    methods: Vec<Method>,
}

impl View for MethodSet {
    type V = Set<Method>;

    closed spec fn view(&self) -> Set<Method> {
        self.methods@.to_set()
    }
}

/// Whether `m` stands in `v`.
fn vec_contains(v: &Vec<Method>, m: Method) -> (r: bool)
    ensures
        r == v@.contains(m),
{
    let mut i: usize = 0;
    while i < v.len()
        invariant
            i <= v@.len(),
            forall|j: int| 0 <= j < i ==> v@[j] != m,
        decreases v@.len() - i,
    {
        if v[i] == m {
            return true;
        }
        i += 1;
    }
    false
}

impl MethodSet {
    /// The set holding exactly the verbs of `methods`, deduplicated.
    pub fn from_methods(methods: Vec<Method>) -> (r: MethodSet)
        ensures
            r@ == methods@.to_set(),
    {
        let mut out: Vec<Method> = Vec::new();
        let mut i: usize = 0;
        proof {
            assert(out@.to_set() =~= methods@.take(0).to_set());
        }
        while i < methods.len()
            invariant
                i <= methods@.len(),
                out@.to_set() == methods@.take(i as int).to_set(),
            decreases methods@.len() - i,
        {
            proof {
                assert forall|m: Method| #[trigger]
                    methods@.take(i as int + 1).to_set().contains(m) implies methods@.take(
                    i as int,
                ).to_set().contains(m) || m == methods@[i as int] by {
                    let k = choose|k: int|
                        0 <= k < i + 1 && #[trigger] methods@.take(i as int + 1)[k] == m;
                    if k < i {
                        assert(methods@.take(i as int)[k] == m);
                    }
                }
                assert(methods@.take(i as int + 1).to_set() =~= methods@.take(
                    i as int,
                ).to_set().insert(methods@[i as int])) by {
                    assert(methods@.take(i as int + 1)[i as int] == methods@[i as int]);
                    assert forall|m: Method|
                        methods@.take(i as int).to_set().contains(m) implies #[trigger] methods@
                        .take(i as int + 1).to_set().contains(m) by {
                        let k = choose|k: int|
                            0 <= k < i && #[trigger] methods@.take(i as int)[k] == m;
                        assert(methods@.take(i as int + 1)[k] == m);
                    }
                }
            }
            if !vec_contains(&out, methods[i]) {
                let ghost out0 = out@;
                out.push(methods[i]);
                proof {
                    assert(out@.to_set() =~= out0.to_set().insert(methods@[i as int])) by {
                        assert(out@[out0.len() as int] == methods@[i as int]);
                        assert forall|m: Method| out0.to_set().contains(m) implies #[trigger] out@
                            .to_set().contains(m) by {
                            let k = choose|k: int| 0 <= k < out0.len() && #[trigger] out0[k] == m;
                            assert(out@[k] == m);
                        }
                        assert forall|m: Method| #[trigger]
                            out@.to_set().contains(m) implies out0.to_set().contains(m) || m
                            == methods@[i as int] by {
                            let k = choose|k: int| 0 <= k < out@.len() && #[trigger] out@[k] == m;
                            if k < out0.len() {
                                assert(out0[k] == m);
                            }
                        }
                    }
                }
            } else {
                proof {
                    assert(out@.to_set().insert(methods@[i as int]) =~= out@.to_set());
                }
            }
            i += 1;
        }
        proof {
            assert(methods@.take(methods@.len() as int) =~= methods@);
        }
        MethodSet { methods: out }
    }

    /// The set holding `m` alone.
    pub fn single(m: Method) -> (r: MethodSet)
        ensures
            r@ == set![m],
    {
        let r = MethodSet { methods: vec![m] };
        assert(r.methods@.to_set() =~= set![m]);
        r
    }

    /// Whether `m` is one of the bound verbs.
    pub fn contains(&self, m: Method) -> (r: bool)
        ensures
            r == self@.contains(m),
    {
        let mut i: usize = 0;
        while i < self.methods.len()
            invariant
                i <= self.methods@.len(),
                forall|j: int| 0 <= j < i ==> self.methods@[j] != m,
            decreases self.methods@.len() - i,
        {
            if self.methods[i] == m {
                return true;
            }
            i += 1;
        }
        false
    }
}

} // verus!
