//! The request's query data: a string-keyed map with unique keys, and the
//! merge of captured path parameters into it.

use vstd::prelude::*;

verus! {

/// The map an association list denotes: later entries overwrite earlier
/// ones.
pub open spec fn assoc_map(entries: Seq<(Seq<char>, Seq<char>)>) -> Map<Seq<char>, Seq<char>>
    decreases entries.len(),
{
    if entries.len() == 0 {
        Map::empty()
    } else {
        assoc_map(entries.drop_last()).insert(entries.last().0, entries.last().1)
    }
}

/// No two entries share a key.
pub open spec fn unique_keys(s: Seq<(Seq<char>, Seq<char>)>) -> bool {
    forall|a: int, b: int| 0 <= a < b < s.len() ==> (#[trigger] s[a]).0 != (#[trigger] s[b]).0
}

/// A key is in the map exactly when some entry carries it.
proof fn lemma_assoc_contains(entries: Seq<(Seq<char>, Seq<char>)>, k: Seq<char>)
    ensures
        assoc_map(entries).contains_key(k) <==> exists|i: int|
            0 <= i < entries.len() && (#[trigger] entries[i]).0 == k,
    decreases entries.len(),
{
    if entries.len() == 0 {
    } else {
        lemma_assoc_contains(entries.drop_last(), k);
        let m = assoc_map(entries);
        if entries.last().0 == k {
            assert((entries[entries.len() - 1]).0 == k);
        } else {
            if m.contains_key(k) {
                let i = choose|i: int|
                    0 <= i < entries.drop_last().len() && (#[trigger] entries.drop_last()[i]).0
                        == k;
                assert((entries[i]).0 == k);
            }
            if exists|i: int| 0 <= i < entries.len() && (#[trigger] entries[i]).0 == k {
                let i = choose|i: int| 0 <= i < entries.len() && (#[trigger] entries[i]).0 == k;
                assert(i < entries.len() - 1);
                assert((entries.drop_last()[i]).0 == k);
            }
        }
    }
}

/// With unique keys, each entry's key maps to that entry's value.
proof fn lemma_assoc_value(entries: Seq<(Seq<char>, Seq<char>)>, i: int)
    requires
        0 <= i < entries.len(),
        unique_keys(entries),
    ensures
        assoc_map(entries).contains_key((entries[i]).0),
        assoc_map(entries)[(entries[i]).0] == (entries[i]).1,
    decreases entries.len(),
{
    if i == entries.len() - 1 {
    } else {
        assert(unique_keys(entries.drop_last()));
        assert(entries.drop_last()[i] == entries[i]);
        lemma_assoc_value(entries.drop_last(), i);
        assert((entries.last()).0 != (entries[i]).0);
    }
}

/// Inserting `k` gives the same map whether or not entries keyed `k` were
/// first dropped from the list (`s1` is `s0` without its `k`-keyed entries).
proof fn lemma_assoc_insert_skip(
    s0: Seq<(Seq<char>, Seq<char>)>,
    s1: Seq<(Seq<char>, Seq<char>)>,
    k: Seq<char>,
    v: Seq<char>,
)
    requires
        unique_keys(s0),
        unique_keys(s1),
        forall|j: int| 0 <= j < s1.len() ==> (#[trigger] s1[j]).0 != k,
        forall|j: int| 0 <= j < s1.len() ==> exists|i: int|
            0 <= i < s0.len() && s0[i] == #[trigger] s1[j],
        forall|i: int| 0 <= i < s0.len() && (#[trigger] s0[i]).0 != k ==> exists|j: int|
            0 <= j < s1.len() && s1[j] == s0[i],
    ensures
        assoc_map(s1).insert(k, v) == assoc_map(s0).insert(k, v),
{
    let m0 = assoc_map(s0).insert(k, v);
    let m1 = assoc_map(s1).insert(k, v);
    assert forall|k2: Seq<char>| m1.contains_key(k2) implies m0.contains_key(k2) by {
        if k2 != k {
            lemma_assoc_contains(s1, k2);
            let j = choose|j: int| 0 <= j < s1.len() && (#[trigger] s1[j]).0 == k2;
            let i = choose|i: int| 0 <= i < s0.len() && s0[i] == s1[j];
            lemma_assoc_contains(s0, k2);
        }
    }
    assert forall|k2: Seq<char>| m0.contains_key(k2) implies m1.contains_key(k2) by {
        if k2 != k {
            lemma_assoc_contains(s0, k2);
            let i = choose|i: int| 0 <= i < s0.len() && (#[trigger] s0[i]).0 == k2;
            let j = choose|j: int| 0 <= j < s1.len() && s1[j] == s0[i];
            lemma_assoc_contains(s1, k2);
        }
    }
    assert forall|k2: Seq<char>| m1.contains_key(k2) implies m1[k2] == m0[k2] by {
        if k2 != k {
            lemma_assoc_contains(s1, k2);
            let j = choose|j: int| 0 <= j < s1.len() && (#[trigger] s1[j]).0 == k2;
            lemma_assoc_value(s1, j);
            let i = choose|i: int| 0 <= i < s0.len() && s0[i] == s1[j];
            lemma_assoc_value(s0, i);
        }
    }
    assert(m1 =~= m0);
}

/// A request's query data: name-value pairs with unique names, read as a
/// map from name to value.
pub struct QueryMap {
    entries: Vec<(String, String)>,
}

impl View for QueryMap {
    type V = Map<Seq<char>, Seq<char>>;

    closed spec fn view(&self) -> Map<Seq<char>, Seq<char>> {
        assoc_map(self.entries.deep_view())
    }
}

impl QueryMap {
    /// Key uniqueness: established by every constructor and preserved by
    /// every method.
    pub closed spec fn wf(&self) -> bool {
        unique_keys(self.entries.deep_view())
    }

    /// An empty query map.
    pub fn new() -> (r: QueryMap)
        ensures
            r@ == Map::<Seq<char>, Seq<char>>::empty(),
            r.wf(),
    {
        let r = QueryMap { entries: Vec::new() };
        proof {
            assert(r.entries.deep_view() =~= Seq::<(Seq<char>, Seq<char>)>::empty());
        }
        r
    }

    /// Looks a key up.
    pub fn get(&self, key: &str) -> (r: Option<&String>)
        requires
            self.wf(),
        ensures
            match r {
                Some(v) => self@.contains_key(key@) && v@ == self@[key@],
                None => !self@.contains_key(key@),
            },
    {
        let k = key.to_owned();
        let mut i: usize = 0;
        while i < self.entries.len()
            invariant
                self.wf(),
                k@ == key@,
                i <= self.entries@.len(),
                forall|j: int| 0 <= j < i ==> (#[trigger] self.entries.deep_view()[j]).0 != key@,
            decreases self.entries@.len() - i,
        {
            if self.entries[i].0 == k {
                proof {
                    lemma_assoc_value(self.entries.deep_view(), i as int);
                }
                return Some(&self.entries[i].1);
            }
            i += 1;
        }
        proof {
            lemma_assoc_contains(self.entries.deep_view(), key@);
        }
        None
    }

    /// Binds `key` to `value`, overwriting any existing binding of `key`.
    pub fn insert(&mut self, key: String, value: String)
        requires
            old(self).wf(),
        ensures
            final(self).wf(),
            final(self)@ == old(self)@.insert(key@, value@),
    {
        let ghost s0 = self.entries.deep_view();
        let n = self.entries.len();
        let mut i: usize = 0;
        let mut found: usize = n;
        while i < n
            invariant
                self.entries.deep_view() == s0,
                n == self.entries@.len(),
                i <= n,
                found <= n,
                found == n ==> forall|j: int| 0 <= j < i ==> (#[trigger] s0[j]).0 != key@,
                found < n ==> (s0[found as int]).0 == key@,
            decreases n - i,
        {
            if found == n && self.entries[i].0 == key {
                found = i;
            }
            i += 1;
        }
        if found < n {
            self.entries.remove(found);
            proof {
                assert forall|j: int| 0 <= j < self.entries.deep_view().len() implies
                    self.entries.deep_view()[j] == (if j < found { s0[j] } else {
                    s0[j + 1]
                }) by {
                    assert(self.entries@[j] == (if j < found {
                        old(self).entries@[j]
                    } else {
                        old(self).entries@[j + 1]
                    }));
                }
            }
        }
        let ghost s1 = self.entries.deep_view();
        proof {
            assert(unique_keys(s1)) by {
                if found < n {
                    assert forall|a: int, b: int|
                        0 <= a < b < s1.len() implies (#[trigger] s1[a]).0 != (
                    #[trigger] s1[b]).0 by {
                        let a0: int = if a < found { a } else { a + 1 };
                        let b0: int = if b < found { b } else { b + 1 };
                        assert(s1[a] == s0[a0] && s1[b] == s0[b0]);
                    }
                }
            }
            assert forall|j: int| 0 <= j < s1.len() implies (#[trigger] s1[j]).0 != key@ by {
                if found < n {
                    let j0: int = if j < found { j } else { j + 1 };
                    assert(s1[j] == s0[j0]);
                    if j0 != found {
                        assert((s0[j0]).0 != (s0[found as int]).0);
                    }
                }
            }
        }
        self.entries.push((key, value));
        proof {
            let s2 = self.entries.deep_view();
            assert(s2.drop_last() =~= s1);
            assert(s2.last() == (key@, value@));
            assert(unique_keys(s2)) by {
                assert(forall|j: int| 0 <= j < s1.len() ==> #[trigger] s2[j] == s1[j]);
            }
            assert(assoc_map(s2) == assoc_map(s1).insert(key@, value@));
            if found < n {
                assert forall|j: int| 0 <= j < s1.len() implies exists|i2: int|
                    0 <= i2 < s0.len() && s0[i2] == #[trigger] s1[j] by {
                    let j0: int = if j < found { j } else { j + 1 };
                    assert(s0[j0] == s1[j]);
                }
                assert forall|i2: int|
                    0 <= i2 < s0.len() && (#[trigger] s0[i2]).0 != key@ implies exists|j: int|
                    0 <= j < s1.len() && s1[j] == s0[i2] by {
                    let j: int = if i2 < found { i2 } else { i2 - 1 };
                    assert(i2 != found);
                    assert(s1[j] == s0[i2]);
                }
                lemma_assoc_insert_skip(s0, s1, key@, value@);
            } else {
                assert(s1 == s0);
            }
        }
    }
}

/// The query map after the captured parameters are written into it in
/// order, each overwriting any same-named key.
pub open spec fn spec_merge(
    q: Map<Seq<char>, Seq<char>>,
    params: Seq<(Seq<char>, Seq<char>)>,
) -> Map<Seq<char>, Seq<char>>
    decreases params.len(),
{
    if params.len() == 0 {
        q
    } else {
        spec_merge(q, params.drop_last()).insert(params.last().0, params.last().1)
    }
}

/// Writes captured path parameters into the query: a path parameter
/// overwrites a same-named query key, never the other way around.
pub fn merge_params(query: QueryMap, params: &Vec<(String, String)>) -> (r: QueryMap)
    requires
        query.wf(),
    ensures
        r.wf(),
        r@ == spec_merge(query@, params.deep_view()),
{
    let ghost q0 = query@;
    let mut q = query;
    let mut i: usize = 0;
    proof {
        assert(params.deep_view().take(0) =~= Seq::<(Seq<char>, Seq<char>)>::empty());
    }
    while i < params.len()
        invariant
            q.wf(),
            i <= params@.len(),
            q@ == spec_merge(q0, params.deep_view().take(i as int)),
        decreases params@.len() - i,
    {
        let key = params[i].0.clone();
        let value = params[i].1.clone();
        q.insert(key, value);
        proof {
            let pd = params.deep_view();
            assert(pd.take(i as int + 1).drop_last() =~= pd.take(i as int));
            assert(pd.take(i as int + 1).last() == pd[i as int]);
            assert(pd[i as int] == (params@[i as int].0@, params@[i as int].1@));
        }
        i += 1;
    }
    proof {
        assert(params.deep_view().take(params@.len() as int) =~= params.deep_view());
    }
    q
}

} // verus!
