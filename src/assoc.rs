use vstd::prelude::*;

verus! {

/// The names held by a list of strings.
pub open spec fn names(v: Seq<String>) -> Seq<Seq<char>> {
    v.map_values(|s: String| s@)
}

/// A list of `(key, value)` pairs holds the key `k`.
pub open spec fn has_key<V>(s: Seq<(String, V)>, k: Seq<char>) -> bool {
    exists|i: int| 0 <= i < s.len() && #[trigger] s[i].0@ == k
}

/// No key stands twice in the list.
pub open spec fn keys_unique<V>(s: Seq<(String, V)>) -> bool {
    forall|i: int, j: int|
        0 <= i < s.len() && 0 <= j < s.len() && #[trigger] s[i].0@ == #[trigger] s[j].0@ ==> i == j
}

/// The value stored under `k` (meaningful where `has_key(s, k)`).
pub open spec fn value_of<V>(s: Seq<(String, V)>, k: Seq<char>) -> V {
    s[choose|i: int| 0 <= i < s.len() && s[i].0@ == k].1
}

/// The map that a list of pairs with unique keys stands for.
pub open spec fn to_map<V>(s: Seq<(String, V)>) -> Map<Seq<char>, V> {
    Map::new(|k: Seq<char>| has_key(s, k), |k: Seq<char>| value_of(s, k))
}

pub proof fn lemma_value_at<V>(s: Seq<(String, V)>, i: int)
    requires
        keys_unique(s),
        0 <= i < s.len(),
    ensures
        has_key(s, s[i].0@),
        value_of(s, s[i].0@) == s[i].1,
        to_map(s).contains_key(s[i].0@),
        to_map(s)[s[i].0@] == s[i].1,
{
    let k = s[i].0@;
    assert(0 <= i < s.len() && s[i].0@ == k);
    let j = choose|j: int| 0 <= j < s.len() && s[j].0@ == k;
    assert(s[j].0@ == s[i].0@);
}

/// Appending a pair under a fresh key inserts it into the map.
pub proof fn lemma_push<V>(s: Seq<(String, V)>, e: (String, V))
    requires
        keys_unique(s),
        !has_key(s, e.0@),
    ensures
        keys_unique(s.push(e)),
        to_map(s.push(e)) == to_map(s).insert(e.0@, e.1),
{
    let t = s.push(e);
    assert forall|i: int, j: int|
        0 <= i < t.len() && 0 <= j < t.len() && #[trigger] t[i].0@ == #[trigger] t[j].0@ implies i == j by {
        if i < s.len() && j == s.len() {
            assert(s[i].0@ == e.0@);
        } else if j < s.len() && i == s.len() {
            assert(s[j].0@ == e.0@);
        }
    }
    assert forall|k: Seq<char>| #[trigger] has_key(t, k) == (has_key(s, k) || k == e.0@) by {
        if has_key(s, k) {
            let i = choose|i: int| 0 <= i < s.len() && s[i].0@ == k;
            assert(t[i].0@ == k);
        }
        if k == e.0@ {
            assert(t[s.len() as int].0@ == k);
        }
        if has_key(t, k) {
            let i = choose|i: int| 0 <= i < t.len() && t[i].0@ == k;
            if i < s.len() {
                assert(s[i].0@ == k);
            }
        }
    }
    assert forall|k: Seq<char>| has_key(t, k) implies #[trigger] value_of(t, k) == to_map(s).insert(
        e.0@,
        e.1,
    )[k] by {
        let i = choose|i: int| 0 <= i < t.len() && t[i].0@ == k;
        lemma_value_at(t, i);
        if i < s.len() {
            assert(s[i] == t[i]);
            lemma_value_at(s, i);
        }
    }
    assert(to_map(t) =~= to_map(s).insert(e.0@, e.1));
}

/// Replacing the value at an index updates the map under that index's key.
pub proof fn lemma_set<V>(s: Seq<(String, V)>, i: int, e: (String, V))
    requires
        keys_unique(s),
        0 <= i < s.len(),
        e.0@ == s[i].0@,
    ensures
        keys_unique(s.update(i, e)),
        to_map(s.update(i, e)) == to_map(s).insert(e.0@, e.1),
{
    let t = s.update(i, e);
    assert forall|a: int, b: int|
        0 <= a < t.len() && 0 <= b < t.len() && #[trigger] t[a].0@ == #[trigger] t[b].0@ implies a == b by {
        assert(s[a].0@ == t[a].0@);
        assert(s[b].0@ == t[b].0@);
    }
    assert forall|k: Seq<char>| #[trigger] has_key(t, k) == has_key(s, k) by {
        if has_key(s, k) {
            let j = choose|j: int| 0 <= j < s.len() && s[j].0@ == k;
            assert(t[j].0@ == k);
        }
        if has_key(t, k) {
            let j = choose|j: int| 0 <= j < t.len() && t[j].0@ == k;
            assert(s[j].0@ == k);
        }
    }
    lemma_value_at(s, i);
    assert forall|k: Seq<char>| has_key(t, k) implies #[trigger] value_of(t, k) == to_map(s).insert(
        e.0@,
        e.1,
    )[k] by {
        let j = choose|j: int| 0 <= j < t.len() && t[j].0@ == k;
        lemma_value_at(t, j);
        if j != i {
            lemma_value_at(s, j);
        }
    }
    assert(to_map(t) =~= to_map(s).insert(e.0@, e.1));
}

/// Finds the index of key `k`.
pub fn find_key<V>(s: &Vec<(String, V)>, k: &String) -> (r: Option<usize>)
    ensures
        match r {
            Some(i) => i < s@.len() && s@[i as int].0@ == k@,
            None => !has_key(s@, k@),
        },
{
    let mut i: usize = 0;
    while i < s.len()
        invariant
            i <= s@.len(),
            forall|j: int| 0 <= j < i ==> s@[j].0@ != k@,
        decreases s@.len() - i,
    {
        if s[i].0 == *k {
            return Some(i);
        }
        i += 1;
    }
    None
}

/// Whether `v` holds the name `n`.
pub fn contains_name(v: &Vec<String>, n: &String) -> (r: bool)
    ensures
        r == names(v@).contains(n@),
{
    let mut i: usize = 0;
    while i < v.len()
        invariant
            i <= v@.len(),
            forall|j: int| 0 <= j < i ==> v@[j]@ != n@,
        decreases v@.len() - i,
    {
        if v[i] == *n {
            assert(names(v@)[i as int] == n@);
            return true;
        }
        i += 1;
    }
    assert(!names(v@).contains(n@)) by {
        if names(v@).contains(n@) {
            let j = choose|j: int| 0 <= j < names(v@).len() && names(v@)[j] == n@;
            assert(v@[j]@ == n@);
        }
    }
    false
}


/// Stores `value` under `key`, replacing what stood there.
pub fn put<V>(s: &mut Vec<(String, V)>, key: String, value: V)
    requires
        keys_unique(old(s)@),
    ensures
        keys_unique(final(s)@),
        to_map(final(s)@) == to_map(old(s)@).insert(key@, value),
{
    match find_key(s, &key) {
        Some(i) => {
            proof {
                lemma_set(s@, i as int, (key, value));
            }
            s.set(i, (key, value));
        },
        None => {
            proof {
                lemma_push(s@, (key, value));
            }
            s.push((key, value));
        },
    }
}

/// Drops the pairs whose key is one of `ns`, keeping the order of the rest.
pub fn remove_keys<V>(s: Vec<(String, V)>, ns: &Vec<String>) -> (r: Vec<(String, V)>)
    requires
        keys_unique(s@),
    ensures
        keys_unique(r@),
        to_map(r@) == to_map(s@).remove_keys(names(ns@).to_set()),
{
    let ghost orig = s@;
    let ghost drop = names(ns@).to_set();
    let mut rest = s;
    let mut out: Vec<(String, V)> = Vec::new();
    let ghost mut k: int = 0;
    proof {
        assert(orig.take(0) =~= Seq::<(String, V)>::empty());
        assert(to_map(orig.take(0)) =~= Map::<Seq<char>, V>::empty());
        assert(to_map(out@) =~= Map::<Seq<char>, V>::empty());
        assert(rest@ =~= orig.skip(0));
    }
    while rest.len() > 0
        invariant
            0 <= k <= orig.len(),
            keys_unique(orig),
            rest@ == orig.skip(k),
            keys_unique(out@),
            to_map(out@) == to_map(orig.take(k)).remove_keys(drop),
            keys_unique(orig.take(k)),
            drop == names(ns@).to_set(),
        decreases rest@.len(),
    {
        let e = rest.remove(0);
        proof {
            assert(e == orig[k]);
            assert(orig.take(k + 1) =~= orig.take(k).push(e));
            assert(rest@ =~= orig.skip(k + 1));
            assert(!has_key(orig.take(k), e.0@)) by {
                if has_key(orig.take(k), e.0@) {
                    let j = choose|j: int| 0 <= j < orig.take(k).len() && orig.take(k)[j].0@ == e.0@;
                    assert(orig[j].0@ == orig[k].0@);
                }
            }
            lemma_push(orig.take(k), e);
        }
        if contains_name(ns, &e.0) {
            proof {
                assert(to_map(orig.take(k + 1)).remove_keys(drop) =~= to_map(orig.take(k)).remove_keys(drop));
            }
        } else {
            proof {
                assert(!has_key(out@, e.0@)) by {
                    if has_key(out@, e.0@) {
                        let j = choose|j: int| 0 <= j < out@.len() && out@[j].0@ == e.0@;
                        lemma_value_at(out@, j);
                    }
                }
                lemma_push(out@, e);
                assert(to_map(orig.take(k + 1)).remove_keys(drop) =~= to_map(orig.take(k)).remove_keys(drop).insert(e.0@, e.1));
            }
            out.push(e);
        }
        proof {
            k = k + 1;
        }
    }
    proof {
        assert(orig.take(k) =~= orig);
    }
    out
}

/// A copy of a list of names.
pub fn clone_names(v: &Vec<String>) -> (r: Vec<String>)
    ensures
        r@ == v@,
{
    let mut r: Vec<String> = Vec::new();
    let mut i: usize = 0;
    while i < v.len()
        invariant
            i <= v@.len(),
            r@ == v@.take(i as int),
        decreases v@.len() - i,
    {
        r.push(v[i].clone());
        proof {
            assert(v@.take(i + 1) =~= v@.take(i as int).push(v@[i as int]));
        }
        i += 1;
    }
    proof {
        assert(v@.take(v@.len() as int) =~= v@);
    }
    r
}

/// Appends copies of `v` to `out`.
pub fn extend_names(out: &mut Vec<String>, v: &Vec<String>)
    ensures
        names(final(out)@) == names(old(out)@) + names(v@),
{
    let ghost start = out@;
    let mut i: usize = 0;
    while i < v.len()
        invariant
            i <= v@.len(),
            out@ == start + v@.take(i as int),
        decreases v@.len() - i,
    {
        out.push(v[i].clone());
        proof {
            assert(v@.take(i + 1) =~= v@.take(i as int).push(v@[i as int]));
            assert(start + v@.take(i + 1) =~= (start + v@.take(i as int)).push(v@[i as int]));
        }
        i += 1;
    }
    proof {
        assert(v@.take(v@.len() as int) =~= v@);
        assert(names(out@) =~= names(start) + names(v@));
    }
}

pub proof fn lemma_names_push(v: Seq<String>, s: String)
    ensures
        forall|n: Seq<char>| #[trigger] names(v.push(s)).contains(n) == (names(v).contains(n) || n == s@),
{
    assert(names(v.push(s)) =~= names(v).push(s@));
    assert forall|n: Seq<char>| #[trigger] names(v.push(s)).contains(n) == (names(v).contains(n) || n == s@) by {
        if names(v).contains(n) {
            let k = choose|k: int| 0 <= k < names(v).len() && names(v)[k] == n;
            assert(names(v.push(s))[k] == n);
        }
        if n == s@ {
            assert(names(v.push(s))[v.len() as int] == n);
        }
    }
}

/// Removing the pair at an index removes its key from the map.
pub proof fn lemma_remove_at<V>(s: Seq<(String, V)>, i: int)
    requires
        keys_unique(s),
        0 <= i < s.len(),
    ensures
        keys_unique(s.remove(i)),
        to_map(s.remove(i)) == to_map(s).remove(s[i].0@),
{
    let t = s.remove(i);
    let k = s[i].0@;
    assert forall|a: int, b: int|
        0 <= a < t.len() && 0 <= b < t.len() && #[trigger] t[a].0@ == #[trigger] t[b].0@ implies a == b by {
        let sa = if a < i { a } else { a + 1 };
        let sb = if b < i { b } else { b + 1 };
        assert(t[a] == s[sa] && t[b] == s[sb]);
    }
    assert forall|x: Seq<char>| #[trigger] has_key(t, x) == (has_key(s, x) && x != k) by {
        if has_key(t, x) {
            let a = choose|a: int| 0 <= a < t.len() && t[a].0@ == x;
            let sa = if a < i { a } else { a + 1 };
            assert(s[sa].0@ == x);
            assert(sa != i);
        }
        if has_key(s, x) && x != k {
            let a = choose|a: int| 0 <= a < s.len() && s[a].0@ == x;
            assert(a != i);
            let ta = if a < i { a } else { a - 1 };
            assert(t[ta].0@ == x);
        }
    }
    assert forall|x: Seq<char>| has_key(t, x) implies #[trigger] value_of(t, x) == to_map(s).remove(k)[x] by {
        let a = choose|a: int| 0 <= a < t.len() && t[a].0@ == x;
        let sa = if a < i { a } else { a + 1 };
        lemma_value_at(t, a);
        lemma_value_at(s, sa);
    }
    assert(to_map(t) =~= to_map(s).remove(k));
}

/// Giving the pair at an index a fresh key moves its value to that key.
pub proof fn lemma_rekey<V>(s: Seq<(String, V)>, i: int, e: (String, V))
    requires
        keys_unique(s),
        0 <= i < s.len(),
        !has_key(s, e.0@),
    ensures
        keys_unique(s.update(i, e)),
        to_map(s.update(i, e)) == to_map(s).remove(s[i].0@).insert(e.0@, e.1),
{
    let t = s.update(i, e);
    let k = s[i].0@;
    assert forall|a: int, b: int|
        0 <= a < t.len() && 0 <= b < t.len() && #[trigger] t[a].0@ == #[trigger] t[b].0@ implies a == b by {
        if a == i && b != i {
            assert(s[b].0@ == e.0@);
        } else if b == i && a != i {
            assert(s[a].0@ == e.0@);
        } else if a != i && b != i {
            assert(s[a].0@ == s[b].0@);
        }
    }
    assert forall|x: Seq<char>| #[trigger] has_key(t, x) == ((has_key(s, x) && x != k) || x == e.0@) by {
        if has_key(t, x) {
            let a = choose|a: int| 0 <= a < t.len() && t[a].0@ == x;
            if a != i {
                assert(s[a].0@ == x);
            }
        }
        if has_key(s, x) && x != k {
            let a = choose|a: int| 0 <= a < s.len() && s[a].0@ == x;
            assert(t[a].0@ == x);
        }
        if x == e.0@ {
            assert(t[i].0@ == x);
        }
    }
    assert forall|x: Seq<char>| has_key(t, x) implies #[trigger] value_of(t, x) == to_map(s).remove(k).insert(e.0@, e.1)[x] by {
        let a = choose|a: int| 0 <= a < t.len() && t[a].0@ == x;
        lemma_value_at(t, a);
        if a != i {
            lemma_value_at(s, a);
        }
    }
    assert(to_map(t) =~= to_map(s).remove(k).insert(e.0@, e.1));
}

} // verus!
