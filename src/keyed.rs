//! Collections keyed by byte strings, kept as lists of pairs with distinct
//! keys, and the byte-wise lexicographic order on keys.
use vstd::prelude::*;

verus! {

/// Whether `a` comes strictly before `b`, byte by byte, a proper prefix first.
pub open spec fn lex_lt(a: Seq<u8>, b: Seq<u8>) -> bool
    decreases a.len(),
{
    if a.len() == 0 {
        b.len() > 0
    } else if b.len() == 0 {
        false
    } else if a[0] != b[0] {
        a[0] < b[0]
    } else {
        lex_lt(a.drop_first(), b.drop_first())
    }
}

/// The order is strict: nothing comes before itself.
pub proof fn lemma_lex_irreflexive(a: Seq<u8>)
    ensures
        !lex_lt(a, a),
    decreases a.len(),
{
    if a.len() > 0 {
        lemma_lex_irreflexive(a.drop_first());
    }
}

/// The order is transitive.
pub proof fn lemma_lex_transitive(a: Seq<u8>, b: Seq<u8>, c: Seq<u8>)
    requires
        lex_lt(a, b),
        lex_lt(b, c),
    ensures
        lex_lt(a, c),
    decreases a.len(),
{
    if a.len() > 0 && b.len() > 0 && c.len() > 0 && a[0] == b[0] && b[0] == c[0] {
        lemma_lex_transitive(a.drop_first(), b.drop_first(), c.drop_first());
    }
}

/// The order is total: of two distinct keys one comes first.
pub proof fn lemma_lex_total(a: Seq<u8>, b: Seq<u8>)
    requires
        a != b,
    ensures
        lex_lt(a, b) || lex_lt(b, a),
    decreases a.len(),
{
    if a.len() > 0 && b.len() > 0 && a[0] == b[0] {
        if a.drop_first() == b.drop_first() {
            assert(a =~= seq![a[0]] + a.drop_first());
            assert(b =~= seq![b[0]] + b.drop_first());
        }
        lemma_lex_total(a.drop_first(), b.drop_first());
    } else if a.len() == 0 && b.len() == 0 {
        assert(a =~= b);
    }
}

/// Whether `a` comes strictly before `b`.
pub fn less_than(a: &[u8], b: &[u8]) -> (r: bool)
    ensures
        r == lex_lt(a@, b@),
{
    let mut i: usize = 0;
    assert(a@.skip(0) =~= a@ && b@.skip(0) =~= b@);
    while i < a.len() && i < b.len() && a[i] == b[i]
        invariant
            i <= a@.len(),
            i <= b@.len(),
            lex_lt(a@, b@) == lex_lt(a@.skip(i as int), b@.skip(i as int)),
        decreases a@.len() - i,
    {
        assert(a@.skip(i as int).drop_first() =~= a@.skip(i + 1));
        assert(b@.skip(i as int).drop_first() =~= b@.skip(i + 1));
        i += 1;
    }
    if i < a.len() && i < b.len() {
        a[i] < b[i]
    } else {
        i == a.len() && i < b.len()
    }
}

/// Whether two byte strings are equal.
pub fn same_bytes(a: &[u8], b: &[u8]) -> (r: bool)
    ensures
        r == (a@ == b@),
{
    if a.len() != b.len() {
        return false;
    }
    let mut i: usize = 0;
    while i < a.len()
        invariant
            a@.len() == b@.len(),
            i <= a@.len(),
            forall|j: int| 0 <= j < i ==> a@[j] == b@[j],
        decreases a@.len() - i,
    {
        if a[i] != b[i] {
            return false;
        }
        i += 1;
    }
    assert(a@ =~= b@);
    true
}

/// No two pairs share a key.
pub open spec fn keys_unique<V>(s: Seq<(Seq<u8>, V)>) -> bool {
    forall|i: int, j: int| 0 <= i < j < s.len() ==> s[i].0 != s[j].0
}

/// The keys come in strictly ascending order.
pub open spec fn keys_sorted<V>(s: Seq<(Seq<u8>, V)>) -> bool {
    forall|i: int, j: int| 0 <= i < j < s.len() ==> lex_lt(s[i].0, s[j].0)
}

pub open spec fn has_key<V>(s: Seq<(Seq<u8>, V)>, k: Seq<u8>) -> bool {
    exists|i: int| 0 <= i < s.len() && s[i].0 == k
}

/// The map that a list of pairs stands for.
pub open spec fn map_of<V>(s: Seq<(Seq<u8>, V)>) -> Map<Seq<u8>, V> {
    Map::new(|k: Seq<u8>| has_key(s, k), |k: Seq<u8>| s[choose|i: int| 0 <= i < s.len() && s[i].0 == k].1)
}

/// Sorted keys are distinct.
pub proof fn lemma_sorted_unique<V>(s: Seq<(Seq<u8>, V)>)
    requires
        keys_sorted(s),
    ensures
        keys_unique(s),
{
    assert forall|i: int, j: int| 0 <= i < j < s.len() implies s[i].0 != s[j].0 by {
        lemma_lex_irreflexive(s[i].0);
    }
}

/// Each pair of a list with distinct keys stands in its map.
pub proof fn lemma_map_of_at<V>(s: Seq<(Seq<u8>, V)>, i: int)
    requires
        keys_unique(s),
        0 <= i < s.len(),
    ensures
        map_of(s).contains_key(s[i].0),
        map_of(s)[s[i].0] == s[i].1,
{
    let k = s[i].0;
    assert(has_key(s, k));
    let j = choose|j: int| 0 <= j < s.len() && s[j].0 == k;
    if j != i {
        if j < i {
            assert(s[j].0 != s[i].0);
        } else {
            assert(s[i].0 != s[j].0);
        }
    }
}

/// A list that holds `(k, v)`, and otherwise the pairs of `s` whose key is not
/// `k`, stands for the map of `s` with `k` set to `v`.
pub proof fn lemma_map_of_put<V>(s: Seq<(Seq<u8>, V)>, t: Seq<(Seq<u8>, V)>, k: Seq<u8>, v: V)
    requires
        keys_unique(s),
        keys_unique(t),
        exists|j: int| 0 <= j < t.len() && t[j] == (k, v),
        forall|j: int| 0 <= j < t.len() && t[j].0 != k ==> exists|i: int| 0 <= i < s.len() && s[i] == t[j],
        forall|i: int| 0 <= i < s.len() && s[i].0 != k ==> exists|j: int| 0 <= j < t.len() && t[j] == s[i],
    ensures
        map_of(t) == map_of(s).insert(k, v),
{
    let jk = choose|j: int| 0 <= j < t.len() && t[j] == (k, v);
    lemma_map_of_at(t, jk);
    assert forall|x: Seq<u8>| #[trigger] map_of(t).contains_key(x) implies map_of(s).insert(k, v).contains_key(x)
        && map_of(t)[x] == map_of(s).insert(k, v)[x] by {
        if x != k {
            let j = choose|j: int| 0 <= j < t.len() && t[j].0 == x;
            lemma_map_of_at(t, j);
            let i = choose|i: int| 0 <= i < s.len() && s[i] == t[j];
            lemma_map_of_at(s, i);
        }
    }
    assert forall|x: Seq<u8>| #[trigger] map_of(s).insert(k, v).contains_key(x) implies map_of(t).contains_key(x) by {
        if x != k {
            let i = choose|i: int| 0 <= i < s.len() && s[i].0 == x;
            let j = choose|j: int| 0 <= j < t.len() && t[j] == s[i];
            assert(t[j].0 == x);
        }
    }
    assert(map_of(t) =~= map_of(s).insert(k, v));
}


/// A list of pairs seen through the keys' views.
pub open spec fn pairs<T>(v: Seq<(Vec<u8>, T)>) -> Seq<(Seq<u8>, T)> {
    v.map_values(|p: (Vec<u8>, T)| (p.0@, p.1))
}

/// The position of `key` in the list, if it is there.
pub fn find_key<T>(list: &Vec<(Vec<u8>, T)>, key: &[u8]) -> (r: Option<usize>)
    ensures
        match r {
            Some(i) => i < list@.len() && pairs(list@)[i as int].0 == key@,
            None => !has_key(pairs(list@), key@),
        },
{
    let mut i: usize = 0;
    while i < list.len()
        invariant
            i <= list@.len(),
            forall|j: int| 0 <= j < i ==> pairs(list@)[j].0 != key@,
        decreases list@.len() - i,
    {
        if same_bytes(list[i].0.as_slice(), key) {
            return Some(i);
        }
        i += 1;
    }
    None
}

/// Sets `key` to `val` in a list with distinct keys: the pair already under
/// `key` is replaced, or a new pair goes at the end.
pub fn put<T>(list: &mut Vec<(Vec<u8>, T)>, key: Vec<u8>, val: T)
    requires
        keys_unique(pairs(old(list)@)),
    ensures
        keys_unique(pairs(final(list)@)),
        map_of(pairs(final(list)@)) == map_of(pairs(old(list)@)).insert(key@, val),
{
    let ghost s = pairs(list@);
    let ghost k = key@;
    let ghost v = val;
    match find_key(list, key.as_slice()) {
        Some(i) => {
            list.set(i, (key, val));
            let ghost t = pairs(list@);
            assert(t =~= s.update(i as int, (k, v)));
            assert(t[i as int] == (k, v));
            assert forall|j: int| 0 <= j < s.len() && s[j].0 != k implies exists|m: int| 0 <= m < t.len() && t[m] == s[j] by {
                assert(t[j] == s[j]);
            }
            proof { lemma_map_of_put(s, t, k, v); }
        },
        None => {
            list.push((key, val));
            let ghost t = pairs(list@);
            assert(t =~= s.push((k, v)));
            assert(t[s.len() as int] == (k, v));
            assert forall|i: int| 0 <= i < s.len() implies t[i] == s[i] by {}
            proof { lemma_map_of_put(s, t, k, v); }
        },
    }
}

/// The first position whose key does not come before `key`.
fn lower_bound<T>(list: &Vec<(Vec<u8>, T)>, key: &[u8]) -> (p: usize)
    ensures
        p <= list@.len(),
        forall|i: int| 0 <= i < p ==> lex_lt(pairs(list@)[i].0, key@),
        p < list@.len() ==> !lex_lt(pairs(list@)[p as int].0, key@),
{
    let mut i: usize = 0;
    while i < list.len()
        invariant
            i <= list@.len(),
            forall|j: int| 0 <= j < i ==> lex_lt(pairs(list@)[j].0, key@),
        decreases list@.len() - i,
    {
        if !less_than(list[i].0.as_slice(), key) {
            return i;
        }
        i += 1;
    }
    i
}

/// Sets `key` to `val` in a list sorted by key, keeping it sorted: the pair
/// already under `key` is replaced, or a new pair goes in its place in order.
pub fn put_sorted<T>(list: &mut Vec<(Vec<u8>, T)>, key: Vec<u8>, val: T)
    requires
        keys_sorted(pairs(old(list)@)),
    ensures
        keys_sorted(pairs(final(list)@)),
        map_of(pairs(final(list)@)) == map_of(pairs(old(list)@)).insert(key@, val),
{
    let ghost s = pairs(list@);
    let ghost k = key@;
    let ghost v = val;
    proof { lemma_sorted_unique(s); }
    let p = lower_bound(list, key.as_slice());
    if p < list.len() && same_bytes(list[p].0.as_slice(), key.as_slice()) {
        list.set(p, (key, val));
        let ghost t = pairs(list@);
        assert(t =~= s.update(p as int, (k, v)));
        assert(t[p as int] == (k, v));
        assert forall|i: int, j: int| 0 <= i < j < t.len() implies lex_lt(t[i].0, t[j].0) by {
            assert(t[i].0 == s[i].0 && t[j].0 == s[j].0);
        }
        assert forall|j: int| 0 <= j < s.len() && s[j].0 != k implies exists|m: int| 0 <= m < t.len() && t[m] == s[j] by {
        assert(t[j] == s[j]);
    }
        proof { lemma_sorted_unique(t); }
        proof { lemma_map_of_put(s, t, k, v); }
    } else {
        proof {
            if p < s.len() {
                lemma_lex_total(s[p as int].0, k);
            }
        }
        list.insert(p, (key, val));
        let ghost t = pairs(list@);
        assert(t =~= s.insert(p as int, (k, v)));
        assert(t[p as int] == (k, v));
        assert forall|i: int, j: int| 0 <= i < j < t.len() implies lex_lt(t[i].0, t[j].0) by {
            if j < p {
                assert(t[i] == s[i] && t[j] == s[j]);
            } else if j == p {
                assert(t[i] == s[i]);
            } else {
                assert(t[j] == s[j - 1]);
                if j - 1 > p {
                    lemma_lex_transitive(k, s[p as int].0, s[j - 1].0);
                }
                if i < p {
                    assert(t[i] == s[i]);
                    lemma_lex_transitive(s[i].0, k, s[j - 1].0);
                } else if i > p {
                    assert(t[i] == s[i - 1]);
                }
            }
        }
        proof { lemma_sorted_unique(t); }
        assert forall|j: int| 0 <= j < t.len() && t[j].0 != k implies exists|i: int| 0 <= i < s.len() && s[i] == t[j] by {
            if j < p {
                assert(s[j] == t[j]);
            } else {
                assert(s[j - 1] == t[j]);
            }
        }
        assert forall|i: int| 0 <= i < s.len() && s[i].0 != k implies exists|j: int| 0 <= j < t.len() && t[j] == s[i] by {
            if i < p {
                assert(t[i] == s[i]);
            } else {
                assert(t[i + 1] == s[i]);
            }
        }
        proof { lemma_map_of_put(s, t, k, v); }
    }
}


/// Removing a pair from a list with distinct keys removes its key from the map.
pub proof fn lemma_map_of_remove<V>(s: Seq<(Seq<u8>, V)>, j: int)
    requires
        keys_unique(s),
        0 <= j < s.len(),
    ensures
        keys_unique(s.remove(j)),
        map_of(s.remove(j)) == map_of(s).remove(s[j].0),
{
    let t = s.remove(j);
    let k = s[j].0;
    assert forall|a: int, b: int| 0 <= a < b < t.len() implies t[a].0 != t[b].0 by {
        let a2 = if a < j { a } else { a + 1 };
        let b2 = if b < j { b } else { b + 1 };
        assert(t[a] == s[a2] && t[b] == s[b2]);
    }
    assert forall|x: Seq<u8>| #[trigger] map_of(t).contains_key(x) implies map_of(s).remove(k).contains_key(x)
        && map_of(t)[x] == map_of(s).remove(k)[x] by {
        let i = choose|i: int| 0 <= i < t.len() && t[i].0 == x;
        let i2 = if i < j { i } else { i + 1 };
        assert(t[i] == s[i2]);
        lemma_map_of_at(t, i);
        lemma_map_of_at(s, i2);
    }
    assert forall|x: Seq<u8>| #[trigger] map_of(s).remove(k).contains_key(x) implies map_of(t).contains_key(x) by {
        let i = choose|i: int| 0 <= i < s.len() && s[i].0 == x;
        assert(i != j);
        let i2 = if i < j { i } else { i - 1 };
        assert(t[i2] == s[i]);
    }
    assert(map_of(t) =~= map_of(s).remove(k));
}

/// Takes the value under `key` out of a list with distinct keys.
pub fn take_key<T>(list: &mut Vec<(Vec<u8>, T)>, key: &[u8]) -> (r: Option<T>)
    requires
        keys_unique(pairs(old(list)@)),
    ensures
        keys_unique(pairs(final(list)@)),
        map_of(pairs(final(list)@)) == map_of(pairs(old(list)@)).remove(key@),
        r == map_of(pairs(old(list)@)).get(key@),
{
    let ghost s = pairs(list@);
    match find_key(list, key) {
        Some(j) => {
            proof {
                lemma_map_of_at(s, j as int);
                lemma_map_of_remove(s, j as int);
            }
            let (_, v) = list.remove(j);
            assert(pairs(list@) =~= s.remove(j as int));
            Some(v)
        },
        None => {
            assert(map_of(s).remove(key@) =~= map_of(s));
            None
        },
    }
}

} // verus!
