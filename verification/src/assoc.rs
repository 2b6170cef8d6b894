//! Association lists keyed by character sequences: the word tables of the
//! engines are kept as lists of entries with distinct keys.

use vstd::prelude::*;

verus! {

/// The map that an association list stands for; a later entry for a key
/// replaces an earlier one.
pub open spec fn assoc_map<V>(s: Seq<(Seq<char>, V)>) -> Map<Seq<char>, V>
    decreases s.len(),
{
    if s.len() == 0 {
        Map::empty()
    } else {
        assoc_map(s.drop_last()).insert(s.last().0, s.last().1)
    }
}

/// No two entries share a key.
pub open spec fn keys_distinct<V>(s: Seq<(Seq<char>, V)>) -> bool {
    forall|i: int, j: int| 0 <= i < j < s.len() ==> s[i].0 != s[j].0
}

/// A key is in the map exactly when some entry has it.
pub proof fn lemma_assoc_map_dom<V>(s: Seq<(Seq<char>, V)>, k: Seq<char>)
    ensures
        assoc_map(s).contains_key(k) <==> exists|i: int| 0 <= i < s.len() && s[i].0 == k,
    decreases s.len(),
{
    if s.len() > 0 {
        lemma_assoc_map_dom(s.drop_last(), k);
        if exists|i: int| 0 <= i < s.len() && s[i].0 == k {
            let i = choose|i: int| 0 <= i < s.len() && s[i].0 == k;
            if i < s.len() - 1 {
                assert(s.drop_last()[i].0 == k);
            }
        }
        if exists|i: int| 0 <= i < s.len() - 1 && s.drop_last()[i].0 == k {
            let i = choose|i: int| 0 <= i < s.len() - 1 && s.drop_last()[i].0 == k;
            assert(s[i].0 == k);
        }
    }
}

/// With distinct keys, the map gives each entry's value for its key.
pub proof fn lemma_assoc_map_get<V>(s: Seq<(Seq<char>, V)>, i: int)
    requires
        keys_distinct(s),
        0 <= i < s.len(),
    ensures
        assoc_map(s).contains_key(s[i].0),
        assoc_map(s)[s[i].0] == s[i].1,
    decreases s.len(),
{
    if i < s.len() - 1 {
        assert(keys_distinct(s.drop_last()));
        lemma_assoc_map_get(s.drop_last(), i);
        assert(s.drop_last()[i] == s[i]);
    }
}

/// Replacing the value of an entry updates the map at its key.
pub proof fn lemma_assoc_map_update<V>(s: Seq<(Seq<char>, V)>, i: int, v: V)
    requires
        keys_distinct(s),
        0 <= i < s.len(),
    ensures
        keys_distinct(s.update(i, (s[i].0, v))),
        assoc_map(s.update(i, (s[i].0, v))) == assoc_map(s).insert(s[i].0, v),
{
    let t = s.update(i, (s[i].0, v));
    let k = s[i].0;
    assert(keys_distinct(t)) by {
        assert forall|a: int, b: int| 0 <= a < b < t.len() implies t[a].0 != t[b].0 by {
            assert(t[a].0 == s[a].0 && t[b].0 == s[b].0);
        }
    }
    assert forall|key: Seq<char>| #[trigger] assoc_map(t).contains_key(key) == assoc_map(s).insert(k, v).contains_key(key) by {
        lemma_assoc_map_dom(t, key);
        lemma_assoc_map_dom(s, key);
        if exists|j: int| 0 <= j < s.len() && s[j].0 == key {
            let j = choose|j: int| 0 <= j < s.len() && s[j].0 == key;
            assert(t[j].0 == key);
        }
        if exists|j: int| 0 <= j < t.len() && t[j].0 == key {
            let j = choose|j: int| 0 <= j < t.len() && t[j].0 == key;
            assert(s[j].0 == key);
        }
    }
    assert forall|key: Seq<char>| #[trigger] assoc_map(t).contains_key(key) implies assoc_map(t)[key] == assoc_map(s).insert(k, v)[key] by {
        lemma_assoc_map_dom(t, key);
        let j = choose|j: int| 0 <= j < t.len() && t[j].0 == key;
        lemma_assoc_map_get(t, j);
        lemma_assoc_map_get(s, j);
        if j != i {
            assert(t[j] == s[j]);
        }
    }
    assert(assoc_map(t) =~= assoc_map(s).insert(k, v));
}

/// Adding an entry with a new key extends the map.
pub proof fn lemma_assoc_map_push<V>(s: Seq<(Seq<char>, V)>, k: Seq<char>, v: V)
    requires
        keys_distinct(s),
        forall|j: int| 0 <= j < s.len() ==> s[j].0 != k,
    ensures
        keys_distinct(s.push((k, v))),
        assoc_map(s.push((k, v))) == assoc_map(s).insert(k, v),
{
    assert(s.push((k, v)).drop_last() == s);
}

/// With distinct keys, the map has one key per entry.
pub proof fn lemma_assoc_map_len<V>(s: Seq<(Seq<char>, V)>)
    requires
        keys_distinct(s),
    ensures
        assoc_map(s).dom().finite(),
        assoc_map(s).dom().len() == s.len(),
    decreases s.len(),
{
    if s.len() > 0 {
        let t = s.drop_last();
        assert(keys_distinct(t));
        lemma_assoc_map_len(t);
        lemma_assoc_map_dom(t, s.last().0);
        assert(!assoc_map(t).contains_key(s.last().0));
    }
}

/// Index of the entry whose key is `key`, if any.
pub fn find_key<V>(entries: &Vec<(Vec<char>, V)>, key: &[char]) -> (r: Option<usize>)
    ensures
        r matches Some(i) ==> i < entries@.len() && entries@[i as int].0@ == key@,
        r is None ==> forall|j: int| 0 <= j < entries@.len() ==> entries@[j].0@ != key@,
{
    let n = entries.len();
    let mut i: usize = 0;
    while i < n
        invariant
            i <= n,
            n == entries@.len(),
            forall|j: int| 0 <= j < i ==> entries@[j].0@ != key@,
        decreases n - i,
    {
        if chars_equal(entries[i].0.as_slice(), key) {
            return Some(i);
        }
        i = i + 1;
    }
    None
}

/// Whether two character sequences are equal.
pub fn chars_equal(a: &[char], b: &[char]) -> (r: bool)
    ensures
        r == (a@ == b@),
{
    if a.len() != b.len() {
        return false;
    }
    let n = a.len();
    let mut i: usize = 0;
    while i < n
        invariant
            i <= n,
            n == a@.len(),
            n == b@.len(),
            forall|j: int| 0 <= j < i ==> a@[j] == b@[j],
        decreases n - i,
    {
        if a[i] != b[i] {
            return false;
        }
        i = i + 1;
    }
    assert(a@ =~= b@);
    true
}

/// Whether `v` holds a sequence equal to `x`.
pub fn contains_chars(v: &Vec<Vec<char>>, x: &[char]) -> (r: bool)
    ensures
        r == v@.map_values(|e: Vec<char>| e@).contains(x@),
{
    let ghost views = v@.map_values(|e: Vec<char>| e@);
    let n = v.len();
    let mut i: usize = 0;
    while i < n
        invariant
            i <= n,
            n == v@.len(),
            views == v@.map_values(|e: Vec<char>| e@),
            forall|j: int| 0 <= j < i ==> views[j] != x@,
        decreases n - i,
    {
        if chars_equal(v[i].as_slice(), x) {
            assert(views[i as int] == x@);
            return true;
        }
        i = i + 1;
    }
    false
}


/// An association list whose values need no view.
pub open spec fn plain_view<V>(v: Seq<(Vec<char>, V)>) -> Seq<(Seq<char>, V)> {
    v.map_values(|e: (Vec<char>, V)| (e.0@, e.1))
}

/// Sets the value of `key`, replacing an earlier one.
pub fn assoc_insert<V>(entries: &mut Vec<(Vec<char>, V)>, key: Vec<char>, value: V)
    requires
        keys_distinct(plain_view(old(entries)@)),
    ensures
        keys_distinct(plain_view(final(entries)@)),
        assoc_map(plain_view(final(entries)@)) == assoc_map(plain_view(old(entries)@)).insert(key@, value),
{
    let ghost before = plain_view(entries@);
    let ghost k = key@;
    match find_key(entries, key.as_slice()) {
        Some(i) => {
            proof {
                lemma_assoc_map_update(before, i as int, value);
            }
            let ghost v = value;
            entries.set(i, (key, value));
            assert(plain_view(entries@) =~= before.update(i as int, (k, v)));
        },
        None => {
            proof {
                assert forall|j: int| 0 <= j < before.len() implies before[j].0 != k by {
                    assert(before[j].0 == entries@[j].0@);
                }
                lemma_assoc_map_push(before, k, value);
            }
            let ghost v = value;
            entries.push((key, value));
            assert(plain_view(entries@) =~= before.push((k, v)));
        },
    }
}

/// The value stored for `key`, if any.
pub fn assoc_get<V: Copy>(entries: &Vec<(Vec<char>, V)>, key: &[char]) -> (r: Option<V>)
    requires
        keys_distinct(plain_view(entries@)),
    ensures
        r == (if assoc_map(plain_view(entries@)).contains_key(key@) {
            Some(assoc_map(plain_view(entries@))[key@])
        } else {
            None::<V>
        }),
{
    let ghost pv = plain_view(entries@);
    proof {
        lemma_assoc_map_dom(pv, key@);
    }
    match find_key(entries, key) {
        Some(i) => {
            proof {
                lemma_assoc_map_get(pv, i as int);
            }
            Some(entries[i].1)
        },
        None => {
            proof {
                assert forall|j: int| 0 <= j < pv.len() implies pv[j].0 != key@ by {
                    assert(pv[j].0 == entries@[j].0@);
                }
            }
            None
        },
    }
}

} // verus!
