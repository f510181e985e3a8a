//! Vectors of `(String, value)` entries with distinct keys, read as maps from
//! the keys' text to the values' views.
//!
//! The library keys its maps and sets by strings. vstd specifies std's
//! `HashMap` and `HashSet` only for key types that obey its hash-table key
//! model, which covers the integer types, `bool` and boxes of them but not
//! `String`; for a `String` key nothing of an insert or a lookup can be
//! proved. So these maps are vectors with distinct keys.

use vstd::prelude::*;

verus! {

/// No two entries share a key.
pub open spec fn distinct_keys<V>(s: Seq<(String, V)>) -> bool {
    forall|i: int, j: int| 0 <= i < s.len() && 0 <= j < s.len() && i != j ==> s[i].0@ != s[j].0@
}

/// Some entry has the key `k`.
pub open spec fn has_key<V>(s: Seq<(String, V)>, k: Seq<char>) -> bool {
    exists|i: int| 0 <= i < s.len() && s[i].0@ == k
}

/// The map from each key to the view of the value stored under it.
pub open spec fn key_map<V: View>(s: Seq<(String, V)>) -> Map<Seq<char>, V::V> {
    Map::new(
        |k: Seq<char>| has_key(s, k),
        |k: Seq<char>| s[choose|i: int| 0 <= i < s.len() && s[i].0@ == k].1@,
    )
}

/// The entry at `i` is what the map holds under its key.
pub proof fn lemma_key_map_at<V: View>(s: Seq<(String, V)>, i: int)
    requires
        distinct_keys(s),
        0 <= i < s.len(),
    ensures
        key_map(s).contains_key(s[i].0@),
        key_map(s)[s[i].0@] == s[i].1@,
{
    let k = s[i].0@;
    assert(has_key(s, k));
    let j = choose|j: int| 0 <= j < s.len() && s[j].0@ == k;
    assert(j == i);
}

/// Appending an entry under a new key adds that key to the map.
pub proof fn lemma_key_map_push<V: View>(s: Seq<(String, V)>, k: String, v: V)
    requires
        distinct_keys(s),
        !has_key(s, k@),
    ensures
        distinct_keys(s.push((k, v))),
        key_map(s.push((k, v))) == key_map(s).insert(k@, v@),
{
    let t = s.push((k, v));
    assert(distinct_keys(t));
    assert forall|key: Seq<char>| #[trigger] has_key(t, key) == (has_key(s, key) || key == k@) by {
        if has_key(s, key) {
            let i = choose|i: int| 0 <= i < s.len() && s[i].0@ == key;
            assert(t[i] == s[i]);
        }
        if key == k@ {
            assert(t[s.len() as int].0@ == key);
        }
        if has_key(t, key) && key != k@ {
            let i = choose|i: int| 0 <= i < t.len() && t[i].0@ == key;
            assert(i < s.len());
            assert(s[i] == t[i]);
        }
    }
    assert forall|key: Seq<char>| #[trigger] key_map(t).contains_key(key) implies key_map(t)[key]
        == key_map(s).insert(k@, v@)[key] by {
        let i = choose|i: int| 0 <= i < t.len() && t[i].0@ == key;
        lemma_key_map_at(t, i);
        if i < s.len() {
            assert(t[i] == s[i]);
            lemma_key_map_at(s, i);
        }
    }
    assert(key_map(t) =~= key_map(s).insert(k@, v@));
}

/// Replacing the value of an entry replaces the map's value under its key.
pub proof fn lemma_key_map_update<V: View>(s: Seq<(String, V)>, i: int, v: V)
    requires
        distinct_keys(s),
        0 <= i < s.len(),
    ensures
        distinct_keys(s.update(i, (s[i].0, v))),
        key_map(s.update(i, (s[i].0, v))) == key_map(s).insert(s[i].0@, v@),
{
    let t = s.update(i, (s[i].0, v));
    assert(distinct_keys(t));
    assert forall|key: Seq<char>| #[trigger] has_key(t, key) == has_key(s, key) by {
        if has_key(s, key) {
            let j = choose|j: int| 0 <= j < s.len() && s[j].0@ == key;
            assert(t[j].0@ == key);
        }
        if has_key(t, key) {
            let j = choose|j: int| 0 <= j < t.len() && t[j].0@ == key;
            assert(s[j].0@ == key);
        }
    }
    lemma_key_map_at(s, i);
    assert forall|key: Seq<char>| #[trigger] key_map(t).contains_key(key) implies key_map(t)[key]
        == key_map(s).insert(s[i].0@, v@)[key] by {
        let j = choose|j: int| 0 <= j < t.len() && t[j].0@ == key;
        lemma_key_map_at(t, j);
        if j != i {
            assert(t[j] == s[j]);
            lemma_key_map_at(s, j);
        }
    }
    assert(key_map(t) =~= key_map(s).insert(s[i].0@, v@));
}

/// With distinct keys, the map is finite and has one key per entry.
pub proof fn lemma_key_map_len<V: View>(s: Seq<(String, V)>)
    requires
        distinct_keys(s),
    ensures
        key_map(s).dom().finite(),
        key_map(s).dom().len() == s.len(),
    decreases s.len(),
{
    if s.len() == 0 {
        assert(key_map(s).dom() =~= Set::empty());
    } else {
        let p = s.drop_last();
        assert(distinct_keys(p));
        lemma_key_map_len(p);
        assert(!has_key(p, s.last().0@)) by {
            if has_key(p, s.last().0@) {
                let i = choose|i: int| 0 <= i < p.len() && p[i].0@ == s.last().0@;
                assert(s[i] == p[i]);
            }
        }
        lemma_key_map_push(p, s.last().0, s.last().1);
        assert(p.push((s.last().0, s.last().1)) =~= s);
    }
}

/// The index of the entry whose key is `k`, if any.
pub fn find_key<V>(s: &Vec<(String, V)>, k: &String) -> (r: Option<usize>)
    ensures
        match r {
            Some(i) => i < s@.len() && s@[i as int].0@ == k@,
            None => !has_key(s@, k@),
        },
{
    let mut i: usize = 0;
    while i < s.len()
        invariant
            i <= s@.len(),
            forall|j: int| 0 <= j < i ==> s@[j].0@ != k@,
        decreases s@.len() - i,
    {
        if s[i].0 == *k {
            return Some(i);
        }
        i = i + 1;
    }
    None
}

} // verus!
