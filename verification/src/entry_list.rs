//! Lists of entries keyed by name, with one entry per name, modelled as maps.
use vstd::prelude::*;

verus! {

/// The model of an entry list: each key stands for the value of its entry.
pub open spec fn entries_map<V>(s: Seq<(Seq<char>, V)>) -> Map<Seq<char>, V> {
    Map::new(
        |k: Seq<char>| exists|i: int| 0 <= i < s.len() && s[i].0 == k,
        |k: Seq<char>| s[choose|i: int| 0 <= i < s.len() && s[i].0 == k].1,
    )
}

/// Whether no two entries of a list have the same key.
pub open spec fn keys_distinct<V>(s: Seq<(Seq<char>, V)>) -> bool {
    forall|i: int, j: int| 0 <= i < s.len() && 0 <= j < s.len() && i != j ==> s[i].0 != s[j].0
}

/// With distinct keys, the model maps the key of each entry to its value.
pub proof fn lemma_entries_map_index<V>(s: Seq<(Seq<char>, V)>, i: int)
    requires
        keys_distinct(s),
        0 <= i < s.len(),
    ensures
        entries_map(s).contains_key(s[i].0),
        entries_map(s)[s[i].0] == s[i].1,
{
    let k = s[i].0;
    assert(exists|j: int| 0 <= j < s.len() && s[j].0 == k);
    let j = choose|j: int| 0 <= j < s.len() && s[j].0 == k;
    assert(j == i);
}

/// The empty list models the empty map.
pub proof fn lemma_entries_map_empty<V>()
    ensures
        entries_map(Seq::<(Seq<char>, V)>::empty()) == Map::<Seq<char>, V>::empty(),
{
    assert(entries_map(Seq::<(Seq<char>, V)>::empty()) =~= Map::<Seq<char>, V>::empty());
}

/// Setting the value of an entry updates the model at its key.
pub proof fn lemma_entries_map_update<V>(s: Seq<(Seq<char>, V)>, i: int, v: V)
    requires
        keys_distinct(s),
        0 <= i < s.len(),
    ensures
        keys_distinct(s.update(i, (s[i].0, v))),
        entries_map(s.update(i, (s[i].0, v))) == entries_map(s).insert(s[i].0, v),
{
    let t = s.update(i, (s[i].0, v));
    assert forall|a: int, b: int| 0 <= a < t.len() && 0 <= b < t.len() && a != b implies t[a].0
        != t[b].0 by {
        assert(t[a].0 == s[a].0);
        assert(t[b].0 == s[b].0);
    }
    let m = entries_map(s).insert(s[i].0, v);
    assert forall|k: Seq<char>| #[trigger] entries_map(t).contains_key(k) <==> m.contains_key(k) by {
        if m.contains_key(k) {
            if k == s[i].0 {
                assert(t[i].0 == k);
            } else {
                let j = choose|j: int| 0 <= j < s.len() && s[j].0 == k;
                assert(t[j].0 == k);
            }
        }
        if entries_map(t).contains_key(k) {
            let j = choose|j: int| 0 <= j < t.len() && t[j].0 == k;
            assert(s[j].0 == k);
        }
    }
    assert forall|k: Seq<char>| #[trigger] entries_map(t).contains_key(k) implies entries_map(t)[k]
        == m[k] by {
        let j = choose|j: int| 0 <= j < t.len() && t[j].0 == k;
        lemma_entries_map_index(t, j);
        if j != i {
            lemma_entries_map_index(s, j);
        }
    }
    assert(entries_map(t) =~= m);
}

/// Appending an entry with a new key adds it to the model.
pub proof fn lemma_entries_map_push<V>(s: Seq<(Seq<char>, V)>, k: Seq<char>, v: V)
    requires
        keys_distinct(s),
        forall|j: int| 0 <= j < s.len() ==> #[trigger] s[j].0 != k,
    ensures
        keys_distinct(s.push((k, v))),
        entries_map(s.push((k, v))) == entries_map(s).insert(k, v),
{
    let t = s.push((k, v));
    assert forall|a: int, b: int| 0 <= a < t.len() && 0 <= b < t.len() && a != b implies t[a].0
        != t[b].0 by {
        if a < s.len() {
            assert(t[a] == s[a]);
        }
        if b < s.len() {
            assert(t[b] == s[b]);
        }
    }
    let m = entries_map(s).insert(k, v);
    assert forall|x: Seq<char>| #[trigger] entries_map(t).contains_key(x) <==> m.contains_key(x) by {
        if m.contains_key(x) {
            if x == k {
                assert(t[s.len() as int].0 == x);
            } else {
                let j = choose|j: int| 0 <= j < s.len() && s[j].0 == x;
                assert(t[j].0 == x);
            }
        }
        if entries_map(t).contains_key(x) {
            let j = choose|j: int| 0 <= j < t.len() && t[j].0 == x;
            if j < s.len() {
                assert(s[j].0 == x);
            }
        }
    }
    assert forall|x: Seq<char>| #[trigger] entries_map(t).contains_key(x) implies entries_map(t)[x]
        == m[x] by {
        let j = choose|j: int| 0 <= j < t.len() && t[j].0 == x;
        lemma_entries_map_index(t, j);
        if j < s.len() {
            assert(t[j] == s[j]);
            lemma_entries_map_index(s, j);
        }
    }
    assert(entries_map(t) =~= m);
}

/// Removing an entry removes its key from the model.
pub proof fn lemma_entries_map_remove<V>(s: Seq<(Seq<char>, V)>, i: int)
    requires
        keys_distinct(s),
        0 <= i < s.len(),
    ensures
        keys_distinct(s.remove(i)),
        entries_map(s.remove(i)) == entries_map(s).remove(s[i].0),
{
    let t = s.remove(i);
    let k = s[i].0;
    assert forall|a: int| 0 <= a < t.len() implies #[trigger] t[a] == s[if a < i { a } else { a + 1 }] by {}
    assert forall|a: int, b: int| 0 <= a < t.len() && 0 <= b < t.len() && a != b implies t[a].0
        != t[b].0 by {
        assert(t[a] == s[if a < i { a } else { a + 1 }]);
        assert(t[b] == s[if b < i { b } else { b + 1 }]);
    }
    let m = entries_map(s).remove(k);
    assert forall|x: Seq<char>| #[trigger] entries_map(t).contains_key(x) <==> m.contains_key(x) by {
        if m.contains_key(x) {
            let j = choose|j: int| 0 <= j < s.len() && s[j].0 == x;
            assert(j != i);
            let a = if j < i { j } else { j - 1 };
            assert(t[a] == s[if a < i { a } else { a + 1 }]);
            assert(t[a].0 == x);
        }
        if entries_map(t).contains_key(x) {
            let a = choose|a: int| 0 <= a < t.len() && t[a].0 == x;
            let j = if a < i { a } else { a + 1 };
            assert(t[a] == s[j]);
            assert(s[j].0 == x);
            assert(x != k);
        }
    }
    assert forall|x: Seq<char>| #[trigger] entries_map(t).contains_key(x) implies entries_map(t)[x]
        == m[x] by {
        let a = choose|a: int| 0 <= a < t.len() && t[a].0 == x;
        let j = if a < i { a } else { a + 1 };
        assert(t[a] == s[j]);
        lemma_entries_map_index(t, a);
        lemma_entries_map_index(s, j);
    }
    assert(entries_map(t) =~= m);
}

} // verus!
