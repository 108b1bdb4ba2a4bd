//! Small string-keyed association lists: the keyed results of this crate
//! (symbol and table lookups by name) keep one entry per key, and a later
//! insertion under an existing key replaces its value in place.

use vstd::prelude::*;
use crate::text::str_eq;

verus! {

/// No key occurs twice.
pub open spec fn assoc_unique<V>(v: Seq<(String, V)>) -> bool {
    forall|i: int, j: int| 0 <= i < j < v.len() ==> v[i].0@ != v[j].0@
}

/// The list as a map from keys to values.
pub open spec fn assoc_map<V>(v: Seq<(String, V)>) -> Map<Seq<char>, V>
    decreases v.len(),
{
    if v.len() == 0 {
        Map::empty()
    } else {
        assoc_map(v.drop_last()).insert(v.last().0@, v.last().1)
    }
}

/// With unique keys, the map holds exactly the list's entries.
pub proof fn lemma_assoc_map<V>(v: Seq<(String, V)>)
    requires
        assoc_unique(v),
    ensures
        forall|k: Seq<char>| #[trigger] assoc_map(v).contains_key(k) <==> exists|i: int| 0 <= i < v.len() && v[i].0@ == k,
        forall|i: int| 0 <= i < v.len() ==> #[trigger] assoc_map(v)[v[i].0@] == v[i].1,
    decreases v.len(),
{
    if v.len() > 0 {
        let p = v.drop_last();
        assert(assoc_unique(p));
        lemma_assoc_map(p);
        assert(assoc_map(v) == assoc_map(p).insert(v.last().0@, v.last().1));
        assert forall|k: Seq<char>| #[trigger] assoc_map(v).contains_key(k) <==> exists|i: int| 0 <= i < v.len() && v[i].0@ == k by {
            if assoc_map(v).contains_key(k) {
                if k == v.last().0@ {
                    assert(v[v.len() - 1].0@ == k);
                } else {
                    assert(assoc_map(p).contains_key(k));
                    let i = choose|i: int| 0 <= i < p.len() && p[i].0@ == k;
                    assert(v[i].0@ == k);
                }
            }
            if exists|i: int| 0 <= i < v.len() && v[i].0@ == k {
                let i = choose|i: int| 0 <= i < v.len() && v[i].0@ == k;
                if i < v.len() - 1 {
                    assert(p[i].0@ == k);
                }
            }
        }
        assert forall|i: int| 0 <= i < v.len() implies #[trigger] assoc_map(v)[v[i].0@] == v[i].1 by {
            if i < v.len() - 1 {
                assert(p[i] == v[i]);
                assert(v[i].0@ != v[v.len() - 1].0@);
                assert(assoc_map(p)[p[i].0@] == p[i].1);
            }
        }
    }
}

/// Whether `i` is the first position of the list holding `key`.
pub open spec fn first_with_key<V>(v: Seq<(String, V)>, key: Seq<char>, i: int) -> bool {
    &&& 0 <= i < v.len()
    &&& v[i].0@ == key
    &&& forall|j: int| 0 <= j < i ==> v[j].0@ != key
}

/// The first position of the list holding `key`, if any.
pub open spec fn assoc_index<V>(v: Seq<(String, V)>, key: Seq<char>) -> Option<int> {
    if exists|i: int| first_with_key(v, key, i) {
        Some(choose|i: int| first_with_key(v, key, i))
    } else {
        None
    }
}

/// The first position holding a key is unique.
pub proof fn lemma_assoc_index<V>(v: Seq<(String, V)>, key: Seq<char>, i: int)
    requires
        first_with_key(v, key, i),
    ensures
        assoc_index(v, key) == Some(i),
{
    let c = choose|c: int| first_with_key(v, key, c);
    assert(first_with_key(v, key, c));
    if c < i {
        assert(v[c].0@ != key);
    } else if i < c {
        assert(v[i].0@ != key);
    }
}

/// Where `key` first stands in the list.
pub fn assoc_find<V>(v: &Vec<(String, V)>, key: &str) -> (r: Option<usize>)
    ensures
        match r {
            Some(i) => i < v@.len() && v@[i as int].0@ == key@,
            None => forall|j: int| 0 <= j < v@.len() ==> v@[j].0@ != key@,
        },
        r matches Some(i) ==> assoc_index(v@, key@) == Some(i as int),
        r is None ==> assoc_index(v@, key@) is None,
{
    let mut i: usize = 0;
    while i < v.len()
        invariant
            i <= v@.len(),
            forall|j: int| 0 <= j < i ==> v@[j].0@ != key@,
        decreases v@.len() - i,
    {
        if str_eq(v[i].0.as_str(), key) {
            proof {
                lemma_assoc_index(v@, key@, i as int);
            }
            return Some(i);
        }
        i = i + 1;
    }
    assert(!exists|i: int| first_with_key(v@, key@, i));
    None
}

/// Sets the value under `key`: replaced in place when the key is present,
/// appended otherwise.
pub fn assoc_upsert<V>(v: &mut Vec<(String, V)>, key: String, val: V)
    requires
        assoc_unique(old(v)@),
    ensures
        assoc_unique(final(v)@),
        assoc_map(final(v)@) == assoc_map(old(v)@).insert(key@, val),
{
    let ghost old_v = v@;
    proof {
        lemma_assoc_map(old_v);
    }
    match assoc_find(v, key.as_str()) {
        Some(i) => {
            let ghost kv = key@;
            v.set(i, (key, val));
            proof {
                assert(assoc_unique(v@));
                lemma_assoc_map(v@);
                assert(assoc_map(v@) =~= assoc_map(old_v).insert(kv, val)) by {
                    assert forall|k: Seq<char>| #[trigger] assoc_map(v@).contains_key(k) <==> assoc_map(old_v).insert(kv, val).contains_key(k) by {
                        if exists|j: int| 0 <= j < old_v.len() && old_v[j].0@ == k {
                            let j = choose|j: int| 0 <= j < old_v.len() && old_v[j].0@ == k;
                            assert(v@[j].0@ == k);
                        }
                        if exists|j: int| 0 <= j < v@.len() && v@[j].0@ == k {
                            let j = choose|j: int| 0 <= j < v@.len() && v@[j].0@ == k;
                            assert(old_v[j].0@ == k);
                        }
                    }
                    assert forall|k: Seq<char>| #[trigger] assoc_map(v@).contains_key(k) implies assoc_map(v@)[k] == assoc_map(old_v).insert(kv, val)[k] by {
                        let j = choose|j: int| 0 <= j < v@.len() && v@[j].0@ == k;
                        assert(assoc_map(v@)[v@[j].0@] == v@[j].1);
                        if j != i {
                            assert(old_v[j] == v@[j]);
                            assert(assoc_map(old_v)[old_v[j].0@] == old_v[j].1);
                        }
                    }
                }
            }
        },
        None => {
            v.push((key, val));
            proof {
                assert(v@.drop_last() =~= old_v);
            }
        },
    }
}

} // verus!
