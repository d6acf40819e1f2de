//! Association lists with unique string keys, viewed as maps. The stores in
//! this crate keep their entries in insertion order in a vector; these spec
//! functions and lemmas relate that vector to the map it denotes.

use vstd::prelude::*;

verus! {

/// No two entries share a key.
pub open spec fn keys_unique<V>(s: Seq<(String, V)>) -> bool {
    forall|i: int, j: int| 0 <= i < j < s.len() ==> s[i].0@ != s[j].0@
}

/// The map an association list denotes (later entries win, but with unique
/// keys there is nothing to win).
pub open spec fn kv_map<V>(s: Seq<(String, V)>) -> Map<Seq<char>, V>
    decreases s.len(),
{
    if s.len() == 0 {
        Map::empty()
    } else {
        kv_map(s.drop_last()).insert(s.last().0@, s.last().1)
    }
}

/// A key is in the map exactly when some entry holds it.
pub proof fn lemma_kv_map_dom<V>(s: Seq<(String, V)>, k: Seq<char>)
    ensures
        kv_map(s).dom().contains(k) <==> exists|i: int| 0 <= i < s.len() && #[trigger] s[i].0@ == k,
    decreases s.len(),
{
    if s.len() > 0 {
        lemma_kv_map_dom(s.drop_last(), k);
        if s.last().0@ == k {
            assert(s[s.len() - 1].0@ == k);
        } else if exists|i: int| 0 <= i < s.len() && #[trigger] s[i].0@ == k {
            let i = choose|i: int| 0 <= i < s.len() && #[trigger] s[i].0@ == k;
            assert(s.drop_last()[i].0@ == k);
        }
    }
}

/// With unique keys, the map sends each entry's key to that entry's value.
pub proof fn lemma_kv_map_index<V>(s: Seq<(String, V)>, i: int)
    requires
        keys_unique(s),
        0 <= i < s.len(),
    ensures
        kv_map(s).dom().contains(s[i].0@),
        kv_map(s)[s[i].0@] == s[i].1,
    decreases s.len(),
{
    if i < s.len() - 1 {
        assert(keys_unique(s.drop_last())) by {
            assert(forall|a: int, b: int|
                0 <= a < b < s.len() - 1 ==> s.drop_last()[a] == s[a] && s.drop_last()[b] == s[b]);
        }
        lemma_kv_map_index(s.drop_last(), i);
        assert(s[i].0@ != s.last().0@);
    }
}

/// Appending a fresh entry inserts it into the map.
pub proof fn lemma_kv_map_push<V>(s: Seq<(String, V)>, k: String, v: V)
    ensures
        kv_map(s.push((k, v))) == kv_map(s).insert(k@, v),
{
    assert(s.push((k, v)).drop_last() =~= s);
}

/// Overwriting the value at position `i` updates the map at that key.
pub proof fn lemma_kv_map_update<V>(s: Seq<(String, V)>, i: int, v: V)
    requires
        keys_unique(s),
        0 <= i < s.len(),
    ensures
        kv_map(s.update(i, (s[i].0, v))) =~= kv_map(s).insert(s[i].0@, v),
    decreases s.len(),
{
    let s2 = s.update(i, (s[i].0, v));
    if i == s.len() - 1 {
        assert(s2.drop_last() =~= s.drop_last());
    } else {
        assert(keys_unique(s.drop_last())) by {
            assert(forall|a: int, b: int|
                0 <= a < b < s.len() - 1 ==> s.drop_last()[a] == s[a] && s.drop_last()[b] == s[b]);
        }
        lemma_kv_map_update(s.drop_last(), i, v);
        assert(s2.drop_last() =~= s.drop_last().update(i, (s[i].0, v)));
        assert(s2.last() == s.last());
        assert(s[i].0@ != s.last().0@);
        assert(kv_map(s2) =~= kv_map(s).insert(s[i].0@, v));
    }
}

/// The position of a key's entry, if it has one.
pub fn kv_position<V>(v: &Vec<(String, V)>, key: &String) -> (r: Option<usize>)
    ensures
        r matches Some(i) ==> i < v@.len() && v@[i as int].0@ == key@,
        r is None ==> forall|i: int| 0 <= i < v@.len() ==> v@[i].0@ != key@,
{
    let mut i: usize = 0;
    while i < v.len()
        invariant
            i <= v@.len(),
            forall|j: int| 0 <= j < i ==> v@[j].0@ != key@,
        decreases v@.len() - i,
    {
        if v[i].0 == *key {
            return Some(i);
        }
        i += 1;
    }
    None
}

/// The value under a key, `None` when the key is absent.
pub fn kv_get<V: Copy>(v: &Vec<(String, V)>, key: &String) -> (r: Option<V>)
    requires
        keys_unique(v@),
    ensures
        kv_map(v@).dom().contains(key@) ==> r == Some(kv_map(v@)[key@]),
        !kv_map(v@).dom().contains(key@) ==> r is None,
{
    proof {
        lemma_kv_map_dom(v@, key@);
    }
    match kv_position(v, key) {
        Some(i) => {
            proof {
                lemma_kv_map_index(v@, i as int);
            }
            Some(v[i].1)
        },
        None => None,
    }
}

/// Sets the value under a key, adding the entry if the key is new. Every key
/// in the result was there before or is the one set.
pub fn kv_upsert<V: Copy>(v: &mut Vec<(String, V)>, key: &String, val: V)
    requires
        keys_unique(old(v)@),
    ensures
        keys_unique(final(v)@),
        kv_map(final(v)@) =~= kv_map(old(v)@).insert(key@, val),
        forall|j: int|
            0 <= j < final(v)@.len() ==> final(v)@[j].0@ == key@ || exists|i: int|
                0 <= i < old(v)@.len() && old(v)@[i].0@ == #[trigger] final(v)@[j].0@,
{
    match kv_position(v, key) {
        Some(i) => {
            let k = v[i].0.clone();
            proof {
                lemma_kv_map_update(v@, i as int, val);
            }
            v[i] = (k, val);
            proof {
                assert(keys_unique(v@));
                assert(forall|j: int| 0 <= j < v@.len() ==> v@[j].0@ == old(v)@[j].0@);
            }
        },
        None => {
            proof {
                lemma_kv_map_push(v@, *key, val);
            }
            v.push((key.clone(), val));
            proof {
                assert(kv_map(v@) == kv_map(old(v)@.push((*key, val))));
                assert(keys_unique(v@));
            }
        },
    }
}

} // verus!
