//! Association lists: a sequence of key/value pairs with distinct keys,
//! read as a finite map. The tables of this crate are kept this way.
use vstd::prelude::*;

verus! {

/// No key occurs twice.
pub open spec fn distinct_keys<K, V>(s: Seq<(K, V)>) -> bool {
    forall|i: int, j: int| 0 <= i < s.len() && 0 <= j < s.len() && i != j ==> s[i].0 != s[j].0
}

/// The map that an association list stands for.
pub open spec fn assoc_map<K, V>(s: Seq<(K, V)>) -> Map<K, V>
    decreases s.len(),
{
    if s.len() == 0 {
        Map::empty()
    } else {
        assoc_map(s.drop_last()).insert(s.last().0, s.last().1)
    }
}

/// The domain of the map is the set of keys that occur.
pub proof fn lemma_assoc_dom<K, V>(s: Seq<(K, V)>, k: K)
    ensures
        assoc_map(s).dom().contains(k) <==> exists|i: int| 0 <= i < s.len() && s[i].0 == k,
    decreases s.len(),
{
    if s.len() > 0 {
        lemma_assoc_dom(s.drop_last(), k);
        if assoc_map(s).dom().contains(k) && k != s.last().0 {
            let i = choose|i: int| 0 <= i < s.drop_last().len() && s.drop_last()[i].0 == k;
            assert(s[i].0 == k);
        }
        if exists|i: int| 0 <= i < s.len() && s[i].0 == k {
            let i = choose|i: int| 0 <= i < s.len() && s[i].0 == k;
            if i < s.len() - 1 {
                assert(s.drop_last()[i].0 == k);
            }
        }
    }
}

/// The finite map is finite.
pub proof fn lemma_assoc_finite<K, V>(s: Seq<(K, V)>)
    ensures
        assoc_map(s).dom().finite(),
    decreases s.len(),
{
    if s.len() > 0 {
        lemma_assoc_finite(s.drop_last());
    }
}

/// With distinct keys, each entry is what the map holds for its key.
pub proof fn lemma_assoc_index<K, V>(s: Seq<(K, V)>, i: int)
    requires
        distinct_keys(s),
        0 <= i < s.len(),
    ensures
        assoc_map(s).dom().contains(s[i].0),
        assoc_map(s)[s[i].0] == s[i].1,
    decreases s.len(),
{
    if i < s.len() - 1 {
        lemma_assoc_index(s.drop_last(), i);
        assert(s.drop_last()[i] == s[i]);
    }
}

/// A key that occurs in no entry is not in the map.
pub proof fn lemma_assoc_absent<K, V>(s: Seq<(K, V)>, k: K)
    requires
        forall|i: int| 0 <= i < s.len() ==> s[i].0 != k,
    ensures
        !assoc_map(s).dom().contains(k),
{
    lemma_assoc_dom(s, k);
}

/// Removing an entry removes its key from the map.
pub proof fn lemma_assoc_remove<K, V>(s: Seq<(K, V)>, i: int)
    requires
        distinct_keys(s),
        0 <= i < s.len(),
    ensures
        distinct_keys(s.remove(i)),
        assoc_map(s.remove(i)) == assoc_map(s).remove(s[i].0),
    decreases s.len(),
{
    let r = s.remove(i);
    assert forall|a: int, b: int| 0 <= a < r.len() && 0 <= b < r.len() && a != b implies r[a].0 != r[b].0 by {
        let a2 = if a < i { a } else { a + 1 };
        let b2 = if b < i { b } else { b + 1 };
        assert(r[a] == s[a2]);
        assert(r[b] == s[b2]);
    }
    if i == s.len() - 1 {
        assert(r =~= s.drop_last());
        assert forall|j: int| 0 <= j < s.drop_last().len() implies s.drop_last()[j].0 != s[i].0 by {
            assert(s.drop_last()[j] == s[j]);
        }
        lemma_assoc_absent(s.drop_last(), s[i].0);
        assert(assoc_map(r) =~= assoc_map(s).remove(s[i].0));
    } else {
        let d = s.drop_last();
        assert forall|a: int, b: int| 0 <= a < d.len() && 0 <= b < d.len() && a != b implies d[a].0 != d[b].0 by {
            assert(d[a] == s[a]);
            assert(d[b] == s[b]);
        }
        lemma_assoc_remove(d, i);
        assert(r =~= d.remove(i).push(s.last()));
        assert(r.drop_last() =~= d.remove(i));
        assert(d[i] == s[i]);
        assert(s[i].0 != s.last().0);
        assert(assoc_map(r) =~= assoc_map(s).remove(s[i].0));
    }
}

/// Replacing the value of an entry updates the map at its key.
pub proof fn lemma_assoc_update<K, V>(s: Seq<(K, V)>, i: int, v: V)
    requires
        distinct_keys(s),
        0 <= i < s.len(),
    ensures
        distinct_keys(s.update(i, (s[i].0, v))),
        assoc_map(s.update(i, (s[i].0, v))) == assoc_map(s).insert(s[i].0, v),
    decreases s.len(),
{
    let u = s.update(i, (s[i].0, v));
    assert forall|a: int, b: int| 0 <= a < u.len() && 0 <= b < u.len() && a != b implies u[a].0 != u[b].0 by {
        assert(u[a].0 == s[a].0);
        assert(u[b].0 == s[b].0);
    }
    if i == s.len() - 1 {
        assert(u.drop_last() =~= s.drop_last());
        assert(assoc_map(u) =~= assoc_map(s).insert(s[i].0, v));
    } else {
        let d = s.drop_last();
        assert forall|a: int, b: int| 0 <= a < d.len() && 0 <= b < d.len() && a != b implies d[a].0 != d[b].0 by {
            assert(d[a] == s[a]);
            assert(d[b] == s[b]);
        }
        lemma_assoc_update(d, i, v);
        assert(d[i] == s[i]);
        assert(u.drop_last() =~= d.update(i, (d[i].0, v)));
        assert(u.last() == s.last());
        assert(s[i].0 != s.last().0);
        assert(assoc_map(u) =~= assoc_map(s).insert(s[i].0, v));
    }
}

/// Appending an entry with a new key keeps the keys distinct.
pub proof fn lemma_assoc_push<K, V>(s: Seq<(K, V)>, k: K, v: V)
    requires
        distinct_keys(s),
        forall|i: int| 0 <= i < s.len() ==> s[i].0 != k,
    ensures
        distinct_keys(s.push((k, v))),
        assoc_map(s.push((k, v))) == assoc_map(s).insert(k, v),
{
    let p = s.push((k, v));
    assert forall|a: int, b: int| 0 <= a < p.len() && 0 <= b < p.len() && a != b implies p[a].0 != p[b].0 by {
        if a < s.len() {
            assert(p[a] == s[a]);
        }
        if b < s.len() {
            assert(p[b] == s[b]);
        }
    }
    assert(p.drop_last() =~= s);
}

} // verus!
