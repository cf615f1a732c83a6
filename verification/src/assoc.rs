//! Association lists: sequences of key/value pairs with distinct keys, read as maps.

use vstd::prelude::*;

verus! {

/// No key occurs twice in the list.
pub open spec fn keys_unique<K, V>(s: Seq<(K, V)>) -> bool {
    forall|i: int, j: int| 0 <= i < s.len() && 0 <= j < s.len() && i != j ==> s[i].0 != s[j].0
}

/// The map that the list stands for.
pub open spec fn as_map<K, V>(s: Seq<(K, V)>) -> Map<K, V>
    decreases s.len(),
{
    if s.len() == 0 {
        Map::empty()
    } else {
        as_map(s.drop_last()).insert(s.last().0, s.last().1)
    }
}

/// The key occurs somewhere in the list.
pub open spec fn has_key<K, V>(s: Seq<(K, V)>, k: K) -> bool {
    exists|i: int| 0 <= i < s.len() && s[i].0 == k
}

pub proof fn lemma_as_map_domain<K, V>(s: Seq<(K, V)>, k: K)
    ensures
        as_map(s).dom().contains(k) <==> has_key(s, k),
        as_map(s).dom().finite(),
    decreases s.len(),
{
    if s.len() > 0 {
        lemma_as_map_domain(s.drop_last(), k);
        if has_key(s.drop_last(), k) {
            let i = choose|i: int| 0 <= i < s.drop_last().len() && s.drop_last()[i].0 == k;
            assert(s[i].0 == k);
        }
        if has_key(s, k) && s.last().0 != k {
            let i = choose|i: int| 0 <= i < s.len() && s[i].0 == k;
            assert(i != s.len() - 1);
            assert(s.drop_last()[i].0 == k);
        }
    }
}

pub proof fn lemma_as_map_at<K, V>(s: Seq<(K, V)>, i: int)
    requires
        keys_unique(s),
        0 <= i < s.len(),
    ensures
        as_map(s).dom().contains(s[i].0),
        as_map(s)[s[i].0] == s[i].1,
    decreases s.len(),
{
    if i < s.len() - 1 {
        let t = s.drop_last();
        assert(keys_unique(t));
        assert(t[i] == s[i]);
        lemma_as_map_at(t, i);
        assert(s.last().0 != s[i].0);
    }
}

pub proof fn lemma_as_map_push<K, V>(s: Seq<(K, V)>, k: K, v: V)
    requires
        keys_unique(s),
        !has_key(s, k),
    ensures
        keys_unique(s.push((k, v))),
        as_map(s.push((k, v))) == as_map(s).insert(k, v),
{
    assert(s.push((k, v)).drop_last() == s);
    assert forall|i: int, j: int|
        0 <= i < s.push((k, v)).len() && 0 <= j < s.push((k, v)).len() && i != j implies
        s.push((k, v))[i].0 != s.push((k, v))[j].0 by {
        if i < s.len() && j < s.len() {
        } else if i < s.len() {
            assert(s[i].0 != k);
        } else {
            assert(s[j].0 != k);
        }
    }
}

pub proof fn lemma_as_map_update<K, V>(s: Seq<(K, V)>, i: int, v: V)
    requires
        keys_unique(s),
        0 <= i < s.len(),
    ensures
        keys_unique(s.update(i, (s[i].0, v))),
        as_map(s.update(i, (s[i].0, v))) == as_map(s).insert(s[i].0, v),
    decreases s.len(),
{
    let u = s.update(i, (s[i].0, v));
    assert(keys_unique(u)) by {
        assert forall|a: int, b: int| 0 <= a < u.len() && 0 <= b < u.len() && a != b implies u[a].0
            != u[b].0 by {
            assert(u[a].0 == s[a].0);
            assert(u[b].0 == s[b].0);
        }
    }
    if i == s.len() - 1 {
        assert(u.drop_last() == s.drop_last());
    } else {
        let t = s.drop_last();
        assert(keys_unique(t));
        lemma_as_map_update(t, i, v);
        assert(u.drop_last() == t.update(i, (t[i].0, v)));
        assert(u.last() == s.last());
        assert(s.last().0 != s[i].0);
        assert(as_map(u) == as_map(s).insert(s[i].0, v));
    }
}

pub proof fn lemma_as_map_remove<K, V>(s: Seq<(K, V)>, i: int)
    requires
        keys_unique(s),
        0 <= i < s.len(),
    ensures
        keys_unique(s.remove(i)),
        as_map(s.remove(i)) == as_map(s).remove(s[i].0),
    decreases s.len(),
{
    let r = s.remove(i);
    assert(keys_unique(r)) by {
        assert forall|a: int, b: int| 0 <= a < r.len() && 0 <= b < r.len() && a != b implies r[a].0
            != r[b].0 by {
            let sa = if a < i { a } else { a + 1 };
            let sb = if b < i { b } else { b + 1 };
            assert(r[a] == s[sa]);
            assert(r[b] == s[sb]);
        }
    }
    if i == s.len() - 1 {
        assert(r == s.drop_last());
        lemma_as_map_domain(s.drop_last(), s[i].0);
        assert(!has_key(s.drop_last(), s[i].0)) by {
            if has_key(s.drop_last(), s[i].0) {
                let j = choose|j: int|
                    0 <= j < s.drop_last().len() && s.drop_last()[j].0 == s[i].0;
                assert(s[j].0 == s[i].0);
            }
        }
        assert(as_map(s.drop_last()).remove(s[i].0) == as_map(s.drop_last()));
    } else {
        let t = s.drop_last();
        assert(keys_unique(t));
        lemma_as_map_remove(t, i);
        assert(r.drop_last() == t.remove(i));
        assert(r.last() == s.last());
        assert(s.last().0 != s[i].0);
        assert(as_map(r) == as_map(s).remove(s[i].0));
    }
}

pub proof fn lemma_as_map_absent<K, V>(s: Seq<(K, V)>, k: K)
    requires
        !has_key(s, k),
    ensures
        !as_map(s).dom().contains(k),
{
    lemma_as_map_domain(s, k);
}

} // verus!
