use vstd::prelude::*;

verus! {

/// The map of a sequence of key-value pairs (a later pair for the same key
/// wins; keys are unique where this is used).
pub open spec fn assoc_map<K, V>(s: Seq<(K, V)>) -> Map<K, V>
    decreases s.len(),
{
    if s.len() == 0 {
        Map::empty()
    } else {
        assoc_map(s.drop_last()).insert(s.last().0, s.last().1)
    }
}

/// No key occurs twice.
pub open spec fn assoc_unique<K, V>(s: Seq<(K, V)>) -> bool {
    forall|a: int, b: int| 0 <= a < s.len() && 0 <= b < s.len() && a != b ==> s[a].0 != s[b].0
}

pub proof fn lemma_assoc_lookup<K, V>(s: Seq<(K, V)>, k: int)
    requires
        assoc_unique(s),
        0 <= k < s.len(),
    ensures
        assoc_map(s).contains_key(s[k].0),
        assoc_map(s)[s[k].0] == s[k].1,
    decreases s.len(),
{
    if k < s.len() - 1 {
        lemma_assoc_lookup(s.drop_last(), k);
    }
}

pub proof fn lemma_assoc_absent<K, V>(s: Seq<(K, V)>, key: K)
    requires
        forall|k: int| 0 <= k < s.len() ==> s[k].0 != key,
    ensures
        !assoc_map(s).contains_key(key),
    decreases s.len(),
{
    if s.len() > 0 {
        lemma_assoc_absent(s.drop_last(), key);
    }
}

pub proof fn lemma_assoc_update<K, V>(s: Seq<(K, V)>, k: int, v: V)
    requires
        assoc_unique(s),
        0 <= k < s.len(),
    ensures
        assoc_map(s.update(k, (s[k].0, v))) == assoc_map(s).insert(s[k].0, v),
        assoc_unique(s.update(k, (s[k].0, v))),
    decreases s.len(),
{
    let t = s.update(k, (s[k].0, v));
    if k == s.len() - 1 {
        assert(t.drop_last() =~= s.drop_last());
        assert(assoc_map(t) =~= assoc_map(s).insert(s[k].0, v));
    } else {
        assert(t.drop_last() =~= s.drop_last().update(k, (s[k].0, v)));
        lemma_assoc_update(s.drop_last(), k, v);
        assert(assoc_map(t) =~= assoc_map(s).insert(s[k].0, v));
    }
    assert forall|a: int, b: int| 0 <= a < t.len() && 0 <= b < t.len() && a != b implies t[a].0 != t[b].0 by {
        assert(t[a].0 == s[a].0);
        assert(t[b].0 == s[b].0);
    }
}

pub proof fn lemma_assoc_push<K, V>(s: Seq<(K, V)>, key: K, v: V)
    requires
        assoc_unique(s),
        forall|k: int| 0 <= k < s.len() ==> s[k].0 != key,
    ensures
        assoc_map(s.push((key, v))) == assoc_map(s).insert(key, v),
        assoc_unique(s.push((key, v))),
{
    assert(s.push((key, v)).drop_last() =~= s);
}

pub proof fn lemma_assoc_remove<K, V>(s: Seq<(K, V)>, k: int)
    requires
        assoc_unique(s),
        0 <= k < s.len(),
    ensures
        assoc_map(s.remove(k)) == assoc_map(s).remove(s[k].0),
        assoc_unique(s.remove(k)),
    decreases s.len(),
{
    let t = s.remove(k);
    let d = s[k].0;
    if k == s.len() - 1 {
        assert(t =~= s.drop_last());
        assert forall|j: int| 0 <= j < t.len() implies t[j].0 != d by {
            assert(t[j] == s[j]);
        }
        lemma_assoc_absent(t, d);
        assert(assoc_map(t) =~= assoc_map(s).remove(d));
    } else {
        assert(t.drop_last() =~= s.drop_last().remove(k));
        assert(t.last() == s.last());
        lemma_assoc_remove(s.drop_last(), k);
        assert(assoc_map(t) =~= assoc_map(s).remove(d));
    }
    assert forall|a: int, b: int| 0 <= a < t.len() && 0 <= b < t.len() && a != b implies t[a].0 != t[b].0 by {
        let sa = if a < k { a } else { a + 1 };
        let sb = if b < k { b } else { b + 1 };
        assert(t[a] == s[sa]);
        assert(t[b] == s[sb]);
    }
}

/// `s` has a pair with key `k`.
pub open spec fn has_key<K, V>(s: Seq<(K, V)>, k: K) -> bool {
    exists|i: int| 0 <= i < s.len() && s[i].0 == k
}

/// The position of the pair with key `k`.
pub open spec fn key_index<K, V>(s: Seq<(K, V)>, k: K) -> int {
    choose|i: int| 0 <= i < s.len() && s[i].0 == k
}

/// `s` with the value of key `k` set to `v`: in place when `k` is there,
/// else at the end.
pub open spec fn upsert<K, V>(s: Seq<(K, V)>, k: K, v: V) -> Seq<(K, V)> {
    if has_key(s, k) {
        s.update(key_index(s, k), (k, v))
    } else {
        s.push((k, v))
    }
}

pub proof fn lemma_key_index<K, V>(s: Seq<(K, V)>, i: int)
    requires
        assoc_unique(s),
        0 <= i < s.len(),
    ensures
        has_key(s, s[i].0),
        key_index(s, s[i].0) == i,
{
    let j = key_index(s, s[i].0);
    assert(0 <= j < s.len() && s[j].0 == s[i].0);
}

pub proof fn lemma_has_key<K, V>(s: Seq<(K, V)>, k: K)
    requires
        assoc_unique(s),
    ensures
        has_key(s, k) == assoc_map(s).contains_key(k),
        has_key(s, k) ==> assoc_map(s)[k] == s[key_index(s, k)].1,
{
    if has_key(s, k) {
        let i = key_index(s, k);
        lemma_assoc_lookup(s, i);
    } else {
        lemma_assoc_absent(s, k);
    }
}

pub proof fn lemma_upsert<K, V>(s: Seq<(K, V)>, k: K, v: V)
    requires
        assoc_unique(s),
    ensures
        assoc_unique(upsert(s, k, v)),
        assoc_map(upsert(s, k, v)) == assoc_map(s).insert(k, v),
{
    if has_key(s, k) {
        let i = key_index(s, k);
        lemma_assoc_update(s, i, v);
    } else {
        lemma_assoc_push(s, k, v);
    }
}

/// The position of key `k` in `s`, if it is there.
pub fn find_key<V>(s: &Vec<(u32, V)>, k: u32) -> (r: Option<usize>)
    ensures
        match r {
            Some(i) => i < s@.len() && s@[i as int].0 == k,
            None => !has_key(s@, k),
        },
{
    let mut i: usize = 0;
    while i < s.len()
        invariant
            i <= s@.len(),
            forall|j: int| 0 <= j < i ==> s@[j].0 != k,
        decreases s.len() - i,
    {
        if s[i].0 == k {
            return Some(i);
        }
        i += 1;
    }
    None
}

} // verus!
