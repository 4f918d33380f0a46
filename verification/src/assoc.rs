use vstd::prelude::*;

verus! {

/// Do all pairs in `s` carry pairwise-distinct keys?
pub open spec fn distinct_keys<K, V>(s: Seq<(K, V)>) -> bool {
    forall|i: int, j: int| 0 <= i < j < s.len() ==> s[i].0 != s[j].0
}

/// Does some pair in `s` carry the key `key`?
pub open spec fn has_key<K, V>(s: Seq<(K, V)>, key: K) -> bool {
    exists|i: int| 0 <= i < s.len() && s[i].0 == key
}

/// The keys of `s`, in order.
pub open spec fn keys_of<K, V>(s: Seq<(K, V)>) -> Seq<K> {
    s.map_values(|p: (K, V)| p.0)
}

/// The mapping that a sequence of (key, value) pairs stands for; a later pair
/// wins over an earlier one with the same key.
pub open spec fn map_of<K, V>(s: Seq<(K, V)>) -> Map<K, V>
    decreases s.len(),
{
    if s.len() == 0 {
        Map::empty()
    } else {
        map_of(s.drop_last()).insert(s.last().0, s.last().1)
    }
}

/// The domain of `map_of(s)` is exactly the set of keys occurring in `s`.
pub proof fn lemma_map_of_dom<K, V>(s: Seq<(K, V)>, key: K)
    ensures
        map_of(s).dom().contains(key) <==> has_key(s, key),
    decreases s.len(),
{
    if s.len() > 0 {
        lemma_map_of_dom(s.drop_last(), key);
        if has_key(s.drop_last(), key) {
            let i = choose|i: int| 0 <= i < s.drop_last().len() && s.drop_last()[i].0 == key;
            assert(s[i].0 == key);
        }
        if has_key(s, key) && s.last().0 != key {
            let i = choose|i: int| 0 <= i < s.len() && s[i].0 == key;
            assert(s.drop_last()[i].0 == key);
        }
    }
}

/// With distinct keys, the pair carrying `key` determines `map_of(s)[key]`.
pub proof fn lemma_map_of_value<K, V>(s: Seq<(K, V)>, i: int)
    requires
        distinct_keys(s),
        0 <= i < s.len(),
    ensures
        map_of(s).dom().contains(s[i].0),
        map_of(s)[s[i].0] == s[i].1,
    decreases s.len(),
{
    lemma_map_of_dom(s, s[i].0);
    if i < s.len() - 1 {
        assert(s[i].0 != s.last().0);
        lemma_map_of_value(s.drop_last(), i);
    }
}

/// With distinct keys, `map_of(s)` has exactly as many entries as `s`.
pub proof fn lemma_map_of_len<K, V>(s: Seq<(K, V)>)
    requires
        distinct_keys(s),
    ensures
        map_of(s).dom().finite(),
        map_of(s).dom().len() == s.len(),
    decreases s.len(),
{
    if s.len() > 0 {
        lemma_map_of_len(s.drop_last());
        lemma_map_of_dom(s.drop_last(), s.last().0);
    }
}

/// Overwriting an entry in place replaces the mapping's value for its key.
pub proof fn lemma_map_of_update<K, V>(s: Seq<(K, V)>, i: int, p: (K, V))
    requires
        distinct_keys(s),
        0 <= i < s.len(),
        s[i].0 == p.0,
    ensures
        distinct_keys(s.update(i, p)),
        map_of(s.update(i, p)) == map_of(s).insert(p.0, p.1),
    decreases s.len(),
{
    let t = s.update(i, p);
    if i == s.len() - 1 {
        assert(t.drop_last() =~= s.drop_last());
        assert(map_of(t) =~= map_of(s).insert(p.0, p.1));
    } else {
        assert(t.drop_last() =~= s.drop_last().update(i, p));
        lemma_map_of_update(s.drop_last(), i, p);
        assert(s[i].0 != s.last().0);
        assert(map_of(t) =~= map_of(s).insert(p.0, p.1));
    }
}

/// Inserts `value` under `key` into an association list with distinct keys:
/// the pair already carrying `key` is overwritten in place (its position is
/// retained), and a fresh key is appended at the end.
pub(crate) fn upsert<K: Eq, V>(pairs: &mut Vec<(K, V)>, key: K, value: V)
    requires
        distinct_keys(old(pairs)@),
        vstd::laws_eq::obeys_concrete_eq::<K>(),
    ensures
        distinct_keys(final(pairs)@),
        map_of(final(pairs)@) == map_of(old(pairs)@).insert(key, value),
        keys_of(final(pairs)@) == if has_key(old(pairs)@, key) {
            keys_of(old(pairs)@)
        } else {
            keys_of(old(pairs)@).push(key)
        },
{
    proof {
        reveal(vstd::laws_eq::obeys_concrete_eq);
    }
    let n = pairs.len();
    let mut i: usize = 0;
    while i < n
        invariant
            n == pairs.len(),
            i <= n,
            pairs@ == old(pairs)@,
            distinct_keys(pairs@),
            vstd::laws_eq::obeys_concrete_eq::<K>(),
            forall|j: int| 0 <= j < i ==> pairs@[j].0 != key,
        decreases n - i,
    {
        let hit = pairs[i].0 == key;
        proof {
            reveal(vstd::laws_eq::obeys_concrete_eq);
        }
        if hit {
            proof {
                lemma_map_of_update(pairs@, i as int, (key, value));
                assert(keys_of(pairs@.update(i as int, (key, value))) =~= keys_of(pairs@));
            }
            pairs.set(i, (key, value));
            return ;
        }
        i += 1;
    }
    proof {
        assert(old(pairs)@.push((key, value)).drop_last() =~= old(pairs)@);
        assert(keys_of(old(pairs)@.push((key, value))) =~= keys_of(old(pairs)@).push(key));
    }
    pairs.push((key, value));
}

/// Looks up `key` in an association list with distinct keys.
pub(crate) fn lookup<'a, K: Eq, V>(pairs: &'a Vec<(K, V)>, key: &K) -> (r: Option<&'a V>)
    requires
        distinct_keys(pairs@),
        vstd::laws_eq::obeys_concrete_eq::<K>(),
    ensures
        match r {
            Some(v) => {
                &&& has_key(pairs@, *key)
                &&& map_of(pairs@).dom().contains(*key)
                &&& *v == map_of(pairs@)[*key]
            },
            None => !has_key(pairs@, *key),
        },
{
    proof {
        reveal(vstd::laws_eq::obeys_concrete_eq);
    }
    let n = pairs.len();
    let mut i: usize = 0;
    while i < n
        invariant
            n == pairs.len(),
            i <= n,
            distinct_keys(pairs@),
            vstd::laws_eq::obeys_concrete_eq::<K>(),
            forall|j: int| 0 <= j < i ==> pairs@[j].0 != *key,
        decreases n - i,
    {
        let hit = pairs[i].0 == *key;
        proof {
            reveal(vstd::laws_eq::obeys_concrete_eq);
        }
        if hit {
            proof {
                lemma_map_of_value(pairs@, i as int);
            }
            return Some(&pairs[i].1);
        }
        i += 1;
    }
    None
}

} // verus!
