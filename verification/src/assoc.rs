//! Association lists: a sequence of key/value pairs read as a map, where a
//! later pair for a key overrides an earlier one.
use vstd::prelude::*;

verus! {

/// The map that a sequence of pairs denotes.
pub open spec fn seq_to_map<K, V>(s: Seq<(K, V)>) -> Map<K, V>
    decreases s.len(),
{
    if s.len() == 0 {
        Map::empty()
    } else {
        seq_to_map(s.drop_last()).insert(s.last().0, s.last().1)
    }
}

/// No key occurs twice.
pub open spec fn unique_keys<K, V>(s: Seq<(K, V)>) -> bool {
    forall|i: int, j: int| 0 <= i < s.len() && 0 <= j < s.len() && i != j ==> s[i].0 != s[j].0
}

/// The keys of the map are exactly the keys of the pairs, and the map is finite.
pub proof fn lemma_seq_to_map_dom<K, V>(s: Seq<(K, V)>)
    ensures
        seq_to_map(s).dom().finite(),
        forall|k: K| #[trigger]
            seq_to_map(s).contains_key(k) <==> exists|i: int| 0 <= i < s.len() && s[i].0 == k,
    decreases s.len(),
{
    if s.len() > 0 {
        lemma_seq_to_map_dom(s.drop_last());
        assert forall|k: K| #[trigger] seq_to_map(s).contains_key(k) <==> exists|i: int|
            0 <= i < s.len() && s[i].0 == k by {
            if seq_to_map(s).contains_key(k) {
                if k == s.last().0 {
                    assert(s[s.len() - 1].0 == k);
                } else {
                    let i = choose|i: int| 0 <= i < s.drop_last().len() && s.drop_last()[i].0 == k;
                    assert(s[i].0 == k);
                }
            }
            if exists|i: int| 0 <= i < s.len() && s[i].0 == k {
                let i = choose|i: int| 0 <= i < s.len() && s[i].0 == k;
                if i < s.len() - 1 {
                    assert(s.drop_last()[i].0 == k);
                }
            }
        }
    }
}

/// With unique keys, each pair's value is what the map holds for its key.
pub proof fn lemma_seq_to_map_value<K, V>(s: Seq<(K, V)>, i: int)
    requires
        unique_keys(s),
        0 <= i < s.len(),
    ensures
        seq_to_map(s).contains_key(s[i].0),
        seq_to_map(s)[s[i].0] == s[i].1,
    decreases s.len(),
{
    lemma_seq_to_map_dom(s);
    if i < s.len() - 1 {
        assert(unique_keys(s.drop_last()));
        assert(s.drop_last()[i] == s[i]);
        lemma_seq_to_map_value(s.drop_last(), i);
    }
}

/// Replacing a pair by one with the same key updates the map at that key.
pub proof fn lemma_seq_to_map_update<K, V>(s: Seq<(K, V)>, i: int, p: (K, V))
    requires
        unique_keys(s),
        0 <= i < s.len(),
        s[i].0 == p.0,
    ensures
        seq_to_map(s.update(i, p)) == seq_to_map(s).insert(p.0, p.1),
        unique_keys(s.update(i, p)),
    decreases s.len(),
{
    let t = s.update(i, p);
    if i == s.len() - 1 {
        assert(t.drop_last() == s.drop_last());
        assert(seq_to_map(t) =~= seq_to_map(s).insert(p.0, p.1));
    } else {
        assert(t.drop_last() == s.drop_last().update(i, p));
        assert(unique_keys(s.drop_last()));
        lemma_seq_to_map_update(s.drop_last(), i, p);
        assert(s.last().0 != p.0);
        assert(seq_to_map(t) =~= seq_to_map(s).insert(p.0, p.1));
    }
}

/// Appending a pair with a new key keeps the keys unique.
pub proof fn lemma_unique_push<K, V>(s: Seq<(K, V)>, p: (K, V))
    requires
        unique_keys(s),
        forall|i: int| 0 <= i < s.len() ==> s[i].0 != p.0,
    ensures
        unique_keys(s.push(p)),
        seq_to_map(s.push(p)) == seq_to_map(s).insert(p.0, p.1),
{
    assert(s.push(p).drop_last() == s);
}

/// Removing the pair at `i` removes its key from the map.
pub proof fn lemma_seq_to_map_remove<K, V>(s: Seq<(K, V)>, i: int)
    requires
        unique_keys(s),
        0 <= i < s.len(),
    ensures
        unique_keys(s.remove(i)),
        seq_to_map(s.remove(i)) == seq_to_map(s).remove(s[i].0),
{
    let t = s.remove(i);
    assert forall|a: int, b: int| 0 <= a < t.len() && 0 <= b < t.len() && a != b implies t[a].0 != t[b].0 by {
        let a2 = if a < i { a } else { a + 1 };
        let b2 = if b < i { b } else { b + 1 };
        assert(t[a] == s[a2] && t[b] == s[b2]);
    }
    lemma_seq_to_map_dom(s);
    lemma_seq_to_map_dom(t);
    assert forall|k: K| #[trigger] seq_to_map(t).contains_key(k) <==> seq_to_map(s).remove(s[i].0).contains_key(k) by {
        if seq_to_map(t).contains_key(k) {
            let a = choose|a: int| 0 <= a < t.len() && t[a].0 == k;
            let a2 = if a < i { a } else { a + 1 };
            assert(t[a] == s[a2]);
        }
        if seq_to_map(s).remove(s[i].0).contains_key(k) {
            let a = choose|a: int| 0 <= a < s.len() && s[a].0 == k;
            assert(a != i);
            let a1 = if a < i { a } else { a - 1 };
            assert(t[a1] == s[a]);
        }
    }
    assert forall|k: K| #[trigger] seq_to_map(t).contains_key(k) implies seq_to_map(t)[k] == seq_to_map(s)[k] by {
        let a = choose|a: int| 0 <= a < t.len() && t[a].0 == k;
        let a2 = if a < i { a } else { a + 1 };
        assert(t[a] == s[a2]);
        lemma_seq_to_map_value(t, a);
        lemma_seq_to_map_value(s, a2);
    }
    assert(seq_to_map(t) =~= seq_to_map(s).remove(s[i].0));
}

} // verus!
