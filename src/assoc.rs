//! Association lists: sequences of key/value pairs read as finite maps.
use vstd::prelude::*;

verus! {

/// The map that a sequence of pairs denotes; a later pair wins over an earlier one.
pub open spec fn map_of<K, V>(s: Seq<(K, V)>) -> Map<K, V>
    decreases s.len(),
{
    if s.len() == 0 {
        Map::empty()
    } else {
        map_of(s.drop_last()).insert(s.last().0, s.last().1)
    }
}

/// No key occurs twice.
pub open spec fn keys_distinct<K, V>(s: Seq<(K, V)>) -> bool {
    forall|i: int, j: int| 0 <= i < j < s.len() ==> s[i].0 != s[j].0
}

/// The keys of `map_of(s)` are those of the pairs, and with distinct keys each
/// pair's value is the one stored.
pub proof fn lemma_map_of<K, V>(s: Seq<(K, V)>)
    ensures
        forall|k: K| #[trigger] map_of(s).contains_key(k) <==> exists|j: int| 0 <= j < s.len() && s[j].0 == k,
        keys_distinct(s) ==> forall|j: int| 0 <= j < s.len() ==> #[trigger] map_of(s)[s[j].0] == s[j].1,
    decreases s.len(),
{
    if s.len() > 0 {
        let p = s.drop_last();
        lemma_map_of(p);
        assert forall|k: K| #[trigger] map_of(s).contains_key(k) <==> exists|j: int| 0 <= j < s.len() && s[j].0 == k by {
            assert(map_of(s) == map_of(p).insert(s.last().0, s.last().1));
            if map_of(s).contains_key(k) && k != s.last().0 {
                assert(map_of(p).contains_key(k));
                let j = choose|j: int| 0 <= j < p.len() && p[j].0 == k;
                assert(s[j].0 == k);
            }
            if exists|j: int| 0 <= j < s.len() && s[j].0 == k {
                let j = choose|j: int| 0 <= j < s.len() && s[j].0 == k;
                if j < s.len() - 1 {
                    assert(p[j].0 == k);
                    assert(map_of(p).contains_key(k));
                }
            }
        }
        if keys_distinct(s) {
            assert(keys_distinct(p));
            assert forall|j: int| 0 <= j < s.len() implies #[trigger] map_of(s)[s[j].0] == s[j].1 by {
                assert(map_of(s) == map_of(p).insert(s.last().0, s.last().1));
                if j < s.len() - 1 {
                    assert(p[j] == s[j]);
                    assert(s[j].0 != s.last().0);
                    assert(map_of(p)[p[j].0] == p[j].1);
                }
            }
        }
    }
}

/// Replacing the value of a present key.
pub proof fn lemma_map_of_update<K, V>(s: Seq<(K, V)>, j: int, v: V)
    requires
        keys_distinct(s),
        0 <= j < s.len(),
    ensures
        keys_distinct(s.update(j, (s[j].0, v))),
        map_of(s.update(j, (s[j].0, v))) == map_of(s).insert(s[j].0, v),
{
    let t = s.update(j, (s[j].0, v));
    assert(keys_distinct(t));
    lemma_map_of(s);
    lemma_map_of(t);
    assert forall|k: K| #[trigger] map_of(t).contains_key(k) == map_of(s).insert(s[j].0, v).contains_key(k) by {
        if exists|i: int| 0 <= i < s.len() && s[i].0 == k {
            let i = choose|i: int| 0 <= i < s.len() && s[i].0 == k;
            assert(t[i].0 == k);
        }
        if exists|i: int| 0 <= i < t.len() && t[i].0 == k {
            let i = choose|i: int| 0 <= i < t.len() && t[i].0 == k;
            assert(s[i].0 == k);
        }
    }
    assert forall|k: K| #[trigger] map_of(t).contains_key(k) implies map_of(t)[k] == map_of(s).insert(s[j].0, v)[k] by {
        let i = choose|i: int| 0 <= i < t.len() && t[i].0 == k;
        assert(map_of(t)[t[i].0] == t[i].1);
        if i != j {
            assert(map_of(s)[s[i].0] == s[i].1);
        }
    }
    assert(map_of(t) =~= map_of(s).insert(s[j].0, v));
}

/// Removing the pair of a present key.
pub proof fn lemma_map_of_remove<K, V>(s: Seq<(K, V)>, j: int)
    requires
        keys_distinct(s),
        0 <= j < s.len(),
    ensures
        keys_distinct(s.remove(j)),
        map_of(s.remove(j)) == map_of(s).remove(s[j].0),
{
    let t = s.remove(j);
    assert forall|a: int, b: int| 0 <= a < b < t.len() implies t[a].0 != t[b].0 by {
        let a2 = if a < j { a } else { a + 1 };
        let b2 = if b < j { b } else { b + 1 };
        assert(t[a] == s[a2] && t[b] == s[b2]);
    }
    lemma_map_of(s);
    lemma_map_of(t);
    assert forall|k: K| #[trigger] map_of(t).contains_key(k) == map_of(s).remove(s[j].0).contains_key(k) by {
        if exists|i: int| 0 <= i < s.len() && s[i].0 == k && k != s[j].0 {
            let i = choose|i: int| 0 <= i < s.len() && s[i].0 == k && k != s[j].0;
            if i < j {
                assert(t[i].0 == k);
            } else {
                assert(t[i - 1].0 == k);
            }
        }
        if exists|i: int| 0 <= i < t.len() && t[i].0 == k {
            let i = choose|i: int| 0 <= i < t.len() && t[i].0 == k;
            let i2 = if i < j { i } else { i + 1 };
            assert(s[i2].0 == k);
        }
    }
    assert forall|k: K| #[trigger] map_of(t).contains_key(k) implies map_of(t)[k] == map_of(s).remove(s[j].0)[k] by {
        let i = choose|i: int| 0 <= i < t.len() && t[i].0 == k;
        let i2 = if i < j { i } else { i + 1 };
        assert(t[i] == s[i2]);
        assert(map_of(t)[t[i].0] == t[i].1);
        assert(map_of(s)[s[i2].0] == s[i2].1);
    }
    assert(map_of(t) =~= map_of(s).remove(s[j].0));
}

/// Appending a pair whose key is new keeps the keys distinct.
pub proof fn lemma_push_distinct<K, V>(s: Seq<(K, V)>, e: (K, V))
    requires
        keys_distinct(s),
        !map_of(s).contains_key(e.0),
    ensures
        keys_distinct(s.push(e)),
        map_of(s.push(e)) == map_of(s).insert(e.0, e.1),
{
    lemma_map_of(s);
    let t = s.push(e);
    assert(t.drop_last() == s);
    assert forall|a: int, b: int| 0 <= a < b < t.len() implies t[a].0 != t[b].0 by {
        if b == s.len() {
            assert(s[a].0 != e.0);
        }
    }
}

} // verus!
