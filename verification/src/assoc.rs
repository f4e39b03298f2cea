//! Association sequences: finite maps kept as sequences of key/value
//! pairs with unique keys. The spec functions here give such a sequence
//! its abstract `Map`, and the lemmas relate the sequence operations
//! that the executable code performs to operations on that map.

use vstd::prelude::*;

verus! {

/// The character sequences of a sequence of strings.
pub open spec fn views_of(s: Seq<String>) -> Seq<Seq<char>> {
    s.map_values(|x: String| x@)
}

/// The view of an association sequence whose keys are strings.
pub open spec fn keyed_views<V>(s: Seq<(String, V)>) -> Seq<(Seq<char>, V)> {
    s.map_values(|p: (String, V)| (p.0@, p.1))
}

/// The view of an association sequence from strings to strings.
pub open spec fn tok_views(s: Seq<(String, String)>) -> Seq<(Seq<char>, Seq<char>)> {
    s.map_values(|p: (String, String)| (p.0@, p.1@))
}

/// No key occurs twice in the association sequence.
pub open spec fn keys_unique<V>(s: Seq<(Seq<char>, V)>) -> bool {
    forall|i: int, j: int| 0 <= i < j < s.len() ==> s[i].0 != s[j].0
}

/// The finite map that an association sequence stands for; a later
/// entry for the same key wins.
pub open spec fn assoc_map<V>(s: Seq<(Seq<char>, V)>) -> Map<Seq<char>, V>
    decreases s.len(),
{
    if s.len() == 0 {
        Map::empty()
    } else {
        assoc_map(s.drop_last()).insert(s.last().0, s.last().1)
    }
}

/// A key is in the map exactly when some entry carries it.
pub proof fn lemma_assoc_map_dom<V>(s: Seq<(Seq<char>, V)>, k: Seq<char>)
    ensures
        assoc_map(s).dom().contains(k) <==> exists|i: int| 0 <= i < s.len() && (#[trigger] s[i]).0 == k,
    decreases s.len(),
{
    if s.len() > 0 {
        lemma_assoc_map_dom(s.drop_last(), k);
        if s.last().0 == k {
            assert(s[s.len() - 1].0 == k);
        } else if assoc_map(s).dom().contains(k) {
            let i = choose|i: int| 0 <= i < s.drop_last().len() && (#[trigger] s.drop_last()[i]).0 == k;
            assert(s[i].0 == k);
        } else {
            assert forall|i: int| 0 <= i < s.len() implies (#[trigger] s[i]).0 != k by {
                if i < s.len() - 1 {
                    assert(s.drop_last()[i] == s[i]);
                }
            }
        }
    }
}

/// With unique keys, the entry at any index gives the map's value at
/// its key.
pub proof fn lemma_assoc_map_index<V>(s: Seq<(Seq<char>, V)>, i: int)
    requires
        keys_unique(s),
        0 <= i < s.len(),
    ensures
        assoc_map(s).dom().contains(s[i].0),
        assoc_map(s)[s[i].0] == s[i].1,
    decreases s.len(),
{
    if i < s.len() - 1 {
        assert(s.drop_last()[i] == s[i]);
        lemma_assoc_map_index(s.drop_last(), i);
        assert(s[i].0 != s.last().0);
    }
}

/// A key that no entry carries is not in the map.
pub proof fn lemma_assoc_map_absent<V>(s: Seq<(Seq<char>, V)>, k: Seq<char>)
    requires
        forall|i: int| 0 <= i < s.len() ==> (#[trigger] s[i]).0 != k,
    ensures
        !assoc_map(s).dom().contains(k),
{
    lemma_assoc_map_dom(s, k);
}

/// Appending an entry inserts its pair into the map.
pub proof fn lemma_assoc_map_push<V>(s: Seq<(Seq<char>, V)>, p: (Seq<char>, V))
    ensures
        assoc_map(s.push(p)) == assoc_map(s).insert(p.0, p.1),
{
    assert(s.push(p).drop_last() =~= s);
    assert(s.push(p).last() == p);
}

/// With unique keys, removing the entry at an index removes its key
/// from the map.
pub proof fn lemma_assoc_map_remove<V>(s: Seq<(Seq<char>, V)>, i: int)
    requires
        keys_unique(s),
        0 <= i < s.len(),
    ensures
        assoc_map(s.remove(i)) == assoc_map(s).remove(s[i].0),
        keys_unique(s.remove(i)),
    decreases s.len(),
{
    assert forall|a: int, b: int| 0 <= a < b < s.remove(i).len() implies #[trigger] s.remove(
        i,
    )[a].0 != (#[trigger] s.remove(i)[b].0) by {
        let a0 = if a < i { a } else { a + 1 };
        let b0 = if b < i { b } else { b + 1 };
        assert(s.remove(i)[a] == s[a0]);
        assert(s.remove(i)[b] == s[b0]);
    }
    if i == s.len() - 1 {
        assert(s.remove(i) =~= s.drop_last());
        lemma_assoc_map_absent(s.drop_last(), s[i].0);
        assert(assoc_map(s.drop_last()) =~= assoc_map(s.drop_last()).insert(s.last().0, s.last().1).remove(s.last().0));
    } else {
        lemma_assoc_map_remove(s.drop_last(), i);
        assert(s.remove(i).drop_last() =~= s.drop_last().remove(i));
        assert(s.remove(i).last() == s.last());
        assert(s[i].0 != s.last().0);
        assert(assoc_map(s.remove(i)) == assoc_map(s.drop_last().remove(i)).insert(
            s.last().0,
            s.last().1,
        ));
        assert(assoc_map(s.drop_last()).remove(s[i].0).insert(s.last().0, s.last().1)
            =~= assoc_map(s.drop_last()).insert(s.last().0, s.last().1).remove(s[i].0));
    }
}

/// Replacing the value of the entry at an index updates the map at its
/// key, and keeps the keys unique.
pub proof fn lemma_assoc_map_update_at<V>(s: Seq<(Seq<char>, V)>, i: int, v: V)
    requires
        keys_unique(s),
        0 <= i < s.len(),
    ensures
        assoc_map(s.remove(i).insert(i, (s[i].0, v))) == assoc_map(s).insert(s[i].0, v),
        keys_unique(s.remove(i).insert(i, (s[i].0, v))),
{
    let k = s[i].0;
    lemma_assoc_map_remove(s, i);
    lemma_assoc_map_dom(s.remove(i), k);
    assert forall|j: int| 0 <= j < s.remove(i).len() implies (#[trigger] s.remove(i)[j]).0
        != k by {
        if s.remove(i)[j].0 == k {
            assert(exists|m: int| 0 <= m < s.remove(i).len() && (#[trigger] s.remove(i)[m]).0 == k);
        }
    }
    lemma_assoc_map_insert_at(s.remove(i), i, (k, v));
    assert(assoc_map(s).remove(k).insert(k, v) =~= assoc_map(s).insert(k, v));
    lemma_update_keeps_keys(s, i, v);
    let t = s.remove(i).insert(i, (k, v));
    assert forall|a: int, b: int| 0 <= a < b < t.len() implies t[a].0 != t[b].0 by {
        assert(t[a].0 == s[a].0);
        assert(t[b].0 == s[b].0);
    }
}

/// Every entry of the sequence after a remove-and-insert at one index
/// keeps the key it had, so the key at each position is unchanged.
pub proof fn lemma_update_keeps_keys<V>(s: Seq<(Seq<char>, V)>, i: int, v: V)
    requires
        0 <= i < s.len(),
    ensures
        s.remove(i).insert(i, (s[i].0, v)).len() == s.len(),
        forall|j: int|
            0 <= j < s.len() ==> (#[trigger] s.remove(i).insert(i, (s[i].0, v))[j]).0 == s[j].0,
{
    let t = s.remove(i).insert(i, (s[i].0, v));
    assert forall|j: int| 0 <= j < s.len() implies (#[trigger] t[j]).0 == s[j].0 by {
        if j < i {
            assert(t[j] == s.remove(i)[j]);
            assert(s.remove(i)[j] == s[j]);
        } else if j == i {
            assert(t[j] == (s[i].0, v));
        } else {
            assert(t[j] == s.remove(i)[j - 1]);
            assert(s.remove(i)[j - 1] == s[j]);
        }
    }
}

/// Finds the index of the entry carrying the given key, if any.
pub(crate) fn find_key<V>(s: &Vec<(String, V)>, k: &String) -> (r: Option<usize>)
    ensures
        match r {
            Some(i) => i < s@.len() && s@[i as int].0@ == k@,
            None => forall|j: int| 0 <= j < s@.len() ==> (#[trigger] s@[j]).0@ != k@,
        },
{
    let mut i: usize = 0;
    while i < s.len()
        invariant
            i <= s@.len(),
            forall|j: int| 0 <= j < i ==> (#[trigger] s@[j]).0@ != k@,
        decreases s@.len() - i,
    {
        if s[i].0 == *k {
            return Some(i);
        }
        i = i + 1;
    }
    None
}

/// Inserting an entry whose key no other entry carries inserts its pair
/// into the map, wherever it is placed.
pub proof fn lemma_assoc_map_insert_at<V>(s: Seq<(Seq<char>, V)>, i: int, p: (Seq<char>, V))
    requires
        0 <= i <= s.len(),
        forall|j: int| 0 <= j < s.len() ==> (#[trigger] s[j]).0 != p.0,
    ensures
        assoc_map(s.insert(i, p)) == assoc_map(s).insert(p.0, p.1),
    decreases s.len(),
{
    if i == s.len() {
        assert(s.insert(i, p) =~= s.push(p));
        lemma_assoc_map_push(s, p);
    } else {
        assert(s.insert(i, p).drop_last() =~= s.drop_last().insert(i, p));
        assert(s.insert(i, p).last() == s.last());
        assert forall|j: int| 0 <= j < s.drop_last().len() implies (#[trigger] s.drop_last()[j]).0
            != p.0 by {
            assert(s.drop_last()[j] == s[j]);
        }
        lemma_assoc_map_insert_at(s.drop_last(), i, p);
        assert(s[s.len() - 1].0 != p.0);
        assert(assoc_map(s.drop_last()).insert(p.0, p.1).insert(s.last().0, s.last().1)
            =~= assoc_map(s.drop_last()).insert(s.last().0, s.last().1).insert(p.0, p.1));
    }
}

} // verus!
