//! Association lists keyed by strings, the executable form of every mapping in
//! the router: a node's literal children, the fast-path index, a route's
//! metadata entries and a match's captured parameters. The spec-level content
//! of such a list is the `Map` that `pairs_map` denotes; the lemmas here relate
//! the list operations to operations on that map.
use crate::strutil::str_eq;
use vstd::prelude::*;

verus! {

/// The map denoted by a list of key/value pairs; a later entry wins on a
/// repeated key.
pub open spec fn pairs_map<W>(s: Seq<(Seq<char>, W)>) -> Map<Seq<char>, W>
    decreases s.len(),
{
    if s.len() == 0 {
        Map::<Seq<char>, W>::empty()
    } else {
        pairs_map(s.drop_last()).insert(s.last().0, s.last().1)
    }
}

/// No two entries share a key.
pub open spec fn keys_unique<W>(s: Seq<(Seq<char>, W)>) -> bool {
    forall|i: int, j: int| 0 <= i < j < s.len() ==> s[i].0 != s[j].0
}

/// A key is in the map exactly when some entry carries it.
pub proof fn lemma_pairs_map_contains<W>(s: Seq<(Seq<char>, W)>, k: Seq<char>)
    ensures
        pairs_map(s).contains_key(k) <==> exists|i: int| 0 <= i < s.len() && s[i].0 == k,
    decreases s.len(),
{
    if s.len() > 0 {
        let d = s.drop_last();
        lemma_pairs_map_contains(d, k);
        if pairs_map(s).contains_key(k) {
            if k == s.last().0 {
                assert(s[s.len() - 1].0 == k);
            } else {
                let i = choose|i: int| 0 <= i < d.len() && d[i].0 == k;
                assert(s[i].0 == k);
            }
        }
        if exists|i: int| 0 <= i < s.len() && s[i].0 == k {
            let i = choose|i: int| 0 <= i < s.len() && s[i].0 == k;
            if i < s.len() - 1 {
                assert(d[i].0 == k);
            }
        }
    }
}

/// With unique keys, the map sends each entry's key to that entry's value.
pub proof fn lemma_pairs_map_index<W>(s: Seq<(Seq<char>, W)>, i: int)
    requires
        keys_unique(s),
        0 <= i < s.len(),
    ensures
        pairs_map(s).contains_key(s[i].0),
        pairs_map(s)[s[i].0] == s[i].1,
    decreases s.len(),
{
    let d = s.drop_last();
    if i == s.len() - 1 {
    } else {
        assert(keys_unique(d));
        assert(d[i] == s[i]);
        lemma_pairs_map_index(d, i);
        assert(s[i].0 != s.last().0);
    }
}

/// Appending an entry inserts its key.
pub proof fn lemma_pairs_map_push<W>(s: Seq<(Seq<char>, W)>, k: Seq<char>, w: W)
    ensures
        pairs_map(s.push((k, w))) == pairs_map(s).insert(k, w),
{
    assert(s.push((k, w)).drop_last() =~= s);
    assert(s.push((k, w)).last() == (k, w));
}

/// Overwriting the entry that carries `k` updates the map at `k`.
pub proof fn lemma_pairs_map_update<W>(s: Seq<(Seq<char>, W)>, i: int, k: Seq<char>, w: W)
    requires
        keys_unique(s),
        0 <= i < s.len(),
        s[i].0 == k,
    ensures
        pairs_map(s.update(i, (k, w))) == pairs_map(s).insert(k, w),
    decreases s.len(),
{
    let d = s.drop_last();
    if i == s.len() - 1 {
        assert(s.update(i, (k, w)).drop_last() =~= d);
        assert(s.update(i, (k, w)).last() == (k, w));
        assert(pairs_map(d).insert(k, s.last().1).insert(k, w) =~= pairs_map(d).insert(k, w));
    } else {
        assert(keys_unique(d));
        assert(d[i] == s[i]);
        lemma_pairs_map_update(d, i, k, w);
        assert(s.update(i, (k, w)).drop_last() =~= d.update(i, (k, w)));
        assert(s.update(i, (k, w)).last() == s.last());
        assert(s[i].0 != s.last().0);
        assert(pairs_map(d).insert(k, w).insert(s.last().0, s.last().1) =~= pairs_map(d).insert(
            s.last().0,
            s.last().1,
        ).insert(k, w));
    }
}

/// Removing the entry that carries a key removes that key from the map.
pub proof fn lemma_pairs_map_remove<W>(s: Seq<(Seq<char>, W)>, i: int)
    requires
        keys_unique(s),
        0 <= i < s.len(),
    ensures
        pairs_map(s.remove(i)) == pairs_map(s).remove(s[i].0),
    decreases s.len(),
{
    let d = s.drop_last();
    let k = s[i].0;
    if i == s.len() - 1 {
        assert(s.remove(i) =~= d);
        lemma_pairs_map_contains(d, k);
        assert(forall|j: int| 0 <= j < d.len() ==> d[j] == s[j] && s[j].0 != k);
        assert(!pairs_map(d).contains_key(k));
        assert(pairs_map(d).insert(k, s.last().1).remove(k) =~= pairs_map(d));
    } else {
        assert(keys_unique(d));
        assert(d[i] == s[i]);
        lemma_pairs_map_remove(d, i);
        assert(s.remove(i).drop_last() =~= d.remove(i));
        assert(s.remove(i).last() == s.last());
        assert(k != s.last().0);
        assert(pairs_map(d).remove(k).insert(s.last().0, s.last().1) =~= pairs_map(d).insert(
            s.last().0,
            s.last().1,
        ).remove(k));
    }
}

/// With unique keys, the map has exactly one key per entry.
pub proof fn lemma_pairs_map_dom<W>(s: Seq<(Seq<char>, W)>)
    requires
        keys_unique(s),
    ensures
        pairs_map(s).dom().finite(),
        pairs_map(s).dom().len() == s.len(),
    decreases s.len(),
{
    if s.len() > 0 {
        let d = s.drop_last();
        assert(keys_unique(d));
        lemma_pairs_map_dom(d);
        lemma_pairs_map_contains(d, s.last().0);
        assert(forall|j: int| 0 <= j < d.len() ==> d[j] == s[j] && s[j].0 != s.last().0);
        assert(!pairs_map(d).dom().contains(s.last().0));
        assert(pairs_map(s).dom() =~= pairs_map(d).dom().insert(s.last().0));
    }
}

/// The position of the first entry whose key reads `key`, if any.
pub fn find_key<V>(entries: &Vec<(String, V)>, key: &str) -> (r: Option<usize>)
    ensures
        match r {
            Some(i) => 0 <= i < entries@.len() && entries@[i as int].0@ == key@,
            None => forall|j: int| 0 <= j < entries@.len() ==> entries@[j].0@ != key@,
        },
{
    let mut i: usize = 0;
    while i < entries.len()
        invariant
            i <= entries@.len(),
            forall|j: int| 0 <= j < i ==> entries@[j].0@ != key@,
        decreases entries@.len() - i,
    {
        if str_eq(entries[i].0.as_str(), key) {
            return Some(i);
        }
        i += 1;
    }
    None
}

} // verus!
