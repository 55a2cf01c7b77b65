//! Association lists keyed by strings: a vector of `(key, value)` pairs with
//! distinct keys, read as a map from the key's characters to the value's
//! deep view.

use vstd::prelude::*;

verus! {

/// The map that the entries describe; a later entry for a key overrides an
/// earlier one (with distinct keys there is none).
pub open spec fn assoc_map<V: DeepView>(e: Seq<(String, V)>) -> Map<Seq<char>, V::V>
    decreases e.len(),
{
    if e.len() == 0 {
        Map::empty()
    } else {
        assoc_map(e.drop_last()).insert(e.last().0@, e.last().1.deep_view())
    }
}

/// No two entries have the same key.
pub open spec fn keys_unique<V>(e: Seq<(String, V)>) -> bool {
    forall|i: int, j: int| 0 <= i < j < e.len() ==> #[trigger] e[i].0@ != #[trigger] e[j].0@
}

/// Some entry has key `k`.
pub open spec fn has_key<V>(e: Seq<(String, V)>, k: Seq<char>) -> bool {
    exists|i: int| 0 <= i < e.len() && #[trigger] e[i].0@ == k
}

/// The map's keys are the entries' keys.
pub proof fn lemma_assoc_dom<V: DeepView>(e: Seq<(String, V)>, k: Seq<char>)
    ensures
        assoc_map(e).contains_key(k) == has_key(e, k),
    decreases e.len(),
{
    if e.len() > 0 {
        let d = e.drop_last();
        lemma_assoc_dom(d, k);
        if has_key(d, k) {
            let i = choose|i: int| 0 <= i < d.len() && #[trigger] d[i].0@ == k;
            assert(e[i].0@ == k);
        }
        if has_key(e, k) && e.last().0@ != k {
            let i = choose|i: int| 0 <= i < e.len() && #[trigger] e[i].0@ == k;
            assert(d[i].0@ == k);
        }
        if e.last().0@ == k {
            assert(e[e.len() - 1].0@ == k);
        }
    }
}

/// With distinct keys, the map holds each entry's value under its key.
pub proof fn lemma_assoc_value<V: DeepView>(e: Seq<(String, V)>, i: int)
    requires
        keys_unique(e),
        0 <= i < e.len(),
    ensures
        assoc_map(e).contains_key(e[i].0@),
        assoc_map(e)[e[i].0@] == e[i].1.deep_view(),
    decreases e.len(),
{
    if i < e.len() - 1 {
        let d = e.drop_last();
        assert(d[i] == e[i]);
        assert(keys_unique(d)) by {
            assert forall|a: int, b: int| 0 <= a < b < d.len() implies #[trigger] d[a].0@ != #[trigger] d[b].0@ by {
                assert(d[a] == e[a] && d[b] == e[b]);
            }
        }
        lemma_assoc_value(d, i);
        assert(e.last().0@ != e[i].0@) by {
            assert(e[e.len() - 1].0@ != e[i].0@);
        }
    }
}

/// Replacing the value of entry `i` replaces it in the map.
pub proof fn lemma_assoc_update<V: DeepView>(e: Seq<(String, V)>, i: int, entry: (String, V))
    requires
        keys_unique(e),
        0 <= i < e.len(),
        entry.0@ == e[i].0@,
    ensures
        assoc_map(e.update(i, entry)) == assoc_map(e).insert(e[i].0@, entry.1.deep_view()),
        keys_unique(e.update(i, entry)),
    decreases e.len(),
{
    let u = e.update(i, entry);
    assert(keys_unique(u)) by {
        assert forall|a: int, b: int| 0 <= a < b < u.len() implies #[trigger] u[a].0@ != #[trigger] u[b].0@ by {
            assert(u[a].0@ == e[a].0@ && u[b].0@ == e[b].0@);
        }
    }
    if i == e.len() - 1 {
        assert(u.drop_last() =~= e.drop_last());
        assert(assoc_map(u) =~= assoc_map(e).insert(e[i].0@, entry.1.deep_view()));
    } else {
        let d = e.drop_last();
        assert(keys_unique(d)) by {
            assert forall|a: int, b: int| 0 <= a < b < d.len() implies #[trigger] d[a].0@ != #[trigger] d[b].0@ by {
                assert(d[a] == e[a] && d[b] == e[b]);
            }
        }
        assert(d[i] == e[i]);
        lemma_assoc_update(d, i, entry);
        assert(u.drop_last() =~= d.update(i, entry));
        assert(u.last() == e.last());
        assert(e.last().0@ != e[i].0@) by {
            assert(e[e.len() - 1].0@ != e[i].0@);
        }
        assert(assoc_map(u) =~= assoc_map(e).insert(e[i].0@, entry.1.deep_view()));
    }
}

/// Appending an entry with a new key adds it to the map and keeps the keys
/// distinct.
pub proof fn lemma_assoc_push<V: DeepView>(e: Seq<(String, V)>, entry: (String, V))
    requires
        keys_unique(e),
        !has_key(e, entry.0@),
    ensures
        assoc_map(e.push(entry)) == assoc_map(e).insert(entry.0@, entry.1.deep_view()),
        keys_unique(e.push(entry)),
{
    let p = e.push(entry);
    assert(p.drop_last() =~= e);
    assert forall|a: int, b: int| 0 <= a < b < p.len() implies #[trigger] p[a].0@ != #[trigger] p[b].0@ by {
        if b == e.len() {
            assert(p[a] == e[a]);
            if e[a].0@ == entry.0@ {
                assert(has_key(e, entry.0@));
            }
        } else {
            assert(p[a] == e[a] && p[b] == e[b]);
        }
    }
}

/// The index of the entry with key `k`, if any.
pub fn find_key<V>(e: &Vec<(String, V)>, k: &String) -> (r: Option<usize>)
    ensures
        match r {
            Some(i) => i < e@.len() && e@[i as int].0@ == k@,
            None => !has_key(e@, k@),
        },
{
    let mut i: usize = 0;
    while i < e.len()
        invariant
            i <= e@.len(),
            forall|m: int| 0 <= m < i ==> e@[m].0@ != k@,
        decreases e.len() - i,
    {
        if e[i].0 == *k {
            return Some(i);
        }
        i = i + 1;
    }
    None
}

} // verus!
