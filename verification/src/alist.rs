//! Association lists with map views.
//!
//! The index and the in-memory backend both hold their mappings as vectors
//! of pairs with pairwise-distinct keys. These spec functions and lemmas
//! relate such a vector to the `Map` it denotes, so that insertion, update
//! in place, and swap-removal can be specified as map operations.

use vstd::prelude::*;

verus! {

/// The map denoted by a sequence of pairs; a later pair shadows an earlier
/// one with the same key.
pub open spec fn alist_map<K: View, V: View>(s: Seq<(K, V)>) -> Map<K::V, V::V>
    decreases s.len(),
{
    if s.len() == 0 {
        Map::empty()
    } else {
        alist_map(s.drop_last()).insert(s.last().0@, s.last().1@)
    }
}

/// Pairwise-distinct keys.
pub open spec fn alist_unique<K: View, V: View>(s: Seq<(K, V)>) -> bool {
    forall|i: int, j: int| 0 <= i < j < s.len() ==> s[i].0@ != s[j].0@
}

/// Each pair of a distinct-keyed list is in its map.
pub proof fn lemma_alist_map_index<K: View, V: View>(s: Seq<(K, V)>, i: int)
    requires
        alist_unique(s),
        0 <= i < s.len(),
    ensures
        alist_map(s).contains_key(s[i].0@),
        alist_map(s)[s[i].0@] == s[i].1@,
    decreases s.len(),
{
    if i < s.len() - 1 {
        lemma_alist_map_index(s.drop_last(), i);
        assert(s.drop_last()[i] == s[i]);
    }
}

/// A key in the map is held by some pair.
pub proof fn lemma_alist_map_dom_exists<K: View, V: View>(s: Seq<(K, V)>, k: K::V)
    requires
        alist_map(s).contains_key(k),
    ensures
        exists|i: int| 0 <= i < s.len() && s[i].0@ == k,
    decreases s.len(),
{
    if s.len() > 0 {
        if k == s.last().0@ {
            assert(s[s.len() - 1].0@ == k);
        } else {
            lemma_alist_map_dom_exists(s.drop_last(), k);
            let i = choose|i: int| 0 <= i < s.drop_last().len() && s.drop_last()[i].0@ == k;
            assert(s[i].0@ == k);
        }
    }
}

/// The key of each pair is in the map.
pub proof fn lemma_alist_map_contains<K: View, V: View>(s: Seq<(K, V)>, i: int)
    requires
        0 <= i < s.len(),
    ensures
        alist_map(s).contains_key(s[i].0@),
    decreases s.len(),
{
    if i < s.len() - 1 {
        lemma_alist_map_contains(s.drop_last(), i);
        assert(s.drop_last()[i] == s[i]);
    }
}

/// A key is in the map exactly when some pair holds it.
pub proof fn lemma_alist_map_dom<K: View, V: View>(s: Seq<(K, V)>)
    ensures
        forall|k: K::V|
            #[trigger] alist_map(s).contains_key(k) <==> exists|i: int|
                0 <= i < s.len() && s[i].0@ == k,
{
    assert forall|k: K::V| #[trigger] alist_map(s).contains_key(k) implies exists|i: int|
        0 <= i < s.len() && s[i].0@ == k by {
        lemma_alist_map_dom_exists(s, k);
    }
    assert forall|k: K::V| (exists|i: int| 0 <= i < s.len() && s[i].0@ == k) implies alist_map(
        s,
    ).contains_key(k) by {
        let i = choose|i: int| 0 <= i < s.len() && s[i].0@ == k;
        lemma_alist_map_contains(s, i);
    }
}

/// Pushing a pair inserts its binding.
pub proof fn lemma_alist_push<K: View, V: View>(s: Seq<(K, V)>, p: (K, V))
    ensures
        alist_map(s.push(p)) == alist_map(s).insert(p.0@, p.1@),
        alist_unique(s) && !(exists|i: int| 0 <= i < s.len() && s[i].0@ == p.0@) ==> alist_unique(
            s.push(p),
        ),
{
    assert(s.push(p).drop_last() =~= s);
    assert(s.push(p).last() == p);
    if alist_unique(s) && !(exists|i: int| 0 <= i < s.len() && s[i].0@ == p.0@) {
        assert forall|i: int, j: int| 0 <= i < j < s.push(p).len() implies s.push(p)[i].0@ != s.push(
            p,
        )[j].0@ by {
            if j < s.len() {
                assert(s[i].0@ != s[j].0@);
            } else {
                assert(s[i].0@ != p.0@);
            }
        }
    }
}

/// Swap-removing the pair at `i` removes its binding: the resulting list is
/// the one where the last pair has been moved into place `i`.
pub proof fn lemma_alist_swap_remove<K: View, V: View>(s: Seq<(K, V)>, i: int)
    requires
        alist_unique(s),
        0 <= i < s.len(),
    ensures
        ({
            let t = s.update(i, s.last()).drop_last();
            &&& alist_map(t) == alist_map(s).remove(s[i].0@)
            &&& alist_unique(t)
        }),
{
    let t = s.update(i, s.last()).drop_last();
    if i == s.len() - 1 {
        assert(t =~= s.drop_last());
    }
    assert(alist_unique(t));
    lemma_alist_map_dom::<K, V>(s);
    lemma_alist_map_dom::<K, V>(t);
    assert forall|k: K::V| #[trigger] alist_map(t).contains_key(k) implies alist_map(s).remove(
        s[i].0@,
    ).contains_key(k) && alist_map(t)[k] == alist_map(s).remove(s[i].0@)[k] by {
        let j = choose|j: int| 0 <= j < t.len() && t[j].0@ == k;
        let j2: int = if j == i {
            s.len() - 1
        } else {
            j
        };
        assert(s[j2].0@ == k && s[j2].1@ == t[j].1@);
        lemma_alist_map_index(t, j);
        lemma_alist_map_index(s, j2);
        assert(k != s[i].0@);
    }
    assert forall|k: K::V| #[trigger] alist_map(s).remove(s[i].0@).contains_key(k) implies
        alist_map(t).contains_key(k) by {
        let j = choose|j: int| 0 <= j < s.len() && s[j].0@ == k;
        assert(j != i);
        if j == s.len() - 1 {
            assert(i < s.len() - 1);
            assert(t[i].0@ == k);
        } else {
            assert(t[j].0@ == k);
        }
    }
    assert(alist_map(t) =~= alist_map(s).remove(s[i].0@));
}

} // verus!
