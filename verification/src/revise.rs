//! Maps with every value replaced.

use crate::model::{Key, Model};
use crate::ordmap::{ascending, lemma_ordered, ordered, to_map, OrdMap};
use crate::totals::listable;
use vstd::prelude::*;

verus! {

/// A replacement of values.
pub trait Revise<V: Model> {
    spec fn revised(&self, v: V::V) -> V::V;

    fn revise(&self, value: &V) -> (after: V)
        requires
            value.wf(),
        ensures
            after.wf(),
            after.model() == self.revised(value.model()),
    ;
}

/// A map with every value replaced.
pub open spec fn remapped<A, W>(m: Map<A, W>, change: spec_fn(W) -> W) -> Map<A, W> {
    Map::new(|k: A| m.dom().contains(k), |k: A| change(m[k]))
}

/// A list of pairs with every value replaced.
pub open spec fn remapped_of<A, W>(s: Seq<(A, W)>, change: spec_fn(W) -> W) -> Seq<(A, W)> {
    Seq::new(s.len(), |i: int| (s[i].0, change(s[i].1)))
}

/// Replacing in the list is replacing in the map.
pub proof fn lemma_remapped<A, W>(s: Seq<(A, W)>, change: spec_fn(W) -> W)
    ensures
        to_map(remapped_of(s, change)) == remapped(to_map(s), change),
    decreases s.len(),
{
    if s.len() > 0 {
        lemma_remapped(s.drop_last(), change);
        assert(remapped_of(s, change).drop_last() =~= remapped_of(s.drop_last(), change));
    }
    assert(to_map(remapped_of(s, change)) =~= remapped(to_map(s), change));
}

/// A listable map stays listable.
pub proof fn lemma_listable_remapped<K: Key, W>(m: Map<K::V, W>, change: spec_fn(W) -> W)
    requires
        listable::<K, W>(m),
    ensures
        listable::<K, W>(remapped(m, change)),
{
    let s = ordered::<K, W>(m);
    let t = remapped_of(s, change);
    lemma_remapped(s, change);
    assert forall|i: int, j: int| 0 <= i < j < t.len() implies K::precedes(
        (#[trigger] t[i]).0,
        (#[trigger] t[j]).0,
    ) by {
        assert(K::precedes(s[i].0, s[j].0));
    }
    lemma_ordered::<K, W>(t);
}

/// The empty map is listable.
pub proof fn lemma_listable_empty<K: Key, W>()
    ensures
        listable::<K, W>(Map::<K::V, W>::empty()),
{
    let none = Seq::<(K::V, W)>::empty();
    assert(ascending::<K, W>(none));
    lemma_ordered::<K, W>(none);
}

impl<K: Key, V: Model> OrdMap<K, V> {
    /// The map with every value replaced.
    pub fn revised<R: Revise<V>>(&self, change: &R) -> (after: OrdMap<K, V>)
        requires
            self.wf(),
        ensures
            after.wf(),
            after.model() == remapped(self.model(), |v: V::V| change.revised(v)),
    {
        let mut after: OrdMap<K, V> = OrdMap::new();
        let ghost replace = |v: V::V| change.revised(v);
        let ghost rows = remapped_of(self.seq(), replace);
        let mut i: usize = 0;
        assert(rows.take(0) =~= Seq::<(K::V, V::V)>::empty());
        while i < self.len()
            invariant
                self.wf(),
                after.wf(),
                replace == (|v: V::V| change.revised(v)),
                rows == remapped_of(self.seq(), replace),
                i <= rows.len(),
                after.model() == to_map(rows.take(i as int)),
            decreases rows.len() - i,
        {
            let (key, value) = self.at(i);
            assert(rows.take(i + 1).drop_last() =~= rows.take(i as int));
            after.insert(key.dup(), change.revise(value));
            i += 1;
        }
        proof {
            assert(rows.take(i as int) =~= rows);
            lemma_remapped(self.seq(), replace);
        }
        after
    }
}

} // verus!
