//! Sums over the pairs of an ordered map.

use crate::model::Key;
use crate::ordmap::{
    ascending, chosen, chosen_of, lemma_ascending_position, lemma_chosen, lemma_insert_map,
    lemma_ordered, lemma_to_map_dom, lemma_update_map, ordered, to_map,
};
use vstd::prelude::*;

verus! {

/// Whether a map's pairs can be listed in key order.
pub open spec fn listable<K: Key, W>(m: Map<K::V, W>) -> bool {
    ascending::<K, W>(ordered::<K, W>(m)) && to_map(ordered::<K, W>(m)) == m
}

/// The sum of a weight over a list of pairs.
pub open spec fn total<A, W>(s: Seq<(A, W)>, weight: spec_fn(W) -> nat) -> nat
    decreases s.len(),
{
    if s.len() == 0 {
        0
    } else {
        total(s.drop_last(), weight) + weight(s.last().1)
    }
}

/// The weight at a key, if it is there.
pub open spec fn weight_at<A, W>(m: Map<A, W>, k: A, weight: spec_fn(W) -> nat) -> nat {
    if m.dom().contains(k) {
        weight(m[k])
    } else {
        0
    }
}

proof fn lemma_total_update<A, W>(s: Seq<(A, W)>, i: int, pair: (A, W), weight: spec_fn(W) -> nat)
    requires
        0 <= i < s.len(),
    ensures
        total(s.update(i, pair), weight) + weight(s[i].1) == total(s, weight) + weight(pair.1),
    decreases s.len(),
{
    let t = s.update(i, pair);
    if i == s.len() - 1 {
        assert(t.drop_last() =~= s.drop_last());
    } else {
        lemma_total_update(s.drop_last(), i, pair, weight);
        assert(t.drop_last() =~= s.drop_last().update(i, pair));
    }
}

proof fn lemma_total_insert<A, W>(s: Seq<(A, W)>, i: int, pair: (A, W), weight: spec_fn(W) -> nat)
    requires
        0 <= i <= s.len(),
    ensures
        total(s.insert(i, pair), weight) == total(s, weight) + weight(pair.1),
    decreases s.len(),
{
    let t = s.insert(i, pair);
    if i == s.len() {
        assert(t.drop_last() =~= s);
    } else {
        lemma_total_insert(s.drop_last(), i, pair, weight);
        assert(t.drop_last() =~= s.drop_last().insert(i, pair));
        assert(t.last() == s.last());
    }
}

/// Where a key that is not there belongs.
proof fn lemma_place<K: Key, W>(s: Seq<(K::V, W)>, k: K::V) -> (i: int)
    requires
        ascending::<K, W>(s),
        !to_map(s).dom().contains(k),
    ensures
        0 <= i <= s.len(),
        forall|j: int| 0 <= j < i ==> K::precedes((#[trigger] s[j]).0, k),
        forall|j: int| i <= j < s.len() ==> K::precedes(k, (#[trigger] s[j]).0),
    decreases s.len(),
{
    lemma_to_map_dom(s, k);
    if s.len() == 0 {
        0
    } else {
        K::precedes_total(s.last().0, k);
        assert(s[s.len() - 1].0 != k);
        if K::precedes(s.last().0, k) {
            assert forall|j: int| 0 <= j < s.len() implies K::precedes((#[trigger] s[j]).0, k) by {
                if j < s.len() - 1 {
                    K::precedes_transitive(s[j].0, s.last().0, k);
                }
            }
            s.len() as int
        } else {
            let init = s.drop_last();
            lemma_to_map_dom(init, k);
            if to_map(init).dom().contains(k) {
                let p = lemma_ascending_position::<K, W>(init, k);
                assert(s[p].0 == k);
            }
            let i = lemma_place::<K, W>(init, k);
            assert forall|j: int| 0 <= j < i implies K::precedes((#[trigger] s[j]).0, k) by {
                assert(init[j] == s[j]);
            }
            assert forall|j: int| i <= j < s.len() implies K::precedes(k, (#[trigger] s[j]).0) by {
                if j < init.len() {
                    assert(init[j] == s[j]);
                }
            }
            i
        }
    }
}

/// Putting a key in changes the sum by its weight.
pub proof fn lemma_total_put<K: Key, W>(m: Map<K::V, W>, k: K::V, w: W, weight: spec_fn(W) -> nat)
    requires
        listable::<K, W>(m),
    ensures
        listable::<K, W>(m.insert(k, w)),
        total(ordered::<K, W>(m.insert(k, w)), weight) + weight_at(m, k, weight) == total(
            ordered::<K, W>(m),
            weight,
        ) + weight(w),
{
    let s = ordered::<K, W>(m);
    if m.dom().contains(k) {
        let i = lemma_ascending_position::<K, W>(s, k);
        lemma_update_map::<K, W>(s, i, w);
        lemma_ordered::<K, W>(s.update(i, (s[i].0, w)));
        lemma_total_update(s, i, (s[i].0, w), weight);
    } else {
        let i = lemma_place::<K, W>(s, k);
        lemma_insert_map::<K, W>(s, i, k, w);
        lemma_ordered::<K, W>(s.insert(i, (k, w)));
        lemma_total_insert(s, i, (k, w), weight);
    }
}

/// No pair weighs more than the whole.
pub proof fn lemma_total_covers<K: Key, W>(m: Map<K::V, W>, k: K::V, weight: spec_fn(W) -> nat)
    requires
        listable::<K, W>(m),
    ensures
        weight_at(m, k, weight) <= total(ordered::<K, W>(m), weight),
{
    if m.dom().contains(k) {
        let s = ordered::<K, W>(m);
        let i = lemma_ascending_position::<K, W>(s, k);
        lemma_total_item(s, i, weight);
    }
}

proof fn lemma_total_item<A, W>(s: Seq<(A, W)>, i: int, weight: spec_fn(W) -> nat)
    requires
        0 <= i < s.len(),
    ensures
        weight(s[i].1) <= total(s, weight),
    decreases s.len(),
{
    if i < s.len() - 1 {
        lemma_total_item(s.drop_last(), i, weight);
    }
}

/// A list's sum is that of the chosen pairs and that of the others.
pub proof fn lemma_total_split<A, W>(
    s: Seq<(A, W)>,
    keep: spec_fn(A, W) -> bool,
    drop: spec_fn(A, W) -> bool,
    weight: spec_fn(W) -> nat,
)
    requires
        forall|k: A, w: W| #[trigger] keep(k, w) != drop(k, w),
    ensures
        total(s, weight) == total(chosen_of(s, keep), weight) + total(chosen_of(s, drop), weight),
    decreases s.len(),
{
    if s.len() > 0 {
        let (k, w) = s.last();
        lemma_total_split(s.drop_last(), keep, drop, weight);
        assert(keep(k, w) != drop(k, w));
        if keep(k, w) {
            assert(chosen_of(s, keep).drop_last() =~= chosen_of(s.drop_last(), keep));
        } else {
            assert(chosen_of(s, drop).drop_last() =~= chosen_of(s.drop_last(), drop));
        }
    }
}

/// Choosing from a listable map lists the chosen pairs.
pub proof fn lemma_listable_chosen<K: Key, W>(m: Map<K::V, W>, keep: spec_fn(K::V, W) -> bool)
    requires
        listable::<K, W>(m),
    ensures
        listable::<K, W>(chosen(m, keep)),
        ordered::<K, W>(chosen(m, keep)) == chosen_of(ordered::<K, W>(m), keep),
{
    let s = ordered::<K, W>(m);
    lemma_chosen::<K, W>(s, keep);
    lemma_ordered::<K, W>(chosen_of(s, keep));
}

/// A sum is nothing where every pair weighs nothing.
pub proof fn lemma_total_nothing<A, W>(s: Seq<(A, W)>, weight: spec_fn(W) -> nat)
    requires
        forall|i: int| 0 <= i < s.len() ==> weight((#[trigger] s[i]).1) == 0,
    ensures
        total(s, weight) == 0,
    decreases s.len(),
{
    if s.len() > 0 {
        assert(s.last() == s[s.len() - 1]);
        assert forall|i: int| 0 <= i < s.len() - 1 implies weight(
            (#[trigger] s.drop_last()[i]).1,
        ) == 0 by {
            assert(s.drop_last()[i] == s[i]);
        }
        lemma_total_nothing(s.drop_last(), weight);
    }
}

} // verus!
