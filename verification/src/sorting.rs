//! Sorting of short lists.

use crate::model::{Key, Rank};
use vstd::prelude::*;

verus! {

/// Whether a list of models is in order, equal ones allowed.
pub open spec fn in_order<K: Key>(s: Seq<K::V>) -> bool {
    forall|i: int, j: int| 0 <= i < j < s.len() ==> !K::precedes(#[trigger] s[j], #[trigger] s[i])
}

/// The models of a list.
pub open spec fn all_models<K: Key>(s: Seq<K>) -> Seq<K::V> {
    Seq::new(s.len(), |i: int| s[i].model())
}

/// Sorts ascending; equal ones are indistinguishable and all kept.
pub fn sort<K: Key>(list: Vec<K>) -> (sorted: Vec<K>)
    requires
        forall|i: int| 0 <= i < list@.len() ==> (#[trigger] list@[i]).wf(),
    ensures
        forall|i: int| 0 <= i < sorted@.len() ==> (#[trigger] sorted@[i]).wf(),
        in_order::<K>(all_models(sorted@)),
        all_models(sorted@).to_multiset() == all_models(list@).to_multiset(),
{
    let mut rest = list;
    let mut sorted: Vec<K> = Vec::new();
    proof {
        assert(all_models(rest@) + all_models(sorted@) =~= all_models(list@));
    }
    while rest.len() > 0
        invariant
            forall|i: int| 0 <= i < rest@.len() ==> (#[trigger] rest@[i]).wf(),
            forall|i: int| 0 <= i < sorted@.len() ==> (#[trigger] sorted@[i]).wf(),
            in_order::<K>(all_models(sorted@)),
            (all_models(rest@) + all_models(sorted@)).to_multiset() == all_models(
                list@,
            ).to_multiset(),
        decreases rest@.len(),
    {
        let ghost rest0 = all_models(rest@);
        let ghost sorted0 = sorted@;
        match rest.pop() {
            Some(item) => {
                let i = place(&sorted, &item);
                let ghost x = item.model();
                sorted.insert(i, item);
                proof {
                    broadcast use vstd::seq_lib::group_to_multiset_ensures;

                    let s0 = all_models(sorted0);
                    let s1 = all_models(sorted@);
                    assert(s1 =~= s0.insert(i as int, x));
                    assert(rest0 =~= all_models(rest@).push(x));
                    vstd::seq_lib::lemma_multiset_commutative(rest0, s0);
                    vstd::seq_lib::lemma_multiset_commutative(all_models(rest@), s1);
                    assert(s1.to_multiset() =~= s0.to_multiset().insert(x));
                    assert((all_models(rest@) + s1).to_multiset() =~= (rest0 + s0).to_multiset());
                    assert forall|a: int, b: int| 0 <= a < b < s1.len() implies !K::precedes(
                        #[trigger] s1[b],
                        #[trigger] s1[a],
                    ) by {
                        let a0 = if a < i { a } else { a - 1 };
                        let b0 = if b < i { b } else { b - 1 };
                        if a != i && b != i {
                            assert(!K::precedes(s0[b0], s0[a0]));
                        } else if a == i {
                            assert(!K::precedes(s0[b0], x));
                        } else {
                            assert(!K::precedes(x, s0[a0]));
                        }
                    }
                    assert forall|k: int| 0 <= k < sorted@.len() implies (#[trigger] sorted@[k]).wf() by {
                        if k < i {
                            assert(sorted0[k].wf());
                        } else if k > i {
                            assert(sorted0[k - 1].wf());
                        }
                    }
                }
            },
            None => {},
        }
    }
    proof {
        assert(all_models(rest@) + all_models(sorted@) =~= all_models(sorted@));
    }
    sorted
}

/// Where `item` belongs in a sorted list.
fn place<K: Key>(sorted: &Vec<K>, item: &K) -> (i: usize)
    requires
        item.wf(),
        forall|i: int| 0 <= i < sorted@.len() ==> (#[trigger] sorted@[i]).wf(),
        in_order::<K>(all_models(sorted@)),
    ensures
        i <= sorted@.len(),
        forall|j: int| 0 <= j < i ==> !K::precedes(item.model(), #[trigger] all_models(sorted@)[j]),
        forall|j: int|
            i <= j < sorted@.len() ==> !K::precedes(#[trigger] all_models(sorted@)[j], item.model()),
{
    let ghost s = all_models(sorted@);
    let mut i: usize = 0;
    while i < sorted.len()
        invariant
            i <= sorted@.len(),
            s == all_models(sorted@),
            item.wf(),
            in_order::<K>(s),
            forall|k: int| 0 <= k < sorted@.len() ==> (#[trigger] sorted@[k]).wf(),
            forall|j: int| 0 <= j < i ==> !K::precedes(item.model(), #[trigger] s[j]),
        decreases sorted@.len() - i,
    {
        if matches!(item.rank(&sorted[i]), Rank::Below) {
            assert forall|j: int| i <= j < s.len() implies !K::precedes(#[trigger] s[j], item.model()) by {
                if K::precedes(s[j], item.model()) {
                    K::precedes_transitive(s[j], item.model(), s[i as int]);
                    K::precedes_irreflexive(s[j]);
                    assert(j == i || !K::precedes(s[j], s[i as int]));
                }
            }
            return i;
        }
        i += 1;
    }
    i
}

} // verus!
