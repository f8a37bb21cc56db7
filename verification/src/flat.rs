//! Nested maps as nested lists: a document cannot key its maps by integers.

use crate::model::{list_wf, Key, Model};
use crate::ordmap::{lemma_ascending_at, lemma_ascending_position, ordered, to_map, OrdMap};
use crate::state::{TxnCommitOffset, TxnProduceOffset};
use crate::totals::listable;
use vstd::prelude::*;

verus! {

/// A value that a document can hold in a flattened form.
pub trait Flat: Model {
    type F: Model;

    spec fn flat(v: Self::V) -> <Self::F as Model>::V;

    spec fn raised(f: <Self::F as Model>::V) -> Self::V;

    fn flatten(&self) -> (f: Self::F)
        requires
            self.wf(),
        ensures
            f.wf(),
            f.model() == Self::flat(self.model()),
    ;

    fn raise(f: &Self::F) -> (value: Self)
        requires
            f.wf(),
        ensures
            value.wf(),
            value.model() == Self::raised(f.model()),
    ;

    /// Whether a value can be told from its flattened form.
    spec fn sane(v: Self::V) -> bool;

    proof fn sane_model(&self)
        requires
            self.wf(),
        ensures
            Self::sane(self.model()),
    ;

    proof fn raised_flat(v: Self::V)
        requires
            Self::sane(v),
        ensures
            Self::raised(Self::flat(v)) == v,
    ;
}

impl Flat for i32 {
    type F = i32;

    open spec fn flat(v: i32) -> i32 {
        v
    }

    open spec fn raised(f: i32) -> i32 {
        f
    }

    fn flatten(&self) -> (f: i32) {
        *self
    }

    fn raise(f: &i32) -> (value: i32) {
        *f
    }

    open spec fn sane(v: i32) -> bool {
        true
    }

    proof fn sane_model(&self) {
    }

    proof fn raised_flat(v: i32) {
    }
}

impl Flat for Option<TxnProduceOffset> {
    type F = Option<TxnProduceOffset>;

    open spec fn flat(v: Option<TxnProduceOffset>) -> Option<TxnProduceOffset> {
        v
    }

    open spec fn raised(f: Option<TxnProduceOffset>) -> Option<TxnProduceOffset> {
        f
    }

    fn flatten(&self) -> (f: Option<TxnProduceOffset>) {
        self.dup()
    }

    fn raise(f: &Option<TxnProduceOffset>) -> (value: Option<TxnProduceOffset>) {
        f.dup()
    }

    open spec fn sane(v: Option<TxnProduceOffset>) -> bool {
        true
    }

    proof fn sane_model(&self) {
    }

    proof fn raised_flat(v: Option<TxnProduceOffset>) {
    }
}

impl Flat for TxnCommitOffset {
    type F = TxnCommitOffset;

    open spec fn flat(v: crate::state::CommitOffsetModel) -> crate::state::CommitOffsetModel {
        v
    }

    open spec fn raised(f: crate::state::CommitOffsetModel) -> crate::state::CommitOffsetModel {
        f
    }

    fn flatten(&self) -> (f: TxnCommitOffset) {
        self.dup()
    }

    fn raise(f: &TxnCommitOffset) -> (value: TxnCommitOffset) {
        f.dup()
    }

    open spec fn sane(v: crate::state::CommitOffsetModel) -> bool {
        true
    }

    proof fn sane_model(&self) {
    }

    proof fn raised_flat(v: crate::state::CommitOffsetModel) {
    }
}

/// The pairs of a list with their values flattened.
pub open spec fn flat_pairs<K: Key, V: Flat>(pairs: Seq<(K::V, V::V)>) -> Seq<
    (K::V, <V::F as Model>::V),
> {
    Seq::new(pairs.len(), |i: int| (pairs[i].0, V::flat(pairs[i].1)))
}

/// The pairs of a list with their values raised.
pub open spec fn raised_pairs<K: Key, V: Flat>(pairs: Seq<(K::V, <V::F as Model>::V)>) -> Seq<
    (K::V, V::V),
> {
    Seq::new(pairs.len(), |i: int| (pairs[i].0, V::raised(pairs[i].1)))
}

impl<K: Key, V: Flat> Flat for OrdMap<K, V> {
    type F = Vec<(K, V::F)>;

    open spec fn flat(v: Map<K::V, V::V>) -> Seq<(K::V, <V::F as Model>::V)> {
        flat_pairs::<K, V>(ordered::<K, V::V>(v))
    }

    open spec fn raised(f: Seq<(K::V, <V::F as Model>::V)>) -> Map<K::V, V::V> {
        to_map(raised_pairs::<K, V>(f))
    }

    fn flatten(&self) -> (f: Vec<(K, V::F)>) {
        let mut list: Vec<(K, V::F)> = Vec::new();
        let ghost rows = self.seq();
        proof {
            self.lemma_seq();
        }
        let mut i: usize = 0;
        while i < self.len()
            invariant
                self.wf(),
                rows == self.seq(),
                i <= rows.len(),
                list@.len() == i,
                list_wf(list@),
                forall|j: int|
                    0 <= j < i ==> (#[trigger] list@[j]).model() == (
                        rows[j].0,
                        V::flat(rows[j].1),
                    ),
            decreases rows.len() - i,
        {
            let (key, value) = self.at(i);
            list.push((key.dup(), value.flatten()));
            i += 1;
        }
        assert(list.model() =~= flat_pairs::<K, V>(rows));
        list
    }

    fn raise(f: &Vec<(K, V::F)>) -> (value: OrdMap<K, V>) {
        let mut map: OrdMap<K, V> = OrdMap::new();
        let ghost rows = raised_pairs::<K, V>(f.model());
        let mut i: usize = 0;
        assert(rows.take(0) =~= Seq::<(K::V, V::V)>::empty());
        while i < f.len()
            invariant
                map.wf(),
                f.wf(),
                rows == raised_pairs::<K, V>(f.model()),
                i <= rows.len(),
                map.model() == to_map(rows.take(i as int)),
            decreases rows.len() - i,
        {
            proof {
                assert(f@[i as int].wf());
                assert(rows.take(i + 1).drop_last() =~= rows.take(i as int));
                assert(f.model()[i as int] == f@[i as int].model());
            }
            map.insert(f[i].0.dup(), V::raise(&f[i].1));
            i += 1;
        }
        assert(rows.take(i as int) =~= rows);
        map
    }

    open spec fn sane(v: Map<K::V, V::V>) -> bool {
        &&& listable::<K, V::V>(v)
        &&& forall|k: K::V| #[trigger] v.dom().contains(k) ==> V::sane(v[k])
    }

    proof fn sane_model(&self) {
        self.lemma_seq();
        let m = self.model();
        assert forall|k: K::V| #[trigger] m.dom().contains(k) implies V::sane(m[k]) by {
            let i = lemma_ascending_position::<K, V::V>(self.seq(), k);
            let value = self.lemma_value(i);
            value.sane_model();
        }
    }

    proof fn raised_flat(v: Map<K::V, V::V>) {
        let rows = ordered::<K, V::V>(v);
        let again = raised_pairs::<K, V>(flat_pairs::<K, V>(rows));
        assert forall|i: int| 0 <= i < rows.len() implies #[trigger] again[i] == rows[i] by {
            lemma_ascending_at::<K, V::V>(rows, i);
            assert(v.dom().contains(rows[i].0));
            V::raised_flat(rows[i].1);
        }
        assert(again =~= rows);
    }
}

} // verus!
