//! Ordered maps: pairs kept in ascending key order, found by bisection, and
//! walked in key order. A map stands for the mathematical map of its models.

use crate::model::{Key, Model, Rank};
use vstd::prelude::*;

verus! {

/// The pairs of an entry list, by model.
pub open spec fn models<K: Model, V: Model>(entries: Seq<(K, V)>) -> Seq<(K::V, V::V)> {
    Seq::new(entries.len(), |i: int| (entries[i].0.model(), entries[i].1.model()))
}

/// Whether the keys of a pair list are strictly ascending.
pub open spec fn ascending<K: Key, W>(s: Seq<(K::V, W)>) -> bool {
    forall|i: int, j: int|
        0 <= i < j < s.len() ==> K::precedes((#[trigger] s[i]).0, (#[trigger] s[j]).0)
}

/// The map that a pair list writes out, a later pair replacing an earlier one.
pub open spec fn to_map<A, W>(s: Seq<(A, W)>) -> Map<A, W>
    decreases s.len(),
{
    if s.len() == 0 {
        Map::empty()
    } else {
        to_map(s.drop_last()).insert(s.last().0, s.last().1)
    }
}

/// The pairs of a map in ascending key order.
pub open spec fn ordered<K: Key, W>(m: Map<K::V, W>) -> Seq<(K::V, W)> {
    choose|s: Seq<(K::V, W)>| ascending::<K, W>(s) && #[trigger] to_map(s) == m
}

/// Whether `k` is the greatest key of a map.
pub open spec fn greatest<K: Key, W>(m: Map<K::V, W>, k: K::V) -> bool {
    m.dom().contains(k) && forall|q: K::V| #[trigger] m.dom().contains(q) ==> !K::precedes(k, q)
}

/// The greatest key of a map.
pub open spec fn top_key<K: Key, W>(m: Map<K::V, W>) -> K::V {
    choose|k: K::V| greatest::<K, W>(m, k)
}

/// There is one greatest key at most.
pub proof fn lemma_top_key<K: Key, W>(m: Map<K::V, W>, k: K::V)
    requires
        greatest::<K, W>(m, k),
    ensures
        top_key::<K, W>(m) == k,
{
    let top = top_key::<K, W>(m);
    assert(greatest::<K, W>(m, top));
    K::precedes_total(top, k);
}

pub proof fn lemma_to_map_dom<A, W>(s: Seq<(A, W)>, k: A)
    ensures
        to_map(s).dom().contains(k) <==> exists|i: int| 0 <= i < s.len() && (#[trigger] s[i]).0 == k,
    decreases s.len(),
{
    if s.len() > 0 {
        lemma_to_map_dom(s.drop_last(), k);
        if exists|i: int| 0 <= i < s.len() && (#[trigger] s[i]).0 == k {
            let i = choose|i: int| 0 <= i < s.len() && (#[trigger] s[i]).0 == k;
            if i < s.len() - 1 {
                assert(s.drop_last()[i].0 == k);
            }
        }
        if to_map(s).dom().contains(k) {
            if k == s.last().0 {
                assert(s[s.len() - 1].0 == k);
            } else {
                let i = choose|i: int|
                    0 <= i < s.drop_last().len() && (#[trigger] s.drop_last()[i]).0 == k;
                assert(s[i].0 == k);
            }
        }
    }
}

pub proof fn lemma_to_map_at<A, W>(s: Seq<(A, W)>, i: int)
    requires
        0 <= i < s.len(),
        forall|j: int| i < j < s.len() ==> (#[trigger] s[j]).0 != s[i].0,
    ensures
        to_map(s).dom().contains(s[i].0),
        to_map(s)[s[i].0] == s[i].1,
    decreases s.len(),
{
    if i < s.len() - 1 {
        assert(s[s.len() - 1].0 != s[i].0);
        assert forall|j: int| i < j < s.drop_last().len() implies (#[trigger] s.drop_last()[j]).0
            != s.drop_last()[i].0 by {
            assert(s[j].0 != s[i].0);
        }
        lemma_to_map_at(s.drop_last(), i);
    }
}

pub proof fn lemma_ascending_distinct<K: Key, W>(s: Seq<(K::V, W)>, i: int, j: int)
    requires
        ascending::<K, W>(s),
        0 <= i < s.len(),
        0 <= j < s.len(),
        i != j,
    ensures
        s[i].0 != s[j].0,
{
    K::precedes_irreflexive(s[i].0);
    if i < j {
        assert(K::precedes(s[i].0, s[j].0));
    } else {
        assert(K::precedes(s[j].0, s[i].0));
    }
}

/// In an ascending list every pair is its key's.
pub proof fn lemma_ascending_at<K: Key, W>(s: Seq<(K::V, W)>, i: int)
    requires
        ascending::<K, W>(s),
        0 <= i < s.len(),
    ensures
        to_map(s).dom().contains(s[i].0),
        to_map(s)[s[i].0] == s[i].1,
{
    assert forall|j: int| i < j < s.len() implies (#[trigger] s[j]).0 != s[i].0 by {
        lemma_ascending_distinct::<K, W>(s, i, j);
    }
    lemma_to_map_at(s, i);
}

/// Where a key of an ascending list stands.
pub proof fn lemma_ascending_position<K: Key, W>(s: Seq<(K::V, W)>, k: K::V) -> (i: int)
    requires
        ascending::<K, W>(s),
        to_map(s).dom().contains(k),
    ensures
        0 <= i < s.len(),
        s[i].0 == k,
        to_map(s)[k] == s[i].1,
{
    lemma_to_map_dom(s, k);
    let i = choose|i: int| 0 <= i < s.len() && (#[trigger] s[i]).0 == k;
    lemma_ascending_at::<K, W>(s, i);
    i
}

/// Two ascending lists that write out one map are one list.
pub proof fn lemma_ascending_unique<K: Key, W>(s: Seq<(K::V, W)>, t: Seq<(K::V, W)>)
    requires
        ascending::<K, W>(s),
        ascending::<K, W>(t),
        to_map(s) == to_map(t),
    ensures
        s == t,
    decreases s.len(),
{
    if s.len() == 0 {
        if t.len() > 0 {
            lemma_ascending_at::<K, W>(t, 0);
        }
        assert(s =~= t);
    } else {
        lemma_ascending_at::<K, W>(s, s.len() - 1);
        let i = lemma_ascending_position::<K, W>(t, s.last().0);
        lemma_ascending_at::<K, W>(t, t.len() - 1);
        let j = lemma_ascending_position::<K, W>(s, t.last().0);
        K::precedes_irreflexive(s.last().0);
        if i < t.len() - 1 {
            assert(K::precedes(t[i].0, t[t.len() - 1].0));
            if j < s.len() - 1 {
                assert(K::precedes(s[j].0, s[s.len() - 1].0));
                K::precedes_transitive(s.last().0, t.last().0, s.last().0);
            }
        }
        assert(i == t.len() - 1);
        assert(ascending::<K, W>(s.drop_last()));
        assert(ascending::<K, W>(t.drop_last()));
        lemma_drop_last_map::<K, W>(s);
        lemma_drop_last_map::<K, W>(t);
        lemma_ascending_unique::<K, W>(s.drop_last(), t.drop_last());
        assert(s =~= s.drop_last().push(s.last()));
        assert(t =~= t.drop_last().push(t.last()));
    }
}

proof fn lemma_drop_last_map<K: Key, W>(s: Seq<(K::V, W)>)
    requires
        ascending::<K, W>(s),
        s.len() > 0,
    ensures
        to_map(s.drop_last()) == to_map(s).remove(s.last().0),
{
    let k = s.last().0;
    lemma_to_map_dom(s.drop_last(), k);
    if to_map(s.drop_last()).dom().contains(k) {
        let i = choose|i: int|
            0 <= i < s.drop_last().len() && (#[trigger] s.drop_last()[i]).0 == k;
        lemma_ascending_distinct::<K, W>(s, i, s.len() - 1);
    }
    assert(to_map(s.drop_last()) =~= to_map(s).remove(k));
}

/// An ascending list is the ordered list of the map it writes out.
pub proof fn lemma_ordered<K: Key, W>(s: Seq<(K::V, W)>)
    requires
        ascending::<K, W>(s),
    ensures
        ordered::<K, W>(to_map(s)) == s,
{
    let t = ordered::<K, W>(to_map(s));
    assert(ascending::<K, W>(s) && to_map(s) == to_map(s));
    lemma_ascending_unique::<K, W>(s, t);
}

/// Replacing a value in place rewrites its key's value.
pub proof fn lemma_update_map<K: Key, W>(s: Seq<(K::V, W)>, i: int, w: W)
    requires
        ascending::<K, W>(s),
        0 <= i < s.len(),
    ensures
        ascending::<K, W>(s.update(i, (s[i].0, w))),
        to_map(s.update(i, (s[i].0, w))) == to_map(s).insert(s[i].0, w),
{
    let t = s.update(i, (s[i].0, w));
    assert(ascending::<K, W>(t)) by {
        assert forall|a: int, b: int| 0 <= a < b < t.len() implies K::precedes(
            (#[trigger] t[a]).0,
            (#[trigger] t[b]).0,
        ) by {
            assert(K::precedes(s[a].0, s[b].0));
        }
    }
    assert forall|k: K::V| to_map(t).dom().contains(k) <==> to_map(s).insert(s[i].0, w).dom().contains(k) by {
        lemma_to_map_dom(s, k);
        lemma_to_map_dom(t, k);
        if to_map(t).dom().contains(k) {
            let p = lemma_ascending_position::<K, W>(t, k);
            assert(s[p].0 == k);
        }
        if to_map(s).dom().contains(k) {
            let p = lemma_ascending_position::<K, W>(s, k);
            assert(t[p].0 == k);
        }
        if k == s[i].0 {
            assert(t[i].0 == k);
        }
    }
    assert forall|k: K::V| to_map(t).dom().contains(k) implies #[trigger] to_map(t)[k] == to_map(s).insert(s[i].0, w)[k] by {
        let p = lemma_ascending_position::<K, W>(t, k);
        if p != i {
            lemma_ascending_distinct::<K, W>(s, i, p);
            lemma_ascending_at::<K, W>(s, p);
        }
    }
    assert(to_map(t) =~= to_map(s).insert(s[i].0, w));
}

/// Putting a new key in its place adds it.
pub proof fn lemma_insert_map<K: Key, W>(s: Seq<(K::V, W)>, i: int, k: K::V, w: W)
    requires
        ascending::<K, W>(s),
        0 <= i <= s.len(),
        forall|j: int| 0 <= j < i ==> K::precedes((#[trigger] s[j]).0, k),
        forall|j: int| i <= j < s.len() ==> K::precedes(k, (#[trigger] s[j]).0),
    ensures
        ascending::<K, W>(s.insert(i, (k, w))),
        to_map(s.insert(i, (k, w))) == to_map(s).insert(k, w),
        !to_map(s).dom().contains(k),
{
    let t = s.insert(i, (k, w));
    assert forall|a: int, b: int| 0 <= a < b < t.len() implies K::precedes(
        (#[trigger] t[a]).0,
        (#[trigger] t[b]).0,
    ) by {
        if a < i {
            assert(t[a] == s[a]);
            if b < i {
                assert(t[b] == s[b]);
            } else if b > i {
                assert(t[b] == s[b - 1]);
            }
        } else if a > i {
            assert(t[a] == s[a - 1]);
            assert(t[b] == s[b - 1]);
        } else {
            assert(t[b] == s[b - 1]);
        }
    }
    K::precedes_irreflexive(k);
    lemma_to_map_dom(s, k);
    assert forall|q: K::V| to_map(t).dom().contains(q) <==> to_map(s).insert(k, w).dom().contains(q) by {
        lemma_to_map_dom(s, q);
        lemma_to_map_dom(t, q);
        if to_map(t).dom().contains(q) {
            let p = lemma_ascending_position::<K, W>(t, q);
            if p < i {
                assert(s[p].0 == q);
            } else if p > i {
                assert(s[p - 1].0 == q);
            }
        }
        if to_map(s).dom().contains(q) {
            let p = lemma_ascending_position::<K, W>(s, q);
            if p < i {
                assert(t[p].0 == q);
            } else {
                assert(t[p + 1].0 == q);
            }
        }
        if q == k {
            assert(t[i].0 == k);
        }
    }
    assert forall|q: K::V| to_map(t).dom().contains(q) implies #[trigger] to_map(t)[q] == to_map(s).insert(k, w)[q] by {
        let p = lemma_ascending_position::<K, W>(t, q);
        if p < i {
            lemma_ascending_at::<K, W>(s, p);
        } else if p > i {
            lemma_ascending_at::<K, W>(s, p - 1);
        }
    }
    assert(to_map(t) =~= to_map(s).insert(k, w));
}

/// Taking a pair out removes its key.
pub proof fn lemma_remove_map<K: Key, W>(s: Seq<(K::V, W)>, i: int)
    requires
        ascending::<K, W>(s),
        0 <= i < s.len(),
    ensures
        ascending::<K, W>(s.remove(i)),
        to_map(s.remove(i)) == to_map(s).remove(s[i].0),
{
    let t = s.remove(i);
    assert forall|a: int, b: int| 0 <= a < b < t.len() implies K::precedes(
        (#[trigger] t[a]).0,
        (#[trigger] t[b]).0,
    ) by {
        let a2 = if a < i { a } else { a + 1 };
        let b2 = if b < i { b } else { b + 1 };
        assert(K::precedes(s[a2].0, s[b2].0));
    }
    assert forall|q: K::V| to_map(t).dom().contains(q) <==> to_map(s).remove(s[i].0).dom().contains(q) by {
        lemma_to_map_dom(s, q);
        lemma_to_map_dom(t, q);
        if to_map(t).dom().contains(q) {
            let p = lemma_ascending_position::<K, W>(t, q);
            let p2 = if p < i { p } else { p + 1 };
            assert(s[p2].0 == q);
            lemma_ascending_distinct::<K, W>(s, i, p2);
        }
        if to_map(s).dom().contains(q) && q != s[i].0 {
            let p = lemma_ascending_position::<K, W>(s, q);
            let p2 = if p < i { p } else { p - 1 };
            assert(t[p2].0 == q);
        }
    }
    assert forall|q: K::V| to_map(t).dom().contains(q) implies #[trigger] to_map(t)[q] == to_map(s).remove(s[i].0)[q] by {
        let p = lemma_ascending_position::<K, W>(t, q);
        let p2 = if p < i { p } else { p + 1 };
        lemma_ascending_at::<K, W>(s, p2);
        lemma_ascending_distinct::<K, W>(s, i, p2);
    }
    assert(to_map(t) =~= to_map(s).remove(s[i].0));
}

/// A map from keys to values, walked in ascending key order.
pub struct OrdMap<K, V> {
    entries: Vec<(K, V)>,
}

impl<K: Key, V: Model> OrdMap<K, V> {
    /// The pairs in key order.
    pub closed spec fn seq(&self) -> Seq<(K::V, V::V)> {
        models(self.entries@)
    }

    spec fn entries_wf(entries: Seq<(K, V)>) -> bool {
        &&& ascending::<K, V::V>(models(entries))
        &&& forall|i: int|
            0 <= i < entries.len() ==> (#[trigger] entries[i]).0.wf() && entries[i].1.wf()
    }
}

impl<K: Key, V: Model> Model for OrdMap<K, V> {
    type V = Map<K::V, V::V>;

    open spec fn model(&self) -> Map<K::V, V::V> {
        to_map(self.seq())
    }

    closed spec fn wf(&self) -> bool {
        Self::entries_wf(self.entries@)
    }

    fn dup(&self) -> (copy: Self) {
        let mut entries: Vec<(K, V)> = Vec::new();
        let mut i: usize = 0;
        while i < self.entries.len()
            invariant
                self.wf(),
                i <= self.entries@.len(),
                entries@.len() == i,
                forall|j: int|
                    0 <= j < i ==> {
                        &&& (#[trigger] entries@[j]).0.wf()
                        &&& entries@[j].1.wf()
                        &&& entries@[j].0.model() == self.entries@[j].0.model()
                        &&& entries@[j].1.model() == self.entries@[j].1.model()
                    },
            decreases self.entries@.len() - i,
        {
            assert(self.entries@[i as int].0.wf());
            entries.push((self.entries[i].0.dup(), self.entries[i].1.dup()));
            i += 1;
        }
        assert(models(entries@) =~= models(self.entries@));
        OrdMap { entries }
    }
}

impl<K: Key, V: Model> OrdMap<K, V> {
    /// The pairs in key order are the map's ordered list.
    pub proof fn lemma_seq(&self)
        requires
            self.wf(),
        ensures
            ascending::<K, V::V>(self.seq()),
            self.seq() == ordered::<K, V::V>(self.model()),
    {
        lemma_ordered::<K, V::V>(self.seq());
    }

    /// A value that stands at a position.
    pub proof fn lemma_value(&self, i: int) -> (value: V)
        requires
            self.wf(),
            0 <= i < self.seq().len(),
        ensures
            value.wf(),
            value.model() == self.seq()[i].1,
    {
        assert(self.entries@[i].0.wf());
        self.entries@[i].1
    }

    pub fn new() -> (map: Self)
        ensures
            map.wf(),
            map.seq() == Seq::<(K::V, V::V)>::empty(),
            map.model() == Map::<K::V, V::V>::empty(),
    {
        let map = OrdMap { entries: Vec::new() };
        assert(map.seq() =~= Seq::<(K::V, V::V)>::empty());
        map
    }

    pub fn len(&self) -> (n: usize)
        ensures
            n == self.seq().len(),
    {
        self.entries.len()
    }

    /// The pair at a position of the key order.
    pub fn at(&self, i: usize) -> (pair: (&K, &V))
        requires
            self.wf(),
            i < self.seq().len(),
        ensures
            pair.0.wf(),
            pair.1.wf(),
            (pair.0.model(), pair.1.model()) == self.seq()[i as int],
    {
        let entry = &self.entries[i];
        assert(self.entries@[i as int].0.wf());
        (&entry.0, &entry.1)
    }

    /// The pair with the greatest key.
    pub fn last(&self) -> (pair: Option<(&K, &V)>)
        requires
            self.wf(),
        ensures
            match pair {
                Some((k, v)) => {
                    &&& k.wf()
                    &&& v.wf()
                    &&& greatest::<K, V::V>(self.model(), k.model())
                    &&& self.model()[k.model()] == v.model()
                },
                None => self.model() == Map::<K::V, V::V>::empty(),
            },
    {
        let n = self.entries.len();
        if n == 0 {
            assert(self.seq() =~= Seq::<(K::V, V::V)>::empty());
            return None;
        }
        let pair = self.at(n - 1);
        proof {
            let s = self.seq();
            lemma_ascending_at::<K, V::V>(s, n - 1);
            assert forall|k: K::V| self.model().dom().contains(k) implies !K::precedes(
                pair.0.model(),
                k,
            ) by {
                let i = lemma_ascending_position::<K, V::V>(s, k);
                K::precedes_irreflexive(k);
                if i < n - 1 && K::precedes(pair.0.model(), k) {
                    assert(K::precedes(s[i].0, s[n - 1].0));
                    K::precedes_transitive(k, pair.0.model(), k);
                }
            }
        }
        Some(pair)
    }

    /// How many keys come before `key`.
    pub fn lower_bound(&self, key: &K) -> (n: usize)
        requires
            self.wf(),
            key.wf(),
        ensures
            n <= self.seq().len(),
            forall|i: int| 0 <= i < n ==> K::precedes((#[trigger] self.seq()[i]).0, key.model()),
            forall|i: int|
                n <= i < self.seq().len() ==> !K::precedes((#[trigger] self.seq()[i]).0, key.model()),
    {
        let mut lo: usize = 0;
        let mut hi: usize = self.entries.len();
        while lo < hi
            invariant
                self.wf(),
                key.wf(),
                lo <= hi <= self.seq().len(),
                forall|i: int| 0 <= i < lo ==> K::precedes((#[trigger] self.seq()[i]).0, key.model()),
                forall|i: int|
                    hi <= i < self.seq().len() ==> !K::precedes(
                        (#[trigger] self.seq()[i]).0,
                        key.model(),
                    ),
            decreases hi - lo,
        {
            let mid: usize = lo + (hi - lo) / 2;
            assert(self.entries@[mid as int].0.wf());
            match self.entries[mid].0.rank(key) {
                Rank::Below => {
                    assert forall|i: int| 0 <= i < mid + 1 implies K::precedes(
                        (#[trigger] self.seq()[i]).0,
                        key.model(),
                    ) by {
                        if i < mid {
                            K::precedes_transitive(self.seq()[i].0, self.seq()[mid as int].0, key.model());
                        }
                    }
                    lo = mid + 1;
                },
                _ => {
                    assert forall|i: int| mid <= i < self.seq().len() implies !K::precedes(
                        (#[trigger] self.seq()[i]).0,
                        key.model(),
                    ) by {
                        if i > mid && K::precedes(self.seq()[i].0, key.model()) {
                            K::precedes_transitive(self.seq()[mid as int].0, self.seq()[i].0, key.model());
                        }
                    }
                    hi = mid;
                },
            }
        }
        lo
    }

    /// The position of `key`, if it is there.
    pub fn find(&self, key: &K) -> (position: Option<usize>)
        requires
            self.wf(),
            key.wf(),
        ensures
            match position {
                Some(i) => {
                    &&& i < self.seq().len()
                    &&& self.seq()[i as int].0 == key.model()
                    &&& self.model().dom().contains(key.model())
                    &&& self.model()[key.model()] == self.seq()[i as int].1
                },
                None => !self.model().dom().contains(key.model()),
            },
    {
        let i = self.lower_bound(key);
        if i < self.entries.len() {
            assert(self.entries@[i as int].0.wf());
            if matches!(self.entries[i].0.rank(key), Rank::Same) {
                proof {
                    lemma_ascending_at::<K, V::V>(self.seq(), i as int);
                }
                return Some(i);
            }
        }
        proof {
            self.lemma_absent(key, i as int);
        }
        None
    }

    proof fn lemma_absent(&self, key: &K, i: int)
        requires
            self.wf(),
            0 <= i <= self.seq().len(),
            forall|j: int| 0 <= j < i ==> K::precedes((#[trigger] self.seq()[j]).0, key.model()),
            forall|j: int|
                i <= j < self.seq().len() ==> !K::precedes((#[trigger] self.seq()[j]).0, key.model()),
            i < self.seq().len() ==> self.seq()[i].0 != key.model(),
        ensures
            !self.model().dom().contains(key.model()),
            forall|j: int|
                i <= j < self.seq().len() ==> K::precedes(key.model(), (#[trigger] self.seq()[j]).0),
    {
        assert forall|j: int| i <= j < self.seq().len() implies K::precedes(
            key.model(),
            (#[trigger] self.seq()[j]).0,
        ) by {
            K::precedes_total(self.seq()[i].0, key.model());
            if j > i {
                K::precedes_transitive(key.model(), self.seq()[i].0, self.seq()[j].0);
            }
        }
        lemma_to_map_dom(self.seq(), key.model());
        K::precedes_irreflexive(key.model());
    }

    pub fn contains(&self, key: &K) -> (b: bool)
        requires
            self.wf(),
            key.wf(),
        ensures
            b == self.model().dom().contains(key.model()),
    {
        self.find(key).is_some()
    }

    pub fn get(&self, key: &K) -> (value: Option<&V>)
        requires
            self.wf(),
            key.wf(),
        ensures
            match value {
                Some(v) => {
                    &&& v.wf()
                    &&& self.model().dom().contains(key.model())
                    &&& self.model()[key.model()] == v.model()
                },
                None => !self.model().dom().contains(key.model()),
            },
    {
        match self.find(key) {
            Some(i) => Some(self.at(i).1),
            None => None,
        }
    }

    /// The value at a position, to be changed in place.
    pub fn value_mut(&mut self, i: usize) -> (value: &mut V)
        requires
            old(self).wf(),
            i < old(self).seq().len(),
        ensures
            value.wf(),
            value.model() == old(self).seq()[i as int].1,
            final(value).wf() ==> final(self).wf(),
            final(self).seq() == old(self).seq().update(
                i as int,
                (old(self).seq()[i as int].0, final(value).model()),
            ),
            final(self).model() == old(self).model().insert(
                old(self).seq()[i as int].0,
                final(value).model(),
            ),
    {
        proof {
            let entries = self.entries@;
            assert(entries[i as int].0.wf());
            assert forall|v: V| true implies {
                let after = #[trigger] entries.update(i as int, (entries[i as int].0, v));
                &&& models(after) == models(entries).update(
                    i as int,
                    (models(entries)[i as int].0, v.model()),
                )
                &&& v.wf() ==> Self::entries_wf(after)
                &&& to_map(models(after)) == to_map(models(entries)).insert(
                    models(entries)[i as int].0,
                    v.model(),
                )
            } by {
                let after = entries.update(i as int, (entries[i as int].0, v));
                assert(models(after) =~= models(entries).update(
                    i as int,
                    (models(entries)[i as int].0, v.model()),
                ));
                lemma_update_map::<K, V::V>(models(entries), i as int, v.model());
                if v.wf() {
                    assert forall|j: int| 0 <= j < after.len() implies (#[trigger] after[j]).0.wf()
                        && after[j].1.wf() by {
                        assert(entries[j].0.wf());
                    }
                }
            }
        }
        &mut self.entries[i].1
    }

    pub fn get_mut(&mut self, key: &K) -> (value: Option<&mut V>)
        requires
            old(self).wf(),
            key.wf(),
        ensures
            match value {
                Some(v) => {
                    &&& v.wf()
                    &&& old(self).model().dom().contains(key.model())
                    &&& old(self).model()[key.model()] == v.model()
                    &&& final(v).wf() ==> final(self).wf()
                    &&& final(self).model() == old(self).model().insert(
                        key.model(),
                        final(v).model(),
                    )
                },
                None => {
                    &&& !old(self).model().dom().contains(key.model())
                    &&& *final(self) == *old(self)
                },
            },
    {
        match self.find(key) {
            Some(i) => Some(self.value_mut(i)),
            None => None,
        }
    }

    /// Puts `key` in with `value`, replacing what stood there.
    pub fn insert(&mut self, key: K, value: V)
        requires
            old(self).wf(),
            key.wf(),
            value.wf(),
        ensures
            final(self).wf(),
            final(self).model() == old(self).model().insert(key.model(), value.model()),
    {
        let i = self.lower_bound(&key);
        if i < self.entries.len() {
            assert(self.entries@[i as int].0.wf());
            if matches!(self.entries[i].0.rank(&key), Rank::Same) {
                let slot = self.value_mut(i);
                *slot = value;
                return ;
            }
        }
        proof {
            self.lemma_absent(&key, i as int);
            lemma_insert_map::<K, V::V>(self.seq(), i as int, key.model(), value.model());
        }
        self.entries.insert(i, (key, value));
        proof {
            let before = old(self).entries@;
            assert(models(self.entries@) =~= models(before).insert(
                i as int,
                (key.model(), value.model()),
            ));
            assert forall|j: int| 0 <= j < self.entries@.len() implies (
            #[trigger] self.entries@[j]).0.wf() && self.entries@[j].1.wf() by {
                if j < i {
                    assert(before[j].0.wf());
                } else if j > i {
                    assert(before[j - 1].0.wf());
                }
            }
        }
    }

    /// Takes the pair at a position out.
    pub fn remove_at(&mut self, i: usize) -> (value: V)
        requires
            old(self).wf(),
            i < old(self).seq().len(),
        ensures
            final(self).wf(),
            final(self).seq() == old(self).seq().remove(i as int),
            final(self).model() == old(self).model().remove(old(self).seq()[i as int].0),
            value.wf(),
            value.model() == old(self).seq()[i as int].1,
    {
        let entry = self.entries.remove(i);
        proof {
            let before = old(self).entries@;
            assert(before[i as int].0.wf());
            assert(models(self.entries@) =~= models(before).remove(i as int));
            lemma_remove_map::<K, V::V>(models(before), i as int);
            assert forall|j: int| 0 <= j < self.entries@.len() implies (
            #[trigger] self.entries@[j]).0.wf() && self.entries@[j].1.wf() by {
                if j < i {
                    assert(before[j].0.wf());
                } else {
                    assert(before[j + 1].0.wf());
                }
            }
        }
        entry.1
    }

    /// Takes `key` out, giving back the value that stood there.
    pub fn remove(&mut self, key: &K) -> (value: Option<V>)
        requires
            old(self).wf(),
            key.wf(),
        ensures
            final(self).wf(),
            final(self).model() == old(self).model().remove(key.model()),
            match value {
                Some(v) => {
                    &&& v.wf()
                    &&& old(self).model().dom().contains(key.model())
                    &&& old(self).model()[key.model()] == v.model()
                },
                None => {
                    &&& !old(self).model().dom().contains(key.model())
                    &&& *final(self) == *old(self)
                },
            },
    {
        match self.find(key) {
            Some(i) => Some(self.remove_at(i)),
            None => {
                assert(self.model() =~= self.model().remove(key.model()));
                None
            },
        }
    }

    /// The value of `key`, put in as `fallback` where there is none.
    pub fn entry(&mut self, key: K, fallback: V) -> (value: &mut V)
        requires
            old(self).wf(),
            key.wf(),
            fallback.wf(),
        ensures
            value.wf(),
            value.model() == (if old(self).model().dom().contains(key.model()) {
                old(self).model()[key.model()]
            } else {
                fallback.model()
            }),
            final(value).wf() ==> final(self).wf(),
            final(self).model() == old(self).model().insert(key.model(), final(value).model()),
    {
        let i = self.lower_bound(&key);
        let mut there: bool = false;
        if i < self.entries.len() {
            assert(self.entries@[i as int].0.wf());
            if matches!(self.entries[i].0.rank(&key), Rank::Same) {
                there = true;
                proof {
                    lemma_ascending_at::<K, V::V>(self.seq(), i as int);
                }
            }
        }
        let ghost k = key.model();
        let ghost w = fallback.model();
        if !there {
            proof {
                self.lemma_absent(&key, i as int);
                lemma_insert_map::<K, V::V>(self.seq(), i as int, k, w);
            }
            self.entries.insert(i, (key, fallback));
            proof {
                let before = old(self).entries@;
                assert(models(self.entries@) =~= models(before).insert(i as int, (k, w)));
                assert forall|j: int| 0 <= j < self.entries@.len() implies (
                #[trigger] self.entries@[j]).0.wf() && self.entries@[j].1.wf() by {
                    if j < i {
                        assert(before[j].0.wf());
                    } else if j > i {
                        assert(before[j - 1].0.wf());
                    }
                }
                assert(self.model() == old(self).model().insert(k, w));
                assert forall|v: V::V| true implies #[trigger] old(self).model().insert(k, w).insert(
                    k,
                    v,
                ) == old(self).model().insert(k, v) by {
                    assert(old(self).model().insert(k, w).insert(k, v) =~= old(self).model().insert(
                        k,
                        v,
                    ));
                }
            }
        }
        self.value_mut(i)
    }

    /// Takes everything out.
    pub fn clear(&mut self)
        ensures
            final(self).wf(),
            final(self).model() == Map::<K::V, V::V>::empty(),
    {
        self.entries.clear();
        assert(self.seq() =~= Seq::<(K::V, V::V)>::empty());
    }
}

/// A choice among the pairs of a map.
pub trait Pick<K: Key, V: Model> {
    spec fn picks(&self, k: K::V, v: V::V) -> bool;

    fn pick(&self, key: &K, value: &V) -> (b: bool)
        requires
            key.wf(),
            value.wf(),
        ensures
            b == self.picks(key.model(), value.model()),
    ;
}

/// The pairs of a map that satisfy a condition.
pub open spec fn chosen<A, W>(m: Map<A, W>, keep: spec_fn(A, W) -> bool) -> Map<A, W> {
    Map::new(|k: A| m.dom().contains(k) && keep(k, m[k]), |k: A| m[k])
}

/// The pairs of a list that satisfy a condition.
pub open spec fn chosen_of<A, W>(s: Seq<(A, W)>, keep: spec_fn(A, W) -> bool) -> Seq<(A, W)>
    decreases s.len(),
{
    if s.len() == 0 {
        s
    } else {
        let rest = chosen_of(s.drop_last(), keep);
        if keep(s.last().0, s.last().1) {
            rest.push(s.last())
        } else {
            rest
        }
    }
}

/// Choosing from the list is choosing from the map.
pub proof fn lemma_chosen<K: Key, W>(s: Seq<(K::V, W)>, keep: spec_fn(K::V, W) -> bool)
    requires
        ascending::<K, W>(s),
    ensures
        ascending::<K, W>(chosen_of(s, keep)),
        to_map(chosen_of(s, keep)) == chosen(to_map(s), keep),
        forall|i: int| 0 <= i < chosen_of(s, keep).len() ==> s.contains(#[trigger] chosen_of(s, keep)[i]),
    decreases s.len(),
{
    let after = chosen_of(s, keep);
    if s.len() == 0 {
        assert(to_map(after) =~= chosen(to_map(s), keep));
    } else {
        let init = s.drop_last();
        let rest = chosen_of(init, keep);
        lemma_chosen::<K, W>(init, keep);
        lemma_to_map_dom(init, s.last().0);
        K::precedes_irreflexive(s.last().0);
        assert(!to_map(init).dom().contains(s.last().0));
        assert forall|i: int| 0 <= i < after.len() implies s.contains(#[trigger] after[i]) by {
            if i < rest.len() {
                assert(init.contains(rest[i]));
                let j = choose|j: int| 0 <= j < init.len() && init[j] == rest[i];
                assert(s[j] == rest[i]);
            } else {
                assert(s[s.len() - 1] == after[i]);
            }
        }
        assert forall|i: int, j: int| 0 <= i < j < after.len() implies K::precedes(
            (#[trigger] after[i]).0,
            (#[trigger] after[j]).0,
        ) by {
            if j == rest.len() {
                assert(init.contains(rest[i]));
                let n = choose|n: int| 0 <= n < init.len() && init[n] == rest[i];
                assert(s[n] == rest[i]);
                assert(s[s.len() - 1] == after[j]);
            } else {
                assert(rest[i] == after[i] && rest[j] == after[j]);
            }
        }
        if keep(s.last().0, s.last().1) {
            assert(after.drop_last() =~= rest);
        }
        assert(to_map(after) =~= chosen(to_map(s), keep));
    }
}

/// A condition that holds of one stretch of a list chooses that stretch.
pub proof fn lemma_stretch<A, W>(s: Seq<(A, W)>, from: int, to: int, keep: spec_fn(A, W) -> bool)
    requires
        0 <= from <= to <= s.len(),
        forall|i: int|
            0 <= i < s.len() ==> (keep((#[trigger] s[i]).0, s[i].1) <==> from <= i < to),
    ensures
        chosen_of(s, keep) == s.subrange(from, to),
    decreases s.len(),
{
    if s.len() == 0 {
        assert(s.subrange(from, to) =~= s);
    } else {
        let init = s.drop_last();
        let last = s.len() - 1;
        assert(keep(s[last].0, s[last].1) <==> from <= last < to);
        let end = if to > init.len() {
            init.len() as int
        } else {
            to
        };
        let start = if from > init.len() {
            init.len() as int
        } else {
            from
        };
        assert forall|i: int| 0 <= i < init.len() implies (keep((#[trigger] init[i]).0, init[i].1)
            <==> start <= i < end) by {
            assert(init[i] == s[i]);
        }
        lemma_stretch(init, start, end, keep);
        if from <= last < to {
            assert(s.subrange(from, to) =~= init.subrange(start, end).push(s.last()));
        } else {
            assert(s.subrange(from, to) =~= init.subrange(start, end));
        }
    }
}

impl<K: Key, V: Model> OrdMap<K, V> {
    /// Keeps the pairs that are picked.
    pub fn retain<P: Pick<K, V>>(&mut self, keep: &P)
        requires
            old(self).wf(),
        ensures
            final(self).wf(),
            final(self).seq() == chosen_of(old(self).seq(), |k: K::V, v: V::V| keep.picks(k, v)),
            final(self).model() == chosen(old(self).model(), |k: K::V, v: V::V| keep.picks(k, v)),
    {
        let ghost all = self.entries@;
        let ghost rows = models(all);
        let ghost picked = |k: K::V, v: V::V| keep.picks(k, v);
        let total: usize = self.entries.len();
        let mut rest: Vec<(K, V)> = Vec::new();
        let mut left: usize = total;
        while left > 0
            invariant
                left <= total == all.len(),
                self.entries@ == all.take(left as int),
                rest@.len() == total - left,
                forall|j: int| 0 <= j < rest@.len() ==> #[trigger] rest@[j] == all[total - 1 - j],
            decreases left,
        {
            let entry = self.entries.pop().unwrap();
            rest.push(entry);
            left -= 1;
            assert(self.entries@ =~= all.take(left as int));
        }
        let mut i: usize = 0;
        assert(models(self.entries@) =~= chosen_of(rows.take(0), picked));
        while i < total
            invariant
                i <= total == all.len(),
                rows == models(all),
                picked == (|k: K::V, v: V::V| keep.picks(k, v)),
                Self::entries_wf(all),
                rest@.len() == total - i,
                forall|j: int| 0 <= j < rest@.len() ==> #[trigger] rest@[j] == all[total - 1 - j],
                models(self.entries@) == chosen_of(rows.take(i as int), picked),
                forall|j: int|
                    0 <= j < self.entries@.len() ==> (#[trigger] self.entries@[j]).0.wf()
                        && self.entries@[j].1.wf(),
            decreases total - i,
        {
            assert(rest@[rest@.len() - 1] == all[i as int]);
            let entry = rest.pop().unwrap();
            proof {
                assert(all[i as int].0.wf());
                assert(rows.take(i + 1).drop_last() =~= rows.take(i as int));
            }
            let ghost before = models(self.entries@);
            if keep.pick(&entry.0, &entry.1) {
                self.entries.push(entry);
                assert(models(self.entries@) =~= before.push(rows[i as int]));
            }
            i += 1;
        }
        proof {
            assert(rows.take(i as int) =~= rows);
            lemma_chosen::<K, V::V>(rows, picked);
        }
    }
}

} // verus!
