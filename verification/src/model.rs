//! Values and what they mean: every stateful type of the library stands for
//! a mathematical value, and keys of ordered maps are totally ordered by it.

use vstd::prelude::*;
use vstd::utf8::{encode_utf8, encode_utf8_decode_utf8};

verus! {

/// A type whose values stand for mathematical ones: `model` gives the value
/// meant, `wf` the validity that every operation keeps, and `dup` an equal copy.
pub trait Model: Sized {
    type V;

    spec fn model(&self) -> Self::V;

    spec fn wf(&self) -> bool;

    fn dup(&self) -> (copy: Self)
        requires
            self.wf(),
        ensures
            copy.wf(),
            copy.model() == self.model(),
    ;
}

/// How one key stands to another.
#[derive(Clone, Copy, PartialEq, Eq, Structural, Debug)]
pub enum Rank {
    Below,
    Same,
    Above,
}

/// A type whose models are totally ordered.
pub trait Key: Model {
    spec fn precedes(a: Self::V, b: Self::V) -> bool;

    proof fn precedes_irreflexive(a: Self::V)
        ensures
            !Self::precedes(a, a),
    ;

    proof fn precedes_transitive(a: Self::V, b: Self::V, c: Self::V)
        requires
            Self::precedes(a, b),
            Self::precedes(b, c),
        ensures
            Self::precedes(a, c),
    ;

    proof fn precedes_total(a: Self::V, b: Self::V)
        ensures
            Self::precedes(a, b) || a == b || Self::precedes(b, a),
    ;

    fn rank(&self, other: &Self) -> (r: Rank)
        requires
            self.wf(),
            other.wf(),
        ensures
            r is Below <==> Self::precedes(self.model(), other.model()),
            r is Same <==> self.model() == other.model(),
            r is Above <==> Self::precedes(other.model(), self.model()),
    ;
}

impl Model for i16 {
    type V = i16;

    open spec fn model(&self) -> i16 {
        *self
    }

    open spec fn wf(&self) -> bool {
        true
    }

    fn dup(&self) -> (copy: Self) {
        *self
    }
}

impl Key for i16 {
    open spec fn precedes(a: i16, b: i16) -> bool {
        a < b
    }

    proof fn precedes_irreflexive(a: i16) {
    }

    proof fn precedes_transitive(a: i16, b: i16, c: i16) {
    }

    proof fn precedes_total(a: i16, b: i16) {
    }

    fn rank(&self, other: &Self) -> (r: Rank) {
        if *self < *other {
            Rank::Below
        } else if *self == *other {
            Rank::Same
        } else {
            Rank::Above
        }
    }
}

impl Model for i32 {
    type V = i32;

    open spec fn model(&self) -> i32 {
        *self
    }

    open spec fn wf(&self) -> bool {
        true
    }

    fn dup(&self) -> (copy: Self) {
        *self
    }
}

impl Key for i32 {
    open spec fn precedes(a: i32, b: i32) -> bool {
        a < b
    }

    proof fn precedes_irreflexive(a: i32) {
    }

    proof fn precedes_transitive(a: i32, b: i32, c: i32) {
    }

    proof fn precedes_total(a: i32, b: i32) {
    }

    fn rank(&self, other: &Self) -> (r: Rank) {
        if *self < *other {
            Rank::Below
        } else if *self == *other {
            Rank::Same
        } else {
            Rank::Above
        }
    }
}

impl Model for i64 {
    type V = i64;

    open spec fn model(&self) -> i64 {
        *self
    }

    open spec fn wf(&self) -> bool {
        true
    }

    fn dup(&self) -> (copy: Self) {
        *self
    }
}

impl Key for i64 {
    open spec fn precedes(a: i64, b: i64) -> bool {
        a < b
    }

    proof fn precedes_irreflexive(a: i64) {
    }

    proof fn precedes_transitive(a: i64, b: i64, c: i64) {
    }

    proof fn precedes_total(a: i64, b: i64) {
    }

    fn rank(&self, other: &Self) -> (r: Rank) {
        if *self < *other {
            Rank::Below
        } else if *self == *other {
            Rank::Same
        } else {
            Rank::Above
        }
    }
}

impl Model for u64 {
    type V = u64;

    open spec fn model(&self) -> u64 {
        *self
    }

    open spec fn wf(&self) -> bool {
        true
    }

    fn dup(&self) -> (copy: Self) {
        *self
    }
}

impl Key for u64 {
    open spec fn precedes(a: u64, b: u64) -> bool {
        a < b
    }

    proof fn precedes_irreflexive(a: u64) {
    }

    proof fn precedes_transitive(a: u64, b: u64, c: u64) {
    }

    proof fn precedes_total(a: u64, b: u64) {
    }

    fn rank(&self, other: &Self) -> (r: Rank) {
        if *self < *other {
            Rank::Below
        } else if *self == *other {
            Rank::Same
        } else {
            Rank::Above
        }
    }
}

impl Model for () {
    type V = ();

    open spec fn model(&self) -> () {
        *self
    }

    open spec fn wf(&self) -> bool {
        true
    }

    fn dup(&self) -> (copy: Self) {
        *self
    }
}

impl<T: Model> Model for Option<T> {
    type V = Option<T::V>;

    open spec fn model(&self) -> Option<T::V> {
        match self {
            Some(t) => Some(t.model()),
            None => None,
        }
    }

    open spec fn wf(&self) -> bool {
        match self {
            Some(t) => t.wf(),
            None => true,
        }
    }

    fn dup(&self) -> (copy: Self) {
        match self {
            Some(t) => Some(t.dup()),
            None => None,
        }
    }
}

/// The models of a list.
pub open spec fn list_model<T: Model>(s: Seq<T>) -> Seq<T::V> {
    Seq::new(s.len(), |i: int| s[i].model())
}

/// Whether every item of a list is valid.
pub open spec fn list_wf<T: Model>(s: Seq<T>) -> bool {
    forall|i: int| 0 <= i < s.len() ==> (#[trigger] s[i]).wf()
}

impl<T: Model> Model for Vec<T> {
    type V = Seq<T::V>;

    open spec fn model(&self) -> Seq<T::V> {
        list_model(self@)
    }

    open spec fn wf(&self) -> bool {
        list_wf(self@)
    }

    fn dup(&self) -> (copy: Self) {
        let mut copy: Vec<T> = Vec::new();
        let mut i: usize = 0;
        while i < self.len()
            invariant
                self.wf(),
                i <= self@.len(),
                copy@.len() == i,
                forall|j: int|
                    0 <= j < i ==> (#[trigger] copy@[j]).wf() && copy@[j].model()
                        == self@[j].model(),
            decreases self@.len() - i,
        {
            copy.push(self[i].dup());
            i += 1;
        }
        assert(copy.model() =~= self.model());
        copy
    }
}

impl<A: Model, B: Model, C: Model> Model for (A, B, C) {
    type V = (A::V, B::V, C::V);

    open spec fn model(&self) -> (A::V, B::V, C::V) {
        (self.0.model(), self.1.model(), self.2.model())
    }

    open spec fn wf(&self) -> bool {
        self.0.wf() && self.1.wf() && self.2.wf()
    }

    fn dup(&self) -> (copy: Self) {
        (self.0.dup(), self.1.dup(), self.2.dup())
    }
}

impl<A: Model, B: Model> Model for (A, B) {
    type V = (A::V, B::V);

    open spec fn model(&self) -> (A::V, B::V) {
        (self.0.model(), self.1.model())
    }

    open spec fn wf(&self) -> bool {
        self.0.wf() && self.1.wf()
    }

    fn dup(&self) -> (copy: Self) {
        (self.0.dup(), self.1.dup())
    }
}

/// Pairs are ordered by their first part, then by their second.
impl<A: Key, B: Key> Key for (A, B) {
    open spec fn precedes(a: (A::V, B::V), b: (A::V, B::V)) -> bool {
        A::precedes(a.0, b.0) || (a.0 == b.0 && B::precedes(a.1, b.1))
    }

    proof fn precedes_irreflexive(a: (A::V, B::V)) {
        A::precedes_irreflexive(a.0);
        B::precedes_irreflexive(a.1);
    }

    proof fn precedes_transitive(a: (A::V, B::V), b: (A::V, B::V), c: (A::V, B::V)) {
        if A::precedes(a.0, b.0) && A::precedes(b.0, c.0) {
            A::precedes_transitive(a.0, b.0, c.0);
        }
        if a.0 == b.0 && b.0 == c.0 {
            A::precedes_irreflexive(a.0);
            B::precedes_transitive(a.1, b.1, c.1);
        }
    }

    proof fn precedes_total(a: (A::V, B::V), b: (A::V, B::V)) {
        A::precedes_total(a.0, b.0);
        B::precedes_total(a.1, b.1);
    }

    fn rank(&self, other: &Self) -> (r: Rank) {
        proof {
            A::precedes_irreflexive(self.0.model());
            if A::precedes(self.0.model(), other.0.model()) && A::precedes(other.0.model(), self.0.model()) {
                A::precedes_transitive(self.0.model(), other.0.model(), self.0.model());
            }
        }
        match self.0.rank(&other.0) {
            Rank::Same => self.1.rank(&other.1),
            otherwise => otherwise,
        }
    }
}

/// Whether one byte string comes before another in dictionary order.
pub open spec fn dictionary(s: Seq<u8>, t: Seq<u8>) -> bool
    decreases s.len(),
{
    t.len() > 0 && (s.len() == 0 || s[0] < t[0] || (s[0] == t[0] && dictionary(
        s.skip(1),
        t.skip(1),
    )))
}

proof fn lemma_dictionary_irreflexive(s: Seq<u8>)
    ensures
        !dictionary(s, s),
    decreases s.len(),
{
    if s.len() > 0 {
        lemma_dictionary_irreflexive(s.skip(1));
    }
}

proof fn lemma_dictionary_transitive(s: Seq<u8>, t: Seq<u8>, u: Seq<u8>)
    requires
        dictionary(s, t),
        dictionary(t, u),
    ensures
        dictionary(s, u),
    decreases s.len(),
{
    if s.len() > 0 && s[0] == t[0] && t[0] == u[0] {
        lemma_dictionary_transitive(s.skip(1), t.skip(1), u.skip(1));
    }
}

proof fn lemma_dictionary_total(s: Seq<u8>, t: Seq<u8>)
    ensures
        dictionary(s, t) || s == t || dictionary(t, s),
    decreases s.len(),
{
    if s.len() > 0 && t.len() > 0 {
        if s[0] == t[0] {
            lemma_dictionary_total(s.skip(1), t.skip(1));
            if s.skip(1) == t.skip(1) {
                assert(s =~= seq![s[0]] + s.skip(1));
                assert(t =~= seq![t[0]] + t.skip(1));
            }
        }
    } else if s.len() == 0 && t.len() == 0 {
        assert(s =~= t);
    }
}

impl Model for String {
    type V = Seq<char>;

    open spec fn model(&self) -> Seq<char> {
        self@
    }

    open spec fn wf(&self) -> bool {
        true
    }

    fn dup(&self) -> (copy: Self) {
        self.clone()
    }
}

/// Text is ordered as its UTF-8 bytes are.
impl Key for String {
    open spec fn precedes(a: Seq<char>, b: Seq<char>) -> bool {
        dictionary(encode_utf8(a), encode_utf8(b))
    }

    proof fn precedes_irreflexive(a: Seq<char>) {
        lemma_dictionary_irreflexive(encode_utf8(a));
    }

    proof fn precedes_transitive(a: Seq<char>, b: Seq<char>, c: Seq<char>) {
        lemma_dictionary_transitive(encode_utf8(a), encode_utf8(b), encode_utf8(c));
    }

    proof fn precedes_total(a: Seq<char>, b: Seq<char>) {
        lemma_dictionary_total(encode_utf8(a), encode_utf8(b));
        encode_utf8_decode_utf8(a);
        encode_utf8_decode_utf8(b);
    }

    fn rank(&self, other: &Self) -> (r: Rank) {
        let s: &[u8] = self.as_str().as_bytes();
        let t: &[u8] = other.as_str().as_bytes();
        let mut i: usize = 0;
        proof {
            assert(s@.skip(0) =~= s@);
            assert(t@.skip(0) =~= t@);
            encode_utf8_decode_utf8(self@);
            encode_utf8_decode_utf8(other@);
            lemma_dictionary_irreflexive(s@);
            lemma_dictionary_total(s@, t@);
            if dictionary(s@, t@) && dictionary(t@, s@) {
                lemma_dictionary_transitive(s@, t@, s@);
            }
        }
        while i < s.len() && i < t.len() && s[i] == t[i]
            invariant
                i <= s.len(),
                i <= t.len(),
                s@.take(i as int) == t@.take(i as int),
                dictionary(s@, t@) == dictionary(s@.skip(i as int), t@.skip(i as int)),
                dictionary(t@, s@) == dictionary(t@.skip(i as int), s@.skip(i as int)),
            decreases s.len() - i,
        {
            proof {
                assert(s@.skip(i as int).skip(1) =~= s@.skip(i + 1));
                assert(t@.skip(i as int).skip(1) =~= t@.skip(i + 1));
                assert(s@.take(i + 1) =~= s@.take(i as int).push(s@[i as int]));
                assert(t@.take(i + 1) =~= t@.take(i as int).push(t@[i as int]));
            }
            i += 1;
        }
        if i == s.len() {
            if i == t.len() {
                assert(s@ =~= s@.take(i as int));
                assert(t@ =~= t@.take(i as int));
                Rank::Same
            } else {
                Rank::Below
            }
        } else if i == t.len() {
            Rank::Above
        } else if s[i] < t[i] {
            Rank::Below
        } else {
            Rank::Above
        }
    }
}

} // verus!
