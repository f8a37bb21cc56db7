//! Where a partition's files are.

use crate::model::Model;
use crate::text::{
    chars_of, concat, decimal, digits_from, digits_value, fill, filled_text, integer,
    lemma_decimal_value, lemma_fill_value,
};
use crate::types::Topition;
use vstd::prelude::*;

verus! {

/// The name of a partition's directory: the topic and the partition's number
/// in ten digits.
pub open spec fn dir_name(topition: (Seq<char>, i32)) -> Seq<char> {
    topition.0 + "-"@ + fill(integer(topition.1 as int), 10)
}

/// The partition whose directory has a name: what stands before a hyphen and
/// ten digits, the topic's name not empty.
pub open spec fn dir_topition(name: Seq<char>) -> Option<(Seq<char>, i32)> {
    let at = name.len() - 11;
    if at > 0 && name[at] == '-' {
        match digits_value(name.skip(at + 1)) {
            Some(n) => if n <= i32::MAX {
                Some((name.take(at), n as i32))
            } else {
                None
            },
            None => None,
        }
    } else {
        None
    }
}

impl Topition {
    /// The name of this partition's directory.
    pub fn dir_name(&self) -> (name: String)
        ensures
            name@ == dir_name(self.model()),
    {
        let start = concat(self.topic.as_str(), "-");
        concat(start.as_str(), filled_text(self.partition as i64, 10).as_str())
    }
}

/// The partition whose directory has a name, if it is one.
pub fn parse_dir_name(name: &str) -> (topition: Option<Topition>)
    ensures
        topition.model() == dir_topition(name@),
{
    let chars = chars_of(name);
    let n = chars.len();
    if n < 12 || chars[n - 11] != '-' {
        return None;
    }
    match digits_from(&chars, n - 10) {
        Some(number) => if number <= 0x7fff_ffff {
            let topic = name.substring_char(0, n - 11).to_owned();
            assert(name@.subrange(0, n - 11) =~= name@.take(n - 11));
            Some(Topition { topic, partition: number as i32 })
        } else {
            None
        },
        None => None,
    }
}

spec fn ten_to(k: nat) -> nat
    decreases k,
{
    if k == 0 {
        1
    } else {
        10 * ten_to((k - 1) as nat)
    }
}

proof fn lemma_decimal_len(n: nat, k: nat)
    requires
        k > 0,
        n < ten_to(k),
    ensures
        decimal(n).len() <= k,
    decreases k,
{
    if n >= 10 {
        assert(ten_to(k) == 10 * ten_to((k - 1) as nat));
        if k == 1 {
            assert(ten_to(0) == 1);
        }
        lemma_decimal_len(n / 10, (k - 1) as nat);
    }
}

/// The name of a partition's directory says which partition it is.
pub proof fn law_dir_name_reads_back(topic: Seq<char>, partition: i32)
    requires
        topic.len() > 0,
        partition >= 0,
    ensures
        dir_topition(dir_name((topic, partition))) == Some((topic, partition)),
{
    reveal_with_fuel(ten_to, 11);
    assert(ten_to(10) == 10_000_000_000);
    let n = partition as nat;
    lemma_decimal_len(n, 10);
    lemma_decimal_value(n);
    let digits = fill(decimal(n), 10);
    if decimal(n).len() < 10 {
        lemma_fill_value(decimal(n), (10 - decimal(n).len()) as nat);
    }
    assert(digits.len() == 10);
    assert(digits_value(digits) == Some(n));
    reveal_strlit("-");
    let name = dir_name((topic, partition));
    let at = name.len() - 11;
    assert(at == topic.len());
    assert(name[at] == '-');
    assert(name.skip(at + 1) =~= digits);
    assert(name.take(at) =~= topic);
}

} // verus!
