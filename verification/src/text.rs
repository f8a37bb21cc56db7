//! Numbers as text, file names and paths.

use vstd::prelude::*;

verus! {

/// The digit that stands for `d`.
pub open spec fn digit_char(d: nat) -> char {
    ((48 + d) as u32) as char
}

/// `n` in decimal, without leading zeros.
pub open spec fn decimal(n: nat) -> Seq<char>
    decreases n,
{
    if n < 10 {
        seq![digit_char(n)]
    } else {
        decimal(n / 10).push(digit_char(n % 10))
    }
}

/// `n` zeros.
pub open spec fn zeros(n: nat) -> Seq<char> {
    Seq::new(n, |i: int| '0')
}

/// `s` filled up with zeros on its left to `width` characters.
pub open spec fn fill(s: Seq<char>, width: nat) -> Seq<char> {
    if s.len() < width {
        zeros((width - s.len()) as nat) + s
    } else {
        s
    }
}

/// An integer in decimal.
pub open spec fn integer(x: int) -> Seq<char> {
    if x < 0 {
        seq!['-'] + decimal((-x) as nat)
    } else {
        decimal(x as nat)
    }
}

/// An integer in `width` characters, the zeros standing behind its sign.
pub open spec fn padded(x: int, width: nat) -> Seq<char> {
    if x < 0 {
        seq!['-'] + fill(decimal((-x) as nat), (width - 1) as nat)
    } else {
        fill(decimal(x as nat), width)
    }
}

/// Two texts, one behind the other.
pub fn concat(a: &str, b: &str) -> (s: String)
    ensures
        s@ == a@ + b@,
{
    let mut s = a.to_owned();
    s.append(b);
    s
}

fn digit(d: u64) -> (s: &'static str)
    requires
        d < 10,
    ensures
        s@ == seq![digit_char(d as nat)],
{
    proof {
        reveal_strlit("0");
        reveal_strlit("1");
        reveal_strlit("2");
        reveal_strlit("3");
        reveal_strlit("4");
        reveal_strlit("5");
        reveal_strlit("6");
        reveal_strlit("7");
        reveal_strlit("8");
        reveal_strlit("9");
    }
    let s = match d {
        0 => "0",
        1 => "1",
        2 => "2",
        3 => "3",
        4 => "4",
        5 => "5",
        6 => "6",
        7 => "7",
        8 => "8",
        _ => "9",
    };
    assert(s@ =~= seq![digit_char(d as nat)]);
    s
}

/// `n` in decimal.
pub fn decimal_text(n: u64) -> (s: String)
    ensures
        s@ == decimal(n as nat),
    decreases n,
{
    if n < 10 {
        digit(n).to_owned()
    } else {
        let head = decimal_text(n / 10);
        let s = concat(head.as_str(), digit(n % 10));
        assert(s@ =~= decimal(n as nat));
        s
    }
}

fn filled(text: &str, width: usize) -> (s: String)
    ensures
        s@ == fill(text@, width as nat),
{
    let have = text.unicode_len();
    let mut s = String::new();
    let mut i: usize = have;
    assert(s@ =~= zeros(0));
    while i < width
        invariant
            have == text@.len(),
            have <= i,
            i <= width || i == have,
            s@ == zeros((i - have) as nat),
        decreases width - i,
    {
        proof {
            reveal_strlit("0");
        }
        s.append("0");
        i += 1;
        assert(s@ =~= zeros((i - have) as nat));
    }
    s.append(text);
    assert(s@ =~= fill(text@, width as nat));
    s
}

/// The size of a 64-bit integer.
pub fn magnitude(x: i64) -> (n: u64)
    ensures
        n as int == (if x < 0 {
            -(x as int)
        } else {
            x as int
        }),
{
    if x < 0 {
        (-(x as i128)) as u64
    } else {
        x as u64
    }
}

/// `x` in `width` characters, as a sign-aware zero fill gives it.
pub fn padded_text(x: i64, width: usize) -> (s: String)
    requires
        width > 0,
    ensures
        s@ == padded(x as int, width as nat),
{
    let digits = decimal_text(magnitude(x));
    if x < 0 {
        proof {
            reveal_strlit("-");
        }
        let s = concat("-", filled(digits.as_str(), width - 1).as_str());
        assert(s@ =~= padded(x as int, width as nat));
        s
    } else {
        filled(digits.as_str(), width)
    }
}

/// `n` in `width` characters.
pub fn padded_count(n: u64, width: usize) -> (s: String)
    requires
        width > 0,
    ensures
        s@ == padded(n as int, width as nat),
{
    filled(decimal_text(n).as_str(), width)
}

/// `x` in decimal.
pub fn integer_text(x: i64) -> (s: String)
    ensures
        s@ == integer(x as int),
{
    let digits = decimal_text(magnitude(x));
    if x < 0 {
        proof {
            reveal_strlit("-");
        }
        let s = concat("-", digits.as_str());
        assert(s@ =~= integer(x as int));
        s
    } else {
        digits
    }
}

/// `x` in decimal, filled on its left with zeros whatever its sign.
pub fn filled_text(x: i64, width: usize) -> (s: String)
    ensures
        s@ == fill(integer(x as int), width as nat),
{
    filled(integer_text(x).as_str(), width)
}

/// The number that a run of decimal digits writes, if it is one.
pub open spec fn digits_value(s: Seq<char>) -> Option<nat>
    decreases s.len(),
{
    if s.len() == 0 || !('0' <= s.last() && s.last() <= '9') {
        None
    } else if s.len() == 1 {
        Some((s.last() as nat - 48) as nat)
    } else {
        match digits_value(s.drop_last()) {
            Some(n) => Some((10 * n + (s.last() as nat - 48)) as nat),
            None => None,
        }
    }
}

/// What a text reads as an unsigned 64-bit number: digits, one `+` before
/// them allowed, and no more than fits.
pub open spec fn count_value(s: Seq<char>) -> Option<u64> {
    let digits = if s.len() > 0 && s[0] == '+' {
        s.skip(1)
    } else {
        s
    };
    match digits_value(digits) {
        Some(n) => if n <= u64::MAX {
            Some(n as u64)
        } else {
            None
        },
        None => None,
    }
}

/// What a text reads as a signed 64-bit number: digits, one sign before them
/// allowed, and no more than fits.
pub open spec fn integer_value(s: Seq<char>) -> Option<i64> {
    let digits = if s.len() > 0 && (s[0] == '+' || s[0] == '-') {
        s.skip(1)
    } else {
        s
    };
    let negative = s.len() > 0 && s[0] == '-';
    match digits_value(digits) {
        Some(n) => if negative && n <= 0x8000_0000_0000_0000 {
            Some((-(n as int)) as i64)
        } else if !negative && n <= i64::MAX {
            Some(n as i64)
        } else {
            None
        },
        None => None,
    }
}

pub proof fn lemma_decimal_value(n: nat)
    ensures
        decimal(n).len() > 0,
        digits_value(decimal(n)) == Some(n),
    decreases n,
{
    if n >= 10 {
        lemma_decimal_value(n / 10);
        assert(decimal(n).drop_last() =~= decimal(n / 10));
    }
}

pub proof fn lemma_fill_value(s: Seq<char>, k: nat)
    requires
        digits_value(s) is Some,
    ensures
        digits_value(zeros(k) + s) == digits_value(s),
    decreases s.len(), k,
{
    let t = zeros(k) + s;
    if k == 0 {
        assert(t =~= s);
    } else if s.len() == 1 {
        let zero = seq!['0'];
        lemma_fill_value(zero, (k - 1) as nat);
        assert(zeros((k - 1) as nat) + zero =~= zeros(k));
        assert(t.drop_last() =~= zeros(k));
    } else {
        lemma_fill_value(s.drop_last(), k);
        assert(t.drop_last() =~= zeros(k) + s.drop_last());
    }
}

/// A zero-filled number reads back.
pub proof fn lemma_padded_reads_back(x: int, width: nat)
    requires
        width > 0,
    ensures
        i64::MIN <= x <= i64::MAX ==> integer_value(padded(x, width)) == Some(x as i64),
        0 <= x <= u64::MAX ==> count_value(padded(x, width)) == Some(x as u64),
{
    let n = (if x < 0 {
        -x
    } else {
        x
    }) as nat;
    let w = (if x < 0 {
        width - 1
    } else {
        width as int
    }) as nat;
    lemma_decimal_value(n);
    if decimal(n).len() < w {
        lemma_fill_value(decimal(n), (w - decimal(n).len()) as nat);
    }
    let digits = fill(decimal(n), w);
    assert(digits_value(digits) == Some(n));
    lemma_digits_prefix(digits, 1);
    assert(digits.take(1).last() == digits[0]);
    if x < 0 {
        assert(padded(x, width).skip(1) =~= digits);
    }
}

/// A name made of a stem and a suffix has that stem.
pub proof fn lemma_stem(s: Seq<char>, suffix: Seq<char>)
    ensures
        stem(s + suffix, suffix) == Some(s),
{
    assert((s + suffix).skip(s.len() as int) =~= suffix);
    assert((s + suffix).take(s.len() as int) =~= s);
}

/// The characters of a text.
pub fn chars_of(s: &str) -> (chars: Vec<char>)
    ensures
        chars@ == s@,
{
    let n = s.unicode_len();
    let mut chars: Vec<char> = Vec::new();
    for c in it: s.chars()
        invariant
            it.seq() == s@,
            chars@ == s@.take(it.index()),
    {
        chars.push(c);
        assert(chars@ =~= s@.take(it.index() + 1));
    }
    assert(s@.take(s@.len() as int) =~= s@);
    chars
}

proof fn lemma_digits_prefix(s: Seq<char>, n: int)
    requires
        0 < n <= s.len(),
        digits_value(s) is Some,
    ensures
        digits_value(s.take(n)) is Some,
        digits_value(s.take(n))->0 <= digits_value(s)->0,
    decreases s.len(),
{
    if n == s.len() {
        assert(s.take(n) =~= s);
    } else {
        lemma_digits_prefix(s.drop_last(), n);
        assert(s.drop_last().take(n) =~= s.take(n));
    }
}

/// The value of the digits from `from` on; `None` where they are no digits or
/// exceed `u64`.
pub fn digits_from(chars: &Vec<char>, from: usize) -> (value: Option<u64>)
    requires
        from <= chars@.len(),
    ensures
        value == (match digits_value(chars@.skip(from as int)) {
            Some(n) => if n <= u64::MAX {
                Some(n as u64)
            } else {
                None
            },
            None => None,
        }),
{
    let ghost s = chars@.skip(from as int);
    if from == chars.len() {
        return None;
    }
    let mut i: usize = from;
    let mut n: u64 = 0;
    while i < chars.len()
        invariant
            from <= i <= chars@.len(),
            from < chars@.len(),
            s == chars@.skip(from as int),
            i > from ==> digits_value(s.take(i - from)) == Some(n as nat),
            i == from ==> n == 0,
        decreases chars@.len() - i,
    {
        let c = chars[i];
        proof {
            assert(s.take(i + 1 - from).last() == c);
            assert(s.take(i + 1 - from).drop_last() =~= s.take(i - from));
            if digits_value(s) is Some {
                lemma_digits_prefix(s, i + 1 - from);
            }
        }
        if !('0' <= c && c <= '9') {
            return None;
        }
        let d: u64 = (c as u32 - 48) as u64;
        if n > (u64::MAX - d) / 10 {
            return None;
        }
        n = 10 * n + d;
        i += 1;
    }
    assert(s.take(i - from) =~= s);
    Some(n)
}

/// Reads an unsigned number.
pub fn parse_count(s: &str) -> (value: Option<u64>)
    ensures
        value == count_value(s@),
{
    let chars = chars_of(s);
    proof {
        assert(s@.skip(0) =~= s@);
    }
    if chars.len() > 0 && chars[0] == '+' {
        digits_from(&chars, 1)
    } else {
        digits_from(&chars, 0)
    }
}

/// Reads a signed number.
pub fn parse_integer(s: &str) -> (value: Option<i64>)
    ensures
        value == integer_value(s@),
{
    let chars = chars_of(s);
    proof {
        assert(s@.skip(0) =~= s@);
    }
    let negative = chars.len() > 0 && chars[0] == '-';
    let from: usize = if negative || (chars.len() > 0 && chars[0] == '+') {
        1
    } else {
        0
    };
    match digits_from(&chars, from) {
        Some(n) => if negative && n <= 0x8000_0000_0000_0000 {
            Some((-(n as i128)) as i64)
        } else if !negative && n <= 0x7fff_ffff_ffff_ffff {
            Some(n as i64)
        } else {
            None
        },
        None => None,
    }
}

/// What stands before `suffix` in a text that ends with it.
pub open spec fn stem(s: Seq<char>, suffix: Seq<char>) -> Option<Seq<char>> {
    if s.len() >= suffix.len() && s.skip(s.len() - suffix.len()) == suffix {
        Some(s.take(s.len() - suffix.len()))
    } else {
        None
    }
}

/// What stands behind `prefix` in a text that begins with it.
pub open spec fn rest(s: Seq<char>, prefix: Seq<char>) -> Option<Seq<char>> {
    if s.len() >= prefix.len() && s.take(prefix.len() as int) == prefix {
        Some(s.skip(prefix.len() as int))
    } else {
        None
    }
}

pub fn strip_suffix(s: &str, suffix: &str) -> (stripped: Option<String>)
    ensures
        match stripped {
            Some(t) => stem(s@, suffix@) == Some(t@),
            None => stem(s@, suffix@) is None,
        },
{
    let n = s.unicode_len();
    let m = suffix.unicode_len();
    if n < m {
        return None;
    }
    let tail = s.substring_char(n - m, n).to_owned();
    proof {
        assert(s@.subrange(n - m, n as int) =~= s@.skip(n - m));
        assert(s@.subrange(0, n - m) =~= s@.take(n - m));
    }
    if tail == suffix.to_owned() {
        Some(s.substring_char(0, n - m).to_owned())
    } else {
        None
    }
}

pub fn strip_prefix(s: &str, prefix: &str) -> (stripped: Option<String>)
    ensures
        match stripped {
            Some(t) => rest(s@, prefix@) == Some(t@),
            None => rest(s@, prefix@) is None,
        },
{
    let n = s.unicode_len();
    let m = prefix.unicode_len();
    if n < m {
        return None;
    }
    let head = s.substring_char(0, m).to_owned();
    proof {
        assert(s@.subrange(0, m as int) =~= s@.take(m as int));
        assert(s@.subrange(m as int, n as int) =~= s@.skip(m as int));
    }
    if head == prefix.to_owned() {
        Some(s.substring_char(m, n).to_owned())
    } else {
        None
    }
}

/// Whether two texts are the same.
pub fn same(a: &str, b: &str) -> (equal: bool)
    ensures
        equal == (a@ == b@),
{
    a.to_owned() == b.to_owned()
}

/// The items of a comma-separated list; an empty text holds one empty item.
pub open spec fn items(s: Seq<char>) -> Seq<Seq<char>>
    decreases s.len(),
{
    if s.len() == 0 {
        seq![Seq::empty()]
    } else {
        let before = items(s.drop_last());
        if s.last() == ',' {
            before.push(Seq::empty())
        } else {
            before.drop_last().push(before.last().push(s.last()))
        }
    }
}

/// Items joined by commas.
pub open spec fn comma_list(items: Seq<Seq<char>>) -> Seq<char>
    decreases items.len(),
{
    if items.len() == 0 {
        Seq::empty()
    } else if items.len() == 1 {
        items[0]
    } else {
        comma_list(items.drop_last()).push(',') + items.last()
    }
}

/// The texts of a list.
pub open spec fn texts(list: Seq<String>) -> Seq<Seq<char>> {
    Seq::new(list.len(), |i: int| list[i]@)
}

/// Splits a comma-separated list.
pub fn split_commas(s: &str) -> (list: Vec<String>)
    ensures
        texts(list@) == items(s@),
{
    let chars = chars_of(s);
    let mut list: Vec<String> = Vec::new();
    let mut from: usize = 0;
    let mut i: usize = 0;
    assert(s@.take(0) =~= Seq::<char>::empty());
    assert(items(s@.take(0)) =~= texts(list@).push(s@.subrange(0, 0)));
    while i < chars.len()
        invariant
            chars@ == s@,
            from <= i <= s@.len(),
            items(s@.take(i as int)) == texts(list@).push(s@.subrange(from as int, i as int)),
        decreases s@.len() - i,
    {
        proof {
            assert(s@.take(i + 1).drop_last() =~= s@.take(i as int));
            assert(s@.take(i + 1).last() == s@[i as int]);
        }
        let ghost before = texts(list@);
        if chars[i] == ',' {
            list.push(s.substring_char(from, i).to_owned());
            from = i + 1;
            assert(texts(list@) =~= before.push(list@.last()@));
            assert(s@.subrange(from as int, i + 1) =~= Seq::<char>::empty());
        } else {
            assert(before.push(s@.subrange(from as int, i as int)).drop_last() =~= before);
            assert(s@.subrange(from as int, i + 1) =~= s@.subrange(from as int, i as int).push(
                s@[i as int],
            ));
        }
        i += 1;
    }
    let ghost before = texts(list@);
    list.push(s.substring_char(from, i).to_owned());
    assert(texts(list@) =~= before.push(list@.last()@));
    assert(s@.take(i as int) =~= s@);
    list
}

/// Joins items by commas.
pub fn join_commas(list: &Vec<String>) -> (s: String)
    ensures
        s@ == comma_list(texts(list@)),
{
    let mut s = String::new();
    let mut i: usize = 0;
    let ghost all = texts(list@);
    assert(s@ =~= comma_list(all.take(0)));
    while i < list.len()
        invariant
            i <= list@.len(),
            all == texts(list@),
            s@ == comma_list(all.take(i as int)),
        decreases list@.len() - i,
    {
        proof {
            assert(all.take(i + 1).drop_last() =~= all.take(i as int));
            assert(all.take(i + 1).last() == list@[i as int]@);
            reveal_strlit(",");
        }
        let ghost before = s@;
        if i > 0 {
            s.append(",");
            assert(s@ =~= before.push(','));
        }
        s.append(list[i].as_str());
        i += 1;
        assert(s@ =~= comma_list(all.take(i as int)));
    }
    assert(all.take(i as int) =~= all);
    s
}

/// The items of a list other than `item`.
pub open spec fn without(list: Seq<Seq<char>>, item: Seq<char>) -> Seq<Seq<char>>
    decreases list.len(),
{
    if list.len() == 0 {
        Seq::empty()
    } else if list.last() == item {
        without(list.drop_last(), item)
    } else {
        without(list.drop_last(), item).push(list.last())
    }
}

pub fn drop_item(list: &Vec<String>, item: &str) -> (kept: Vec<String>)
    ensures
        texts(kept@) == without(texts(list@), item@),
{
    let mut kept: Vec<String> = Vec::new();
    let mut i: usize = 0;
    let ghost all = texts(list@);
    assert(texts(kept@) =~= without(all.take(0), item@));
    while i < list.len()
        invariant
            i <= list@.len(),
            all == texts(list@),
            texts(kept@) == without(all.take(i as int), item@),
        decreases list@.len() - i,
    {
        proof {
            assert(all.take(i + 1).drop_last() =~= all.take(i as int));
            assert(all.take(i + 1).last() == list@[i as int]@);
        }
        let ghost before = texts(kept@);
        if !same(list[i].as_str(), item) {
            kept.push(list[i].clone());
            assert(texts(kept@) =~= before.push(list@[i as int]@));
        }
        i += 1;
    }
    assert(all.take(i as int) =~= all);
    kept
}

/// Whether a list holds a text.
pub fn has_item(list: &Vec<String>, item: &str) -> (found: bool)
    ensures
        found == texts(list@).contains(item@),
{
    let mut i: usize = 0;
    while i < list.len()
        invariant
            i <= list@.len(),
            forall|j: int| 0 <= j < i ==> (#[trigger] texts(list@)[j]) != item@,
        decreases list@.len() - i,
    {
        if same(list[i].as_str(), item) {
            assert(texts(list@)[i as int] == item@);
            return true;
        }
        i += 1;
    }
    false
}

/// The path of `name` in `dir`; an empty `dir` is the current one.
pub open spec fn path_in(dir: Seq<char>, name: Seq<char>) -> Seq<char> {
    if dir.len() == 0 || dir.last() == '/' {
        dir + name
    } else {
        dir.push('/') + name
    }
}

pub fn join(dir: &str, name: &str) -> (path: String)
    ensures
        path@ == path_in(dir@, name@),
{
    let n = dir.unicode_len();
    if n == 0 || dir.get_char(n - 1) == '/' {
        concat(dir, name)
    } else {
        proof {
            reveal_strlit("/");
        }
        let path = concat(concat(dir, "/").as_str(), name);
        assert(path@ =~= dir@.push('/') + name@);
        path
    }
}

} // verus!
