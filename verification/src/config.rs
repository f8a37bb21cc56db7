//! The engine's knobs, read from the query of its `nvme://` URL.

use crate::address::{pairs_view, query_pairs_of, url_of, Address};
use crate::error::{refused, Error, Fault, Result};
use crate::text::{chars_of, concat, rest, same, strip_prefix};
use crate::time::Duration;
use std::str::FromStr;
use vstd::prelude::*;

verus! {

/// When a write is acknowledged: after the group-commit sync (the only mode
/// that exactly-once semantics are safe in), or after the buffered write, with
/// a sync every interval.
#[derive(Clone, Copy, Debug, PartialEq, Eq, Structural)]
pub enum FsyncMode {
    Always,
    Interval(Duration),
}

/// The engine's knobs.
#[derive(Debug, PartialEq, Eq)]
pub struct Config {
    pub fsync: FsyncMode,
    pub fetch_max_block: Duration,
    pub segment_bytes: u64,
    pub snapshot_wal_bytes: u64,
    pub tail_cache_bytes: u64,
    /// Refuse batches once segments and WAL exceed this (0: no limit).
    pub disk_budget_bytes: u64,
    /// The object store for sealed segments and snapshots.
    pub tier: Option<String>,
    /// How often sealed segments are uploaded.
    pub tier_interval: Duration,
    /// Seal a non-empty active segment past this age.
    pub segment_age: Duration,
}

/// What a [`Config`] says.
pub struct Knobs {
    pub fsync: FsyncMode,
    pub fetch_max_block: Duration,
    pub segment_bytes: u64,
    pub snapshot_wal_bytes: u64,
    pub tail_cache_bytes: u64,
    pub disk_budget_bytes: u64,
    pub tier: Option<Seq<char>>,
    pub tier_interval: Duration,
    pub segment_age: Duration,
}

impl View for Config {
    type V = Knobs;

    open spec fn view(&self) -> Knobs {
        Knobs {
            fsync: self.fsync,
            fetch_max_block: self.fetch_max_block,
            segment_bytes: self.segment_bytes,
            snapshot_wal_bytes: self.snapshot_wal_bytes,
            tail_cache_bytes: self.tail_cache_bytes,
            disk_budget_bytes: self.disk_budget_bytes,
            tier: match self.tier {
                Some(tier) => Some(tier@),
                None => None,
            },
            tier_interval: self.tier_interval,
            segment_age: self.segment_age,
        }
    }
}

/// The knobs where the URL sets none.
pub open spec fn default_knobs() -> Knobs {
    Knobs {
        fsync: FsyncMode::Always,
        fetch_max_block: Duration { nanos: 250_000_000 },
        segment_bytes: 268_435_456,
        snapshot_wal_bytes: 67_108_864,
        tail_cache_bytes: 8_388_608,
        disk_budget_bytes: 0,
        tier: None,
        tier_interval: Duration { nanos: 5_000_000_000 },
        segment_age: Duration { nanos: 300_000_000_000 },
    }
}

impl Default for Config {
    fn default() -> (config: Self)
        ensures
            config@ == default_knobs(),
    {
        Config {
            fsync: FsyncMode::Always,
            fetch_max_block: Duration::from_millis(250),
            segment_bytes: 256 * 1024 * 1024,
            snapshot_wal_bytes: 64 * 1024 * 1024,
            tail_cache_bytes: 8 * 1024 * 1024,
            disk_budget_bytes: 0,
            tier: None,
            tier_interval: Duration::from_secs(5),
            segment_age: Duration::from_secs(300),
        }
    }
}

/// Whether a character is a number of any script.
pub uninterp spec fn numeric(c: char) -> bool;

/// `char::is_numeric`, which depends on the character alone. Of the characters
/// of ASCII it holds of the ten digits; which others it holds of is left
/// unsaid.
#[verifier::external_body]
fn is_numeric(c: char) -> (b: bool)
    ensures
        b == numeric(c),
        (c as u32) < 128 ==> b == ('0' <= c <= '9'),
{
    c.is_numeric()
}

/// The last number among the characters of a text.
pub open spec fn last_numeric(text: Seq<char>) -> Option<char>
    decreases text.len(),
{
    if text.len() == 0 {
        None
    } else if numeric(text.last()) {
        Some(text.last())
    } else {
        last_numeric(text.drop_last())
    }
}

/// Whether a text's last number, if it has one, is of ASCII: only then can
/// the number be told from the unit behind it.
pub open spec fn separable(text: Seq<char>) -> bool {
    match last_numeric(text) {
        Some(c) => (c as u32) < 128,
        None => true,
    }
}

/// The size, in bytes, that a text with a unit says.
pub uninterp spec fn size_in(text: Seq<char>) -> Option<u64>;

/// `human_units::Size::from_str`: the size depends on the text alone. (It cuts
/// the text one byte behind where the last number starts, and panics inside a
/// longer one.) What units there are is left unsaid.
#[verifier::external_body]
fn size_from_str(text: &str) -> (size: Option<u64>)
    requires
        separable(text@),
    ensures
        size == size_in(text@),
{
    human_units::Size::from_str(text).ok().map(|size| size.0)
}

/// The span, in nanoseconds, that a text with a unit says.
pub uninterp spec fn span_in(text: Seq<char>) -> Option<u128>;

/// `human_units::Duration::from_str`: the span depends on the text alone. (It
/// cuts the text one byte behind where the last number starts, and panics
/// inside a longer one.) What units there are is left unsaid.
#[verifier::external_body]
fn span_from_str(text: &str) -> (nanos: Option<u128>)
    requires
        separable(text@),
    ensures
        nanos == span_in(text@),
{
    human_units::Duration::from_str(text).ok().map(|duration| duration.0.as_nanos())
}

/// Whether a text's last number, if it has one, is of ASCII.
fn is_separable(text: &str) -> (b: bool)
    ensures
        b == separable(text@),
{
    let chars = chars_of(text);
    let mut i: usize = chars.len();
    assert(chars@.take(i as int) =~= chars@);
    while i > 0
        invariant
            chars@ == text@,
            i <= chars@.len(),
            last_numeric(chars@) == last_numeric(chars@.take(i as int)),
        decreases i,
    {
        let c = chars[i - 1];
        assert(chars@.take(i as int).drop_last() =~= chars@.take(i - 1));
        if is_numeric(c) {
            return (c as u32) < 128;
        }
        i -= 1;
    }
    true
}

/// The text of a pair that is read as a size or a span.
pub open spec fn measured(key: Seq<char>, value: Seq<char>) -> Option<Seq<char>> {
    if key == "fsync"@ {
        if value == "always"@ {
            None
        } else {
            rest(value, "interval:"@)
        }
    } else if key == "fetch_max_block"@ || key == "segment_bytes"@ || key == "snapshot_wal_bytes"@
        || key == "tail_cache_bytes"@ || key == "disk_budget"@ || key == "tier_interval"@ || key
        == "segment_age"@ {
        Some(value)
    } else {
        None
    }
}

/// Whether a pair can be read.
pub open spec fn readable(key: Seq<char>, value: Seq<char>) -> bool {
    measured(key, value) matches Some(text) ==> separable(text)
}

/// The knobs after a pair was read, or what is wrong with it. A key that is
/// not the engine's changes nothing.
pub open spec fn turned(knobs: Knobs, key: Seq<char>, value: Seq<char>) -> core::result::Result<
    Knobs,
    Seq<char>,
> {
    if key == "fsync"@ {
        if value == "always"@ {
            Ok(Knobs { fsync: FsyncMode::Always, ..knobs })
        } else {
            match rest(value, "interval:"@) {
                Some(duration) => match span_in(duration) {
                    Some(nanos) => Ok(
                        Knobs { fsync: FsyncMode::Interval(Duration { nanos }), ..knobs },
                    ),
                    None => Err("nvme fsync interval: "@ + duration),
                },
                None => Err(
                    "nvme fsync must be `always` or `interval:<duration>`, got: "@ + value,
                ),
            }
        }
    } else if key == "fetch_max_block"@ {
        match span_in(value) {
            Some(nanos) => Ok(Knobs { fetch_max_block: Duration { nanos }, ..knobs }),
            None => Err("nvme fetch_max_block: "@ + value),
        }
    } else if key == "segment_bytes"@ {
        match size_in(value) {
            Some(size) => Ok(Knobs { segment_bytes: size, ..knobs }),
            None => Err(unread(key, value)),
        }
    } else if key == "snapshot_wal_bytes"@ {
        match size_in(value) {
            Some(size) => Ok(Knobs { snapshot_wal_bytes: size, ..knobs }),
            None => Err(unread(key, value)),
        }
    } else if key == "tail_cache_bytes"@ {
        match size_in(value) {
            Some(size) => Ok(Knobs { tail_cache_bytes: size, ..knobs }),
            None => Err(unread(key, value)),
        }
    } else if key == "disk_budget"@ {
        match size_in(value) {
            Some(size) => Ok(Knobs { disk_budget_bytes: size, ..knobs }),
            None => Err(unread(key, value)),
        }
    } else if key == "tier"@ {
        Ok(Knobs { tier: Some(value), ..knobs })
    } else if key == "tier_interval"@ {
        match span_in(value) {
            Some(nanos) => Ok(Knobs { tier_interval: Duration { nanos }, ..knobs }),
            None => Err("nvme tier_interval: "@ + value),
        }
    } else if key == "segment_age"@ {
        match span_in(value) {
            Some(nanos) => Ok(Knobs { segment_age: Duration { nanos }, ..knobs }),
            None => Err("nvme segment_age: "@ + value),
        }
    } else {
        Ok(knobs)
    }
}

/// What is said of a size that cannot be read.
pub open spec fn unread(key: Seq<char>, value: Seq<char>) -> Seq<char> {
    "nvme "@ + key + ": "@ + value
}

/// The knobs after a list of pairs was read, or what is wrong with the first
/// that cannot be read.
pub open spec fn knobs_of(pairs: Seq<(Seq<char>, Seq<char>)>) -> core::result::Result<
    Knobs,
    Seq<char>,
>
    decreases pairs.len(),
{
    if pairs.len() == 0 {
        Ok(default_knobs())
    } else {
        match knobs_of(pairs.drop_last()) {
            Ok(knobs) => turned(knobs, pairs.last().0, pairs.last().1),
            Err(reason) => Err(reason),
        }
    }
}

/// Whether every pair up to the first with something wrong can be read.
pub open spec fn all_readable(pairs: Seq<(Seq<char>, Seq<char>)>) -> bool {
    forall|i: int|
        #![trigger pairs[i]]
        0 <= i < pairs.len() && knobs_of(pairs.take(i)) is Ok ==> readable(pairs[i].0, pairs[i].1)
}

/// The outcome of reading knobs.
pub open spec fn outcome_is(
    result: Result<Config>,
    knobs: core::result::Result<Knobs, Seq<char>>,
) -> bool {
    match knobs {
        Ok(knobs) => result matches Ok(config) && config@ == knobs,
        Err(reason) => refused(result, Fault::Message(reason)),
    }
}

fn parse_size(key: &str, value: &str) -> (result: Result<u64>)
    requires
        separable(value@),
    ensures
        match size_in(value@) {
            Some(size) => result matches Ok(found) && found == size,
            None => refused(result, Fault::Message(unread(key@, value@))),
        },
{
    match size_from_str(value) {
        Some(size) => Ok(size),
        None => {
            let start = concat(concat("nvme ", key).as_str(), ": ");
            Err(Error::Message(concat(start.as_str(), value)))
        },
    }
}

fn parse_span(complaint: &str, value: &str) -> (result: Result<Duration>)
    requires
        separable(value@),
    ensures
        match span_in(value@) {
            Some(nanos) => result matches Ok(found) && found == (Duration { nanos }),
            None => refused(result, Fault::Message(complaint@ + value@)),
        },
{
    match span_from_str(value) {
        Some(nanos) => Ok(Duration::from_nanos(nanos)),
        None => Err(Error::Message(concat(complaint, value))),
    }
}

fn parse_fsync(value: &str) -> (result: Result<FsyncMode>)
    requires
        readable("fsync"@, value@),
    ensures
        match turned(default_knobs(), "fsync"@, value@) {
            Ok(knobs) => result matches Ok(mode) && mode == knobs.fsync,
            Err(reason) => refused(result, Fault::Message(reason)),
        },
{
    if same(value, "always") {
        return Ok(FsyncMode::Always);
    }
    match strip_prefix(value, "interval:") {
        Some(duration) => match parse_span("nvme fsync interval: ", duration.as_str()) {
            Ok(interval) => Ok(FsyncMode::Interval(interval)),
            Err(error) => Err(error),
        },
        None => Err(
            Error::Message(
                concat("nvme fsync must be `always` or `interval:<duration>`, got: ", value),
            ),
        ),
    }
}

impl Config {
    /// Reads one pair.
    fn turn(self, key: &str, value: &str) -> (result: Result<Config>)
        requires
            readable(key@, value@),
        ensures
            outcome_is(result, turned(self@, key@, value@)),
    {
        proof {
            reveal_strlit("fsync");
            reveal_strlit("fetch_max_block");
            reveal_strlit("segment_bytes");
            reveal_strlit("snapshot_wal_bytes");
            reveal_strlit("tail_cache_bytes");
            reveal_strlit("disk_budget");
            reveal_strlit("tier");
            reveal_strlit("tier_interval");
            reveal_strlit("segment_age");
        }
        let mut config = self;
        if same(key, "fsync") {
            match parse_fsync(value) {
                Ok(mode) => {
                    config.fsync = mode;
                },
                Err(error) => {
                    return Err(error);
                },
            }
        } else if same(key, "fetch_max_block") {
            match parse_span("nvme fetch_max_block: ", value) {
                Ok(span) => {
                    config.fetch_max_block = span;
                },
                Err(error) => {
                    return Err(error);
                },
            }
        } else if same(key, "segment_bytes") {
            match parse_size(key, value) {
                Ok(size) => {
                    config.segment_bytes = size;
                },
                Err(error) => {
                    return Err(error);
                },
            }
        } else if same(key, "snapshot_wal_bytes") {
            match parse_size(key, value) {
                Ok(size) => {
                    config.snapshot_wal_bytes = size;
                },
                Err(error) => {
                    return Err(error);
                },
            }
        } else if same(key, "tail_cache_bytes") {
            match parse_size(key, value) {
                Ok(size) => {
                    config.tail_cache_bytes = size;
                },
                Err(error) => {
                    return Err(error);
                },
            }
        } else if same(key, "disk_budget") {
            match parse_size(key, value) {
                Ok(size) => {
                    config.disk_budget_bytes = size;
                },
                Err(error) => {
                    return Err(error);
                },
            }
        } else if same(key, "tier") {
            config.tier = Some(value.to_owned());
        } else if same(key, "tier_interval") {
            match parse_span("nvme tier_interval: ", value) {
                Ok(span) => {
                    config.tier_interval = span;
                },
                Err(error) => {
                    return Err(error);
                },
            }
        } else if same(key, "segment_age") {
            match parse_span("nvme segment_age: ", value) {
                Ok(span) => {
                    config.segment_age = span;
                },
                Err(error) => {
                    return Err(error);
                },
            }
        }
        Ok(config)
    }

    /// Reads the knobs from the pairs of a query. Keys that are not the
    /// engine's are ignored; of two pairs with one key the later counts.
    pub fn from_query_pairs(pairs: &Vec<(String, String)>) -> (result: Result<Config>)
        requires
            all_readable(pairs_view(pairs@)),
        ensures
            outcome_is(result, knobs_of(pairs_view(pairs@))),
    {
        let ghost rows = pairs_view(pairs@);
        let mut config = Config::default();
        let mut i: usize = 0;
        assert(rows.take(0) =~= Seq::<(Seq<char>, Seq<char>)>::empty());
        while i < pairs.len()
            invariant
                rows == pairs_view(pairs@),
                all_readable(rows),
                i <= rows.len(),
                knobs_of(rows.take(i as int)) == core::result::Result::<Knobs, Seq<char>>::Ok(
                    config@,
                ),
            decreases rows.len() - i,
        {
            proof {
                assert(rows.take(i + 1).drop_last() =~= rows.take(i as int));
                assert(readable(rows[i as int].0, rows[i as int].1));
            }
            match config.turn(pairs[i].0.as_str(), pairs[i].1.as_str()) {
                Ok(turned) => {
                    config = turned;
                },
                Err(error) => {
                    proof {
                        lemma_wrong_stays(rows, i + 1);
                    }
                    return Err(error);
                },
            }
            i += 1;
        }
        assert(rows.take(i as int) =~= rows);
        Ok(config)
    }

    /// Whether the pairs of a query can be read.
    fn can_read(pairs: &Vec<(String, String)>) -> (b: bool)
        ensures
            b == all_readable(pairs_view(pairs@)),
    {
        let ghost rows = pairs_view(pairs@);
        let mut config = Config::default();
        let mut i: usize = 0;
        assert(rows.take(0) =~= Seq::<(Seq<char>, Seq<char>)>::empty());
        while i < pairs.len()
            invariant
                rows == pairs_view(pairs@),
                i <= rows.len(),
                knobs_of(rows.take(i as int)) == core::result::Result::<Knobs, Seq<char>>::Ok(
                    config@,
                ),
                forall|j: int|
                    #![trigger rows[j]]
                    0 <= j < i ==> readable(rows[j].0, rows[j].1),
            decreases rows.len() - i,
        {
            let key = pairs[i].0.as_str();
            let value = pairs[i].1.as_str();
            assert(rows.take(i + 1).drop_last() =~= rows.take(i as int));
            if !can_read_pair(key, value) {
                assert(!readable(rows[i as int].0, rows[i as int].1));
                return false;
            }
            match config.turn(key, value) {
                Ok(turned) => {
                    config = turned;
                },
                Err(_) => {
                    proof {
                        assert forall|j: int|
                            #![trigger rows[j]]
                            0 <= j < rows.len() && knobs_of(rows.take(j)) is Ok implies readable(
                            rows[j].0,
                            rows[j].1,
                        ) by {
                            if j > i {
                                lemma_wrong_stays(rows.take(j), i + 1);
                                assert(rows.take(j).take(i + 1) =~= rows.take(i + 1));
                            }
                        }
                    }
                    return true;
                },
            }
            i += 1;
        }
        true
    }

    /// Reads the knobs from a URL, such as
    /// `nvme:///data?fsync=always&fetch_max_block=100ms&segment_bytes=64M`. A
    /// query with a value whose number cannot be told from its unit is
    /// refused.
    pub fn from_url(storage: &str) -> (result: Result<Config>)
        ensures
            match url_of(storage@) {
                Err(reason) => refused(result, Fault::Message(reason)),
                Ok(parts) => {
                    let pairs = query_pairs_of(
                        match parts.4 {
                            Some(query) => query,
                            None => ""@,
                        },
                    );
                    if all_readable(pairs) {
                        outcome_is(result, knobs_of(pairs))
                    } else {
                        refused(result, Fault::Message("nvme: a number in the query is not ASCII"@))
                    }
                },
            },
    {
        match Address::parse(storage) {
            Err(reason) => Err(Error::Message(reason)),
            Ok(address) => {
                let pairs = address.query_pairs();
                if Config::can_read(&pairs) {
                    Config::from_query_pairs(&pairs)
                } else {
                    Err(Error::Message("nvme: a number in the query is not ASCII".to_owned()))
                }
            },
        }
    }
}

fn can_read_pair(key: &str, value: &str) -> (b: bool)
    ensures
        b == readable(key@, value@),
{
    if same(key, "fsync") {
        if same(value, "always") {
            return true;
        }
        match strip_prefix(value, "interval:") {
            Some(duration) => is_separable(duration.as_str()),
            None => true,
        }
    } else if same(key, "fetch_max_block") || same(key, "segment_bytes") || same(
        key,
        "snapshot_wal_bytes",
    ) || same(key, "tail_cache_bytes") || same(key, "disk_budget") || same(key, "tier_interval")
        || same(key, "segment_age") {
        is_separable(value)
    } else {
        true
    }
}

/// Once something is wrong, nothing that follows mends it.
proof fn lemma_wrong_stays(pairs: Seq<(Seq<char>, Seq<char>)>, n: int)
    requires
        0 <= n <= pairs.len(),
        knobs_of(pairs.take(n)) is Err,
    ensures
        knobs_of(pairs) == knobs_of(pairs.take(n)),
    decreases pairs.len(),
{
    if n == pairs.len() {
        assert(pairs.take(n) =~= pairs);
    } else {
        assert(pairs.drop_last().take(n) =~= pairs.take(n));
        lemma_wrong_stays(pairs.drop_last(), n);
    }
}

/// A URL that sets nothing leaves every knob at its default.
pub proof fn law_defaults()
    ensures
        knobs_of(Seq::empty()) == core::result::Result::<Knobs, Seq<char>>::Ok(default_knobs()),
{
}

/// Whether a key is the engine's.
pub open spec fn known_key(key: Seq<char>) -> bool {
    ||| key == "fsync"@
    ||| key == "fetch_max_block"@
    ||| key == "segment_bytes"@
    ||| key == "snapshot_wal_bytes"@
    ||| key == "tail_cache_bytes"@
    ||| key == "disk_budget"@
    ||| key == "tier"@
    ||| key == "tier_interval"@
    ||| key == "segment_age"@
}

/// A key that is not the engine's is ignored, wherever it stands: what is read
/// is what the pairs without it say.
pub proof fn law_unknown_key_ignored(
    before: Seq<(Seq<char>, Seq<char>)>,
    pair: (Seq<char>, Seq<char>),
    after: Seq<(Seq<char>, Seq<char>)>,
)
    requires
        !known_key(pair.0),
    ensures
        knobs_of(before.push(pair) + after) == knobs_of(before + after),
    decreases after.len(),
{
    let with = before.push(pair) + after;
    let without = before + after;
    if after.len() == 0 {
        assert(with.drop_last() =~= before);
        assert(without =~= before);
    } else {
        assert(with.drop_last() =~= before.push(pair) + after.drop_last());
        assert(without.drop_last() =~= before + after.drop_last());
        law_unknown_key_ignored(before, pair, after.drop_last());
    }
}

} // verus!
