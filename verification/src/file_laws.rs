//! What is read from files: frames, file names, numbers and snapshots.

use crate::codec::le_value;
use crate::frame::{frame_at_start, framed, header, type_code, type_of, FrameType, HEADER_LEN};
use crate::layout::{dir_name, law_dir_name_reads_back};
use crate::log::{base_of_name, bases_of};
use crate::model::Key;
use crate::partition::PartModel;
use crate::replay::{GroupOffsetsModel, GroupsModel, SkeletonModel};
use crate::resolution::{terminal_of, terminals};
use crate::snapshot::{
    document, is_tmp, named_snapshots, outdated, skeleton_of, snapshot_in, tmp_name, tmp_names,
};
use crate::sorting::in_order;
use crate::state::{txn_at, CoordModel};
use crate::text::{count_value, digits_value, integer_value, path_in, rest, stem};
use crate::tier::{leading_slashes, object_dir, prefix_of, trimmed, untailed};
use crate::txn::Effects;
use crate::unscanned::unscanned;
use crate::wal::{seq_of_name, seqs_of, Record};
use vstd::prelude::*;

verus! {

/// A frame is read only where it stands whole and checks: it begins with the
/// magic and the version, its type is known, its payload is the bytes behind
/// the header, as many as the header announces, and the checksum in the header
/// is that of the header's first bytes and the payload.
pub proof fn law_frame_is_checked(bytes: Seq<u8>)
    ensures
        frame_at_start(bytes) matches Some((frame_type, payload)) ==> {
            &&& bytes.len() >= HEADER_LEN + payload.len()
            &&& bytes.take(2) == header(frame_type).take(2)
            &&& bytes[2] == type_code(frame_type)
            &&& payload == bytes.subrange(HEADER_LEN as int, HEADER_LEN + payload.len())
            &&& le_value(bytes.subrange(4, 8)) == payload.len()
            &&& le_value(bytes.subrange(8, 12)) == crate::frame::crc32c_of(
                bytes.take(4) + payload,
            )
        },
{
    if let Some((frame_type, payload)) = frame_at_start(bytes) {
        assert(bytes.take(2) =~= header(frame_type).take(2));
    }
}

/// A byte that was changed behind the header's first four is noticed unless the
/// checksum matches by chance: what reads as a frame has the checksum of what
/// it holds.
pub proof fn law_changed_payload_is_torn(
    frame_type: FrameType,
    payload: Seq<u8>,
    changed: Seq<u8>,
)
    requires
        payload.len() < 0x1_0000_0000,
        changed.len() == payload.len(),
        crate::frame::crc32c_of(header(frame_type) + changed) != crate::frame::crc32c_of(
            header(frame_type) + payload,
        ),
    ensures
        ({
            let bytes = framed(frame_type, payload);
            frame_at_start(bytes.take(HEADER_LEN as int) + changed) is None
        }),
{
    let bytes = framed(frame_type, payload);
    let crc = crate::frame::crc32c_of(header(frame_type) + payload);
    crate::codec::lemma_pow256();
    crate::codec::lemma_le_bytes_len(payload.len(), 4);
    crate::codec::lemma_le_bytes_len(crc as nat, 4);
    crate::codec::lemma_le_round_trip(payload.len(), 4);
    crate::codec::lemma_le_round_trip(crc as nat, 4);
    let altered = bytes.take(HEADER_LEN as int) + changed;
    assert(altered.take(4) =~= header(frame_type));
    assert(altered.subrange(4, 8) =~= crate::codec::le_bytes(payload.len(), 4));
    assert(altered.subrange(8, 12) =~= crate::codec::le_bytes(crc as nat, 4));
    assert(altered.subrange(HEADER_LEN as int, HEADER_LEN + payload.len()) =~= changed);
}

/// Every type of frame has a code of its own, and no other code is a type's.
pub proof fn law_frame_types(frame_type: FrameType, code: u8)
    ensures
        type_of(type_code(frame_type)) == Some(frame_type),
        type_of(code) matches Some(found) ==> type_code(found) == code,
        type_of(code) is Some <==> 1 <= code <= 4,
{
}

/// Whether every character of a text is a decimal digit.
pub open spec fn all_digits(s: Seq<char>) -> bool {
    forall|i: int| 0 <= i < s.len() ==> '0' <= #[trigger] s[i] <= '9'
}

/// A run of digits is a number if and only if there is a digit and nothing
/// else; one digit more makes it ten times as much and that digit.
pub proof fn law_digits(s: Seq<char>)
    ensures
        digits_value(s) is Some <==> s.len() > 0 && all_digits(s),
        s.len() > 1 && all_digits(s) ==> digits_value(s).unwrap() == 10 * digits_value(
            s.drop_last(),
        ).unwrap() + (s.last() as int - '0' as int),
        s.len() == 1 && all_digits(s) ==> digits_value(s).unwrap() == s[0] as int - '0' as int,
    decreases s.len(),
{
    if s.len() > 1 {
        let init = s.drop_last();
        law_digits(init);
        assert(s.last() == s[s.len() - 1]);
        if all_digits(s) {
            assert forall|i: int| 0 <= i < init.len() implies '0' <= #[trigger] init[i] <= '9' by {
                assert(init[i] == s[i]);
            }
        }
        if all_digits(init) && '0' <= s.last() <= '9' {
            assert forall|i: int| 0 <= i < s.len() implies '0' <= #[trigger] s[i] <= '9' by {
                if i < init.len() {
                    assert(s[i] == init[i]);
                }
            }
        }
    } else if s.len() == 1 {
        assert(s.last() == s[0]);
    }
}

/// A signed number is one of digits with a sign before them or none, so far as
/// it fits; a minus makes it negative, and nothing else does.
pub proof fn law_signed_number(digits: Seq<char>)
    requires
        digits_value(digits) is Some,
    ensures
        ({
            let n = digits_value(digits).unwrap();
            let fits = n <= i64::MAX;
            &&& integer_value(digits) == if fits {
                Some(n as i64)
            } else {
                None
            }
            &&& integer_value(seq!['+'] + digits) == integer_value(digits)
            &&& integer_value(seq!['-'] + digits) == if n <= i64::MAX as int + 1 {
                Some((0 - n) as i64)
            } else {
                None
            }
            &&& count_value(digits) == if n <= u64::MAX {
                Some(n as u64)
            } else {
                None
            }
            &&& count_value(seq!['+'] + digits) == count_value(digits)
            &&& count_value(seq!['-'] + digits) is None
        }),
{
    law_digits(digits);
    assert('0' <= digits[0] <= '9');
    assert((seq!['+'] + digits).skip(1) =~= digits);
    assert((seq!['-'] + digits).skip(1) =~= digits);
    law_digits(seq!['-'] + digits);
    let minus = seq!['-'] + digits;
    assert(!('0' <= minus[0] <= '9'));
}

/// A text that is no digits behind at most one sign is no number.
pub proof fn law_no_number(s: Seq<char>)
    requires
        digits_value(s) is None,
        s.len() > 0 ==> digits_value(s.skip(1)) is None || !(s[0] == '+' || s[0] == '-'),
    ensures
        integer_value(s) is None,
        count_value(s) is None,
{
}

/// The bases that names say are those of the names with the suffix and a number
/// before it, in their order.
pub proof fn law_names_say_bases(names: Seq<String>, suffix: Seq<char>)
    ensures
        bases_of(names, suffix) == names.filter_map(
            |name: String| base_of_name(name@, suffix),
        ),
        seqs_of(names, suffix) == names.filter_map(|name: String| seq_of_name(name@, suffix)),
    decreases names.len(),
{
    if names.len() > 0 {
        law_names_say_bases(names.drop_last(), suffix);
        assert(bases_of(names, suffix) =~= names.filter_map(
            |name: String| base_of_name(name@, suffix),
        ));
        assert(seqs_of(names, suffix) =~= names.filter_map(
            |name: String| seq_of_name(name@, suffix),
        ));
    }
}

/// A name says the number before its suffix, and a name without the suffix says
/// none.
pub proof fn law_name_says_its_number(number: Seq<char>, name: Seq<char>, suffix: Seq<char>)
    ensures
        base_of_name(number + suffix, suffix) == integer_value(number),
        seq_of_name(number + suffix, suffix) == count_value(number),
        base_of_name(name, suffix) is Some ==> exists|n: Seq<char>| name == n + suffix,
        seq_of_name(name, suffix) is Some ==> exists|n: Seq<char>| name == n + suffix,
{
    let whole = number + suffix;
    assert(whole.skip(whole.len() - suffix.len()) =~= suffix);
    assert(whole.take(whole.len() - suffix.len()) =~= number);
    if stem(name, suffix) is Some {
        let n = stem(name, suffix).unwrap();
        assert(name =~= n + suffix);
    }
}

/// What stands behind a prefix, and in a directory.
pub proof fn law_texts_join(prefix: Seq<char>, text: Seq<char>, other: Seq<char>)
    ensures
        rest(prefix + text, prefix) == Some(text),
        rest(other, prefix) matches Some(behind) ==> other == prefix + behind,
        prefix.len() == 0 ==> path_in(prefix, text) == text,
        prefix.len() > 0 && prefix.last() == '/' ==> path_in(prefix, text) == prefix + text,
        prefix.len() > 0 && prefix.last() != '/' ==> path_in(prefix, text) == prefix.push('/') + text,
{
    assert((prefix + text).take(prefix.len() as int) =~= prefix);
    assert((prefix + text).skip(prefix.len() as int) =~= text);
    if rest(other, prefix) is Some {
        assert(other =~= prefix + rest(other, prefix).unwrap());
    }
    assert(Seq::<char>::empty() + text =~= text);
    if prefix.len() == 0 {
        assert(prefix + text =~= text);
    }
}

/// Whether a name is one that a snapshot is written under before it is renamed.
pub open spec fn half_written(name: Seq<char>) -> bool {
    &&& name.len() > 0
    &&& name[0] == '.'
    &&& exists|before: Seq<char>| name == before + ".tmp"@
}

/// Of a snapshot directory every half-written file goes, and of the snapshots
/// all but two: none that goes is newer than one that stays.
pub proof fn law_newest_snapshots_stay(
    names: Seq<Seq<char>>,
    sorted: Seq<(u64, Seq<char>)>,
)
    requires
        in_order::<(u64, String)>(sorted),
        sorted.to_multiset() == named_snapshots(names).to_multiset(),
    ensures
        tmp_names(names) == names.filter(|name: Seq<char>| half_written(name)),
        named_snapshots(names) == names.filter_map(
            |name: Seq<char>|
                if half_written(name) {
                    None
                } else {
                    match seq_of_name(name, ".snap"@) {
                        Some(seq) => Some((seq, name)),
                        None => None,
                    }
                },
        ),
        sorted.len() > 2 ==> {
            let gone = outdated(sorted);
            &&& gone.len() + 2 == sorted.len()
            &&& forall|i: int| 0 <= i < gone.len() ==> #[trigger] gone[i] == sorted[i].1
            &&& forall|i: int, j: int|
                0 <= i < gone.len() <= j < sorted.len() ==> (#[trigger] sorted[i]).0 <= (
                #[trigger] sorted[j]).0
        },
{
    lemma_snapshot_names(names);
    if sorted.len() > 2 {
        let gone = outdated(sorted);
        assert forall|i: int, j: int| 0 <= i < gone.len() <= j < sorted.len() implies (
        #[trigger] sorted[i]).0 <= (#[trigger] sorted[j]).0 by {
            lemma_in_order::<(u64, String)>(sorted, i, j);
        }
    }
}

proof fn lemma_in_order<K: Key>(s: Seq<K::V>, i: int, j: int)
    requires
        in_order::<K>(s),
        0 <= i < j < s.len(),
    ensures
        !K::precedes(s[j], s[i]),
{
}

proof fn lemma_half_written(name: Seq<char>)
    ensures
        is_tmp(name) <==> half_written(name),
{
    let suffix = ".tmp"@;
    if is_tmp(name) {
        assert(name =~= stem(name, suffix).unwrap() + suffix);
    }
    if half_written(name) {
        let before = choose|before: Seq<char>| name == before + suffix;
        assert(name.skip(name.len() - suffix.len()) =~= suffix);
    }
}

proof fn lemma_snapshot_names(names: Seq<Seq<char>>)
    ensures
        tmp_names(names) == names.filter(|name: Seq<char>| half_written(name)),
        named_snapshots(names) == names.filter_map(
            |name: Seq<char>|
                if half_written(name) {
                    None
                } else {
                    match seq_of_name(name, ".snap"@) {
                        Some(seq) => Some((seq, name)),
                        None => None,
                    }
                },
        ),
    decreases names.len(),
{
    reveal(Seq::filter);
    let says = |name: Seq<char>|
        if half_written(name) {
            None
        } else {
            match seq_of_name(name, ".snap"@) {
                Some(seq) => Some((seq, name)),
                None => None,
            }
        };
    if names.len() > 0 {
        lemma_snapshot_names(names.drop_last());
        lemma_half_written(names.last());
        assert(named_snapshots(names) =~= names.filter_map(says));
    } else {
        assert(tmp_names(names) =~= names.filter(|name: Seq<char>| half_written(name)));
        assert(named_snapshots(names) =~= names.filter_map(says));
    }
}

/// A snapshot leaves out nothing but what the segment scan rebuilds: every
/// transaction and incarnation is there, with its producer, state, timeout,
/// beginning and staged offsets, and so are the topics and the credentials. It
/// says up to which WAL file it captures, and of a partition where its log
/// starts and which ranges aborted.
pub proof fn law_snapshot_leaves_nothing_else_out(
    coord: CoordModel,
    wal_seq: u64,
    groups: GroupsModel,
    group_offsets: GroupOffsetsModel,
    partitions: Seq<((Seq<char>, i32), SkeletonModel)>,
    p: PartModel,
    id: Seq<char>,
    epoch: i16,
)
    ensures
        ({
            let bare = unscanned(coord);
            &&& bare.transactions.dom() == coord.transactions.dom()
            &&& coord.transactions.dom().contains(id) ==> bare.transactions[id].producer
                == coord.transactions[id].producer && bare.transactions[id].epochs.dom()
                == coord.transactions[id].epochs.dom()
            &&& txn_at(coord, id, epoch) matches Some(was) ==> {
                &&& txn_at(bare, id, epoch) matches Some(is)
                &&& is.state == was.state
                &&& is.started_at == was.started_at
                &&& is.transaction_timeout_ms == was.transaction_timeout_ms
                &&& is.offsets == was.offsets
                &&& is.produces.dom() == was.produces.dom()
            }
            &&& bare.topics == coord.topics
            &&& bare.scram == coord.scram
        }),
        document(wal_seq, coord, groups, group_offsets, partitions).wal_seq == wal_seq,
        document(wal_seq, coord, groups, group_offsets, partitions).format_version == 1,
        document(wal_seq, coord, groups, group_offsets, partitions).partitions == partitions,
        skeleton_of(p).log_start == p.log_start,
        skeleton_of(p).aborted == p.aborted,
{
    let bare = unscanned(coord);
    assert(bare.transactions.dom() =~= coord.transactions.dom());
    if coord.transactions.dom().contains(id) {
        assert(bare.transactions[id].epochs.dom() =~= coord.transactions[id].epochs.dom());
        if let Some(was) = txn_at(coord, id, epoch) {
            let is = txn_at(bare, id, epoch).unwrap();
            assert(is.produces.dom() =~= was.produces.dom());
        }
    }
}

/// What is logged of an end names the transaction, its producer and epoch, says
/// whether it committed, and lists what it produced where it aborted, and
/// nothing where it committed. Each end is logged, in order.
pub proof fn law_end_is_logged(effects: Seq<Effects>)
    ensures
        terminals(effects).len() == effects.len(),
        forall|i: int|
            0 <= i < effects.len() ==> {
                &&& #[trigger] terminals(effects)[i] matches Record::TxnTerminal {
                    transaction_id,
                    producer_id,
                    producer_epoch,
                    committed,
                    aborted,
                }
                &&& transaction_id == effects[i].transaction
                &&& producer_id == effects[i].producer_id
                &&& producer_epoch == effects[i].producer_epoch
                &&& committed != effects[i].aborting
                &&& effects[i].aborting ==> aborted == effects[i].ranges
                &&& !effects[i].aborting ==> aborted.len() == 0
            },
{
    assert forall|i: int| 0 <= i < effects.len() implies #[trigger] terminals(effects)[i]
        == terminal_of(effects[i]) by {}
}

/// The bytes of a snapshot file give the document back, and those of no other
/// frame do.
pub proof fn law_snapshot_file_reads_back(payload: Seq<u8>, frame_type: FrameType)
    requires
        payload.len() < 0x1_0000_0000,
    ensures
        snapshot_in(framed(frame_type, payload)) == if frame_type == FrameType::Snapshot {
            Some(payload)
        } else {
            None
        },
{
    crate::frame::law_round_trip(frame_type, payload, Seq::empty());
    assert(framed(frame_type, payload) + Seq::<u8>::empty() =~= framed(frame_type, payload));
}

/// The name that a snapshot is written under is one that a boot clears away,
/// and is never taken for a snapshot's.
pub proof fn law_half_written_is_no_snapshot(wal_seq: u64)
    ensures
        half_written(tmp_name(wal_seq)),
        seq_of_name(tmp_name(wal_seq), ".snap"@) is None,
{
    let name = tmp_name(wal_seq);
    reveal_strlit(".");
    reveal_strlit(".tmp");
    reveal_strlit(".snap");
    let before = "."@ + crate::text::padded(wal_seq as int, 20);
    assert(name == before + ".tmp"@);
    assert(name[0] == '.');
    if stem(name, ".snap"@) is Some {
        let tail = name.skip(name.len() - 5);
        assert(tail[4] == name[name.len() - 1]);
        assert(".snap"@[3] == 'a');
        assert(tail[3] == name[name.len() - 2]);
        assert(name[name.len() - 2] == ".tmp"@[2]);
    }
}

/// Whether a text is slashes and nothing else.
pub open spec fn only_slashes(s: Seq<char>) -> bool {
    forall|i: int| 0 <= i < s.len() ==> #[trigger] s[i] == '/'
}

/// A path without the slashes around it neither begins nor ends with one, and
/// only slashes were taken from it, on either side.
pub proof fn law_slashes_are_trimmed(s: Seq<char>) -> (cut: (Seq<char>, Seq<char>))
    ensures
        only_slashes(cut.0),
        only_slashes(cut.1),
        s == cut.0 + trimmed(s) + cut.1,
        trimmed(s).len() > 0 ==> trimmed(s)[0] != '/' && trimmed(s).last() != '/',
{
    let n = leading_slashes(s) as int;
    lemma_leading(s);
    let body = s.skip(n);
    let tail = lemma_untailed(body);
    let head = s.take(n);
    assert(s =~= head + body);
    assert(head + (trimmed(s) + tail) =~= head + trimmed(s) + tail);
    if trimmed(s).len() > 0 {
        assert(trimmed(s)[0] == body[0]);
        assert(body[0] == s[n]);
    }
    (head, tail)
}

proof fn lemma_leading(s: Seq<char>)
    ensures
        leading_slashes(s) <= s.len(),
        only_slashes(s.take(leading_slashes(s) as int)),
        leading_slashes(s) < s.len() ==> s[leading_slashes(s) as int] != '/',
    decreases s.len(),
{
    if s.len() > 0 && s[0] == '/' {
        let after = s.drop_first();
        lemma_leading(after);
        let n = leading_slashes(s) as int;
        assert forall|i: int| 0 <= i < s.take(n).len() implies #[trigger] s.take(n)[i] == '/' by {
            if i > 0 {
                assert(after.take(n - 1)[i - 1] == s[i]);
            }
        }
    }
}

proof fn lemma_untailed(s: Seq<char>) -> (tail: Seq<char>)
    ensures
        only_slashes(tail),
        s == untailed(s) + tail,
        untailed(s).len() > 0 ==> untailed(s).last() != '/',
    decreases s.len(),
{
    if s.len() > 0 && s.last() == '/' {
        let tail = lemma_untailed(s.drop_last());
        assert(untailed(s) == untailed(s.drop_last()));
        assert(s =~= (untailed(s) + tail).push('/'));
        assert((untailed(s) + tail).push('/') =~= untailed(s) + tail.push('/'));
        tail.push('/')
    } else {
        assert(s =~= untailed(s) + Seq::<char>::empty());
        Seq::empty()
    }
}

/// A cluster's objects are under `clusters/`, its name and `nvme`; where the
/// URL has a path but slashes, all that is under that path.
pub proof fn law_objects_are_under_the_path(path: Seq<char>, cluster: Seq<char>)
    ensures
        only_slashes(path) ==> prefix_of(path, cluster) == "clusters/"@ + cluster + "/nvme"@,
        !only_slashes(path) ==> prefix_of(path, cluster) == trimmed(path) + "/"@ + ("clusters/"@
            + cluster + "/nvme"@),
{
    let cut = law_slashes_are_trimmed(path);
    if only_slashes(path) && trimmed(path).len() > 0 {
        assert(path[cut.0.len() as int] == trimmed(path)[0]);
    }
    if trimmed(path).len() == 0 {
        assert forall|i: int| 0 <= i < path.len() implies #[trigger] path[i] == '/' by {
            if i < cut.0.len() {
                assert(path[i] == cut.0[i]);
            } else {
                assert(path[i] == cut.1[i - cut.0.len()]);
            }
        }
    }
}

/// A cluster's objects are under its own prefix, which two clusters never
/// share under one base path.
pub proof fn law_clusters_are_apart(path: Seq<char>, cluster: Seq<char>, other: Seq<char>)
    requires
        cluster != other,
    ensures
        prefix_of(path, cluster) != prefix_of(path, other),
{
    let base = trimmed(path);
    let start = if base.len() == 0 {
        "clusters/"@
    } else {
        base + "/"@ + "clusters/"@
    };
    let end = "/nvme"@;
    assert(prefix_of(path, cluster) =~= start + cluster + end);
    assert(prefix_of(path, other) =~= start + other + end);
    if prefix_of(path, cluster) == prefix_of(path, other) {
        let whole = prefix_of(path, cluster);
        assert(whole.subrange(start.len() as int, whole.len() - end.len()) =~= cluster);
        assert(whole.subrange(start.len() as int, whole.len() - end.len()) =~= other);
    }
}

/// Two partitions never share a place in the object store.
pub proof fn law_partitions_are_apart(
    prefix: Seq<char>,
    topition: (Seq<char>, i32),
    other: (Seq<char>, i32),
)
    requires
        topition.0.len() > 0,
        topition.1 >= 0,
        other.0.len() > 0,
        other.1 >= 0,
        topition != other,
    ensures
        object_dir(prefix, topition) != object_dir(prefix, other),
{
    let start = prefix + "/topics/"@;
    let end = "/segments"@;
    let (own, theirs) = (dir_name(topition), dir_name(other));
    assert(object_dir(prefix, topition) =~= start + own + end);
    assert(object_dir(prefix, other) =~= start + theirs + end);
    if object_dir(prefix, topition) == object_dir(prefix, other) {
        let whole = object_dir(prefix, topition);
        assert(whole.subrange(start.len() as int, whole.len() - end.len()) =~= own);
        assert(whole.subrange(start.len() as int, whole.len() - end.len()) =~= theirs);
        law_dir_name_reads_back(topition.0, topition.1);
        law_dir_name_reads_back(other.0, other.1);
    }
}

} // verus!
