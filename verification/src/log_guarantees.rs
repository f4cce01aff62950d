//! What is read from the log and passed on, said of its records and lines, and
//! how names and positions are read.

use crate::change::BatchView;
use crate::encoding;
use crate::lsn;
use crate::recovery;
use crate::reopening;
use crate::replication;
use crate::replication::ReceivedLine;
use crate::snapshot;
use crate::text;
use crate::wal;
use crate::wal::{RecordView, WalOp, WalWriter};
use vstd::prelude::*;

verus! {

/// What is newer than a position is every record past it, in order; without
/// one, every record.
pub proof fn newer_records_are_those_past_the_position(s: Seq<RecordView>, after: Option<u64>)
    ensures
        after is None ==> wal::newer(s, after) == s,
        after matches Some(a) ==> wal::newer(s, after) == s.filter(|r: RecordView| r.lsn > a),
    decreases s.len(),
{
    reveal(Seq::filter);
    if s.len() > 0 {
        newer_records_are_those_past_the_position(s.drop_last(), after);
        assert(s.drop_last().push(s.last()) =~= s);
    } else if let Some(a) = after {
        assert(s.filter(|r: RecordView| r.lsn > a) =~= s);
    }
}

/// The events of records are those of each that has one, in order.
pub proof fn every_record_is_told_in_order(records: Seq<RecordView>, n: nat)
    requires
        n <= records.len(),
    ensures
        recovery::events_of(records, n) == records.take(n as int).filter(|r: RecordView| recovery::event_of(r) is Some).map_values(
            |r: RecordView| recovery::event_of(r)->0,
        ),
    decreases n,
{
    reveal(Seq::filter);
    let keep = |r: RecordView| recovery::event_of(r) is Some;
    let tell = |r: RecordView| recovery::event_of(r)->0;
    let all = records.take(n as int);
    if n > 0 {
        every_record_is_told_in_order(records, (n - 1) as nat);
        assert(all.drop_last() =~= records.take(n - 1));
        let before = all.drop_last().filter(keep);
        if keep(all.last()) {
            assert(before.push(all.last()).map_values(tell) =~= before.map_values(tell).push(tell(all.last())));
        }
    }
    assert(recovery::events_of(records, n) =~= all.filter(keep).map_values(tell));
}

/// Whether a batch tells of the records from `a` to `b`, which are one
/// transaction's, all that stand together.
pub open spec fn tells_of(batch: BatchView, coll: Seq<char>, records: Seq<RecordView>, a: int, b: int) -> bool {
    &&& 0 <= a < b <= records.len()
    &&& batch.coll == coll
    &&& forall|i: int| a <= i < b ==> (#[trigger] records[i]).txn == batch.txn_id
    &&& b < records.len() ==> records[b].txn != batch.txn_id
    &&& batch.events == recovery::events_of(records.subrange(a, b), (b - a) as nat)
}

/// A follower tells its subscribers of one batch for each transaction that it
/// is given, in order: the records are cut where the transaction changes, and
/// each batch holds the events of its part. Where they are cut is what is
/// returned.
pub proof fn each_transaction_is_one_batch(coll: Seq<char>, records: Seq<RecordView>, from: nat) -> (cuts: Seq<int>)
    requires
        from <= records.len(),
    ensures
        cuts.len() == replication::run_batches(coll, records, from).len() + 1,
        cuts[0] == from,
        cuts[cuts.len() - 1] == records.len(),
        forall|b: int| 0 <= b < replication::run_batches(coll, records, from).len() ==> tells_of(
            #[trigger] replication::run_batches(coll, records, from)[b],
            coll,
            records,
            cuts[b],
            cuts[b + 1],
        ),
    decreases records.len() - from,
{
    let batches = replication::run_batches(coll, records, from);
    if from >= records.len() {
        seq![from as int]
    } else {
        recovery::lemma_run_end(records, from + 1);
        let to = recovery::run_end(records, from + 1);
        reopening::lemma_run_stops(records, from + 1);
        assert forall|i: int| from <= i < to implies (#[trigger] records[i]).txn == records[from as int].txn by {
            reopening::lemma_run_same(records, from, i);
        }
        let rest = each_transaction_is_one_batch(coll, records, to);
        let later = replication::run_batches(coll, records, to);
        let cuts = seq![from as int] + rest;
        assert(cuts[cuts.len() - 1] == rest[rest.len() - 1]);
        let run = records.subrange(from as int, to as int);
        let own = BatchView { txn_id: records[from as int].txn, coll, events: recovery::events_of(run, run.len()) };
        assert(batches == seq![own] + later);
        assert(tells_of(own, coll, records, from as int, to as int));
        assert forall|b: int| 0 <= b < batches.len() implies tells_of(#[trigger] batches[b], coll, records, cuts[b], cuts[b + 1]) by {
            if b == 0 {
                assert(batches[0] == own);
                assert(cuts[1] == rest[0]);
            } else {
                assert(batches[b] == later[b - 1]);
                assert(cuts[b] == rest[b - 1] && cuts[b + 1] == rest[b]);
            }
        }
        cuts
    }
}

/// Whether a line that was received cannot be trusted: it could not be read,
/// or its checksum is not the one of what it says.
pub open spec fn untrusted(line: ReceivedLine) -> bool {
    match line {
        Err(_) => true,
        Ok(read) => encoding::checksum_text(encoding::crc32c_of(read.unsealed@)) != read.record.checksum@,
    }
}

/// Lines that were received are refused exactly when one of them cannot be
/// trusted; the refusal is about the first such line.
pub proof fn a_line_that_cannot_be_trusted_is_refused(lines: Seq<ReceivedLine>, from: nat)
    requires
        from <= lines.len(),
    ensures
        from <= replication::first_fault(lines, from) <= lines.len(),
        forall|i: int| from <= i < replication::first_fault(lines, from) ==> !untrusted(#[trigger] lines[i]),
        replication::first_fault(lines, from) < lines.len() ==> untrusted(lines[replication::first_fault(lines, from) as int]) && replication::line_fault(
            lines[replication::first_fault(lines, from) as int],
        ) is Some,
    decreases lines.len() - from,
{
    if from < lines.len() && !untrusted(lines[from as int]) {
        a_line_that_cannot_be_trusted_is_refused(lines, from + 1);
    }
}

/// A segment is left for the next once it holds as many bytes as it may, but
/// never while it is empty; a record's position is where it will stand.
pub proof fn a_full_segment_is_left(w: WalWriter)
    requires
        w.segment_id < u32::MAX,
    ensures
        w.offset >= w.segment_size_bytes && w.offset > 0 ==> wal::must_rotate(w) && wal::next_position(w) == (w.segment_id + 1) * 0x1_0000_0000,
        w.offset < w.segment_size_bytes || w.offset == 0 ==> !wal::must_rotate(w) && wal::next_position(w) == w.segment_id * 0x1_0000_0000 + w.offset,
{
}

/// A writer goes on in the last segment that there is, at the end of what is
/// valid in it; without one it starts the first.
pub proof fn a_writer_goes_on_where_the_log_ends(ids: Seq<u32>, last_len: u32, segment_size_bytes: u32, fsync: wal::FsyncPolicy)
    ensures
        ({
            let w = wal::opened(ids, last_len, segment_size_bytes, fsync);
            &&& ids.len() == 0 ==> w.segment_id == 0
            &&& ids.len() > 0 ==> w.segment_id == ids[ids.len() - 1]
            &&& w.offset == last_len
            &&& w.segment_size_bytes == segment_size_bytes
            &&& w.fsync == fsync
        }),
{
}

proof fn lemma_named<T>(names: Seq<Seq<char>>, keep: spec_fn(Seq<char>) -> bool, read: spec_fn(Seq<char>) -> T, listed: spec_fn(Seq<Seq<char>>) -> Seq<T>)
    requires
        forall|s: Seq<Seq<char>>| #[trigger] listed(s) == (if s.len() == 0 {
            Seq::<T>::empty()
        } else if keep(s.last()) {
            listed(s.drop_last()).push(read(s.last()))
        } else {
            listed(s.drop_last())
        }),
    ensures
        listed(names) == names.filter(keep).map_values(read),
    decreases names.len(),
{
    reveal(Seq::filter);
    if names.len() > 0 {
        lemma_named(names.drop_last(), keep, read, listed);
        let before = names.drop_last().filter(keep);
        if keep(names.last()) {
            assert(before.push(names.last()).map_values(read) =~= before.map_values(read).push(read(names.last())));
        }
    }
    assert(listed(names) =~= names.filter(keep).map_values(read));
}

/// The segments and the checkpoints that a directory holds are those that its
/// names are of; other names do not count.
pub proof fn only_names_of_the_right_form_count(names: Seq<Seq<char>>)
    ensures
        wal::named_segments(names) == names.filter(|n: Seq<char>| wal::named_segment(n) is Some).map_values(|n: Seq<char>| wal::named_segment(n)->0 as u32),
        snapshot::named_generations(names) == names.filter(|n: Seq<char>| snapshot::named_generation(n) is Some).map_values(
            |n: Seq<char>| snapshot::named_generation(n)->0 as u64,
        ),
{
    lemma_named(
        names,
        |n: Seq<char>| wal::named_segment(n) is Some,
        |n: Seq<char>| wal::named_segment(n)->0 as u32,
        |s: Seq<Seq<char>>| wal::named_segments(s),
    );
    lemma_named(
        names,
        |n: Seq<char>| snapshot::named_generation(n) is Some,
        |n: Seq<char>| snapshot::named_generation(n)->0 as u64,
        |s: Seq<Seq<char>>| snapshot::named_generations(s),
    );
}

/// A name that is read as a number between a beginning and an end has them,
/// and the number is what stands between; any name that has them, and a number
/// between that is not too large, is read so.
pub proof fn a_framed_number_stands_between(name: Seq<char>, prefix: Seq<char>, middle: Seq<char>, suffix: Seq<char>, max: nat)
    ensures
        text::framed_number(prefix + middle + suffix, prefix, suffix, max) == text::parsed_number(middle, 10, max),
        text::framed_number(name, prefix, suffix, max) is Some ==> exists|m: Seq<char>| name == #[trigger] (prefix + m + suffix),
{
    let whole = prefix + middle + suffix;
    assert(whole.take(prefix.len() as int) =~= prefix);
    assert(whole.skip(whole.len() - suffix.len()) =~= suffix);
    assert(whole.subrange(prefix.len() as int, whole.len() - suffix.len()) =~= middle);
    if text::framed_number(name, prefix, suffix, max) is Some {
        let m = name.subrange(prefix.len() as int, name.len() - suffix.len());
        assert forall|i: int| 0 <= i < name.len() implies name[i] == (prefix + m + suffix)[i] by {
            if i < prefix.len() {
                assert(name.take(prefix.len() as int)[i] == prefix[i]);
            } else if i >= name.len() - suffix.len() {
                assert(name.skip(name.len() - suffix.len())[i - (name.len() - suffix.len())] == suffix[i - (name.len() - suffix.len())]);
            }
        }
        assert(name =~= prefix + m + suffix);
    }
}

/// Whether two texts agree up to a place, and there the first ends or has the
/// smaller character.
pub open spec fn falls_behind(a: Seq<char>, b: Seq<char>, i: int) -> bool {
    &&& 0 <= i <= a.len()
    &&& i < b.len()
    &&& forall|j: int| 0 <= j < i ==> a[j] == b[j]
    &&& i == a.len() || a[i] < b[i]
}

/// One text comes before another when, at the first place where they differ,
/// it has the smaller character, or ends.
pub proof fn texts_are_ordered_by_their_first_difference(a: Seq<char>, b: Seq<char>)
    ensures
        text::text_before(a, b) <==> exists|i: int| falls_behind(a, b, i),
    decreases a.len(),
{
    if b.len() > 0 && a.len() > 0 && a[0] == b[0] {
        let x = a.skip(1);
        let y = b.skip(1);
        texts_are_ordered_by_their_first_difference(x, y);
        if text::text_before(a, b) {
            let i = choose|i: int| falls_behind(x, y, i);
            assert forall|j: int| 0 <= j < i + 1 implies a[j] == b[j] by {
                if j > 0 {
                    assert(x[j - 1] == y[j - 1]);
                }
            }
            assert(falls_behind(a, b, i + 1));
        }
        if exists|i: int| falls_behind(a, b, i) {
            let i = choose|i: int| falls_behind(a, b, i);
            assert forall|j: int| 0 <= j < i - 1 implies x[j] == y[j] by {
                assert(a[j + 1] == b[j + 1]);
            }
            assert(falls_behind(x, y, i - 1));
        }
    } else if b.len() > 0 {
        if a.len() == 0 || a[0] < b[0] {
            assert(falls_behind(a, b, 0));
        }
        if exists|i: int| falls_behind(a, b, i) {
            let i = choose|i: int| falls_behind(a, b, i);
            if i > 0 {
                assert(a[0] == b[0]);
            }
        }
    }
}

proof fn lemma_first_slash(s: Seq<char>, from: nat)
    requires
        from <= s.len(),
    ensures
        from <= lsn::first_slash(s, from) <= s.len(),
        forall|j: int| from <= j < lsn::first_slash(s, from) ==> #[trigger] s[j] != '/',
        lsn::first_slash(s, from) < s.len() ==> s[lsn::first_slash(s, from) as int] == '/',
    decreases s.len() - from,
{
    if from < s.len() && s[from as int] != '/' {
        lemma_first_slash(s, from + 1);
    }
}

/// A position is written as two hexadecimal numbers with a slash between. A
/// text without one has no position's form; of one with a slash, the part
/// before the first is the segment and all that follows it the offset, each of
/// them a number of four bytes at most.
pub proof fn a_position_is_two_numbers_round_a_slash(segment: Seq<char>, offset: Seq<char>, other: Seq<char>)
    requires
        forall|j: int| 0 <= j < segment.len() ==> #[trigger] segment[j] != '/',
        forall|j: int| 0 <= j < other.len() ==> #[trigger] other[j] != '/',
    ensures
        lsn::parsed_lsn(other) is Err && lsn::parsed_lsn(other)->Err_0 is BadFormat,
        ({
            let s = segment.push('/') + offset;
            let hi = text::parsed_number(segment, 16, 0xFFFF_FFFF);
            let lo = text::parsed_number(offset, 16, 0xFFFF_FFFF);
            &&& lsn::parsed_lsn(s) is Ok <==> hi is Some && lo is Some
            &&& hi is Some && lo is Some ==> lsn::parsed_lsn(s)->Ok_0 as int == hi->0 * 0x1_0000_0000 + lo->0
            &&& hi is None ==> lsn::parsed_lsn(s) is Err && lsn::parsed_lsn(s)->Err_0 is BadSegment
            &&& hi is Some && lo is None ==> lsn::parsed_lsn(s) is Err && lsn::parsed_lsn(s)->Err_0 is BadOffset
        }),
{
    lemma_first_slash(other, 0);
    let s = segment.push('/') + offset;
    lemma_first_slash(s, 0);
    assert(s[segment.len() as int] == '/');
    let at = lsn::first_slash(s, 0) as int;
    assert(at == segment.len()) by {
        if at < segment.len() {
            assert(s[at] == segment[at]);
        }
    }
    assert(s.take(at) =~= segment);
    assert(s.skip(at + 1) =~= offset);
}

proof fn lemma_no_doc_key(s: Seq<RecordView>, from: nat)
    requires
        from <= s.len(),
        forall|j: int| from <= j < s.len() ==> (#[trigger] s[j]).doc_key is None,
    ensures
        wal::first_doc_key(s, from) is None,
    decreases s.len() - from,
{
    if from < s.len() {
        lemma_no_doc_key(s, from + 1);
    }
}

proof fn lemma_first_doc_key(s: Seq<RecordView>, from: nat, i: int)
    requires
        from <= i < s.len(),
        s[i].doc_key is Some,
        forall|j: int| from <= j < i ==> (#[trigger] s[j]).doc_key is None,
    ensures
        wal::first_doc_key(s, from) == s[i].doc_key,
    decreases i - from,
{
    if from < i {
        lemma_first_doc_key(s, from + 1, i);
    }
}

/// Whether every record does one thing.
pub open spec fn all_are(s: Seq<RecordView>, op: WalOp) -> bool {
    forall|j: int| 0 <= j < s.len() ==> (#[trigger] s[j]).op == op
}

/// How a transaction is summed up where a record names a document: as what was
/// done to the first document that is named, a put where all are insertions, a
/// deletion where all are deletions, otherwise a replacement.
pub proof fn a_document_summary_says_what_was_done(s: Seq<RecordView>, i: int)
    requires
        0 <= i < s.len(),
        s[i].doc_key is Some,
        forall|j: int| 0 <= j < i ==> (#[trigger] s[j]).doc_key is None,
    ensures
        all_are(s, WalOp::Insert) ==> wal::txn_summary(s) == "put_document "@ + encoding::quoted(s[i].doc_key->0) + " ("@ + text::decimal(s.len()) + " chunks)"@,
        all_are(s, WalOp::Delete) ==> wal::txn_summary(s) == "delete_document "@ + encoding::quoted(s[i].doc_key->0) + " ("@ + text::decimal(s.len()) + " chunks)"@,
        !all_are(s, WalOp::Insert) && !all_are(s, WalOp::Delete) ==> wal::txn_summary(s) == "replace_document "@ + encoding::quoted(s[i].doc_key->0) + " ("@
            + text::decimal(s.len()) + " records)"@,
{
    lemma_first_doc_key(s, 0, i);
    assert(all_are(s, WalOp::Insert) == wal::all_op(s, WalOp::Insert));
    assert(all_are(s, WalOp::Delete) == wal::all_op(s, WalOp::Delete));
    assert(!(all_are(s, WalOp::Insert) && all_are(s, WalOp::Delete))) by {
        if all_are(s, WalOp::Insert) && all_are(s, WalOp::Delete) {
            assert(s[i].op == WalOp::Insert);
        }
    }
}

/// How a transaction is summed up where none does: as a deletion where all are
/// deletions and otherwise as a put, of one row by its key or of several by
/// their number.
pub proof fn a_row_summary_says_what_was_done(s: Seq<RecordView>)
    requires
        0 < s.len(),
        forall|j: int| 0 <= j < s.len() ==> (#[trigger] s[j]).doc_key is None,
    ensures
        ({
            let coll = encoding::quoted(s[0].coll);
            let key = encoding::quoted(match s[0].key {
                Some(k) => k,
                None => Seq::empty(),
            });
            let deletes = all_are(s, WalOp::Delete);
            &&& deletes && s.len() == 1 ==> wal::txn_summary(s) == "delete "@ + key + " in "@ + coll
            &&& deletes && s.len() > 1 ==> wal::txn_summary(s) == "delete ("@ + text::decimal(s.len()) + " rows) in "@ + coll
            &&& !deletes && s.len() == 1 ==> wal::txn_summary(s) == "put "@ + key + " in "@ + coll
            &&& !deletes && s.len() > 1 ==> wal::txn_summary(s) == "put_batch ("@ + text::decimal(s.len()) + " rows) in "@ + coll
        }),
{
    lemma_no_doc_key(s, 0);
    assert(all_are(s, WalOp::Delete) == wal::all_op(s, WalOp::Delete));
}

/// What a line does to a replay. One that cannot be trusted ends it. A record
/// joins those of its transaction that wait, and drops those of another; where
/// it is the last of its transaction, or past it, all that wait are committed
/// (those that are newer than asked for are kept), and what is valid reaches
/// up to here. A replay that has ended changes no more.
pub proof fn a_record_waits_for_the_end_of_its_transaction(s: wal::Replay, line: wal::LineView, after: Option<u64>)
    ensures
        ({
            let e = wal::replay_line(s, line, after);
            &&& s.stopped ==> e == s
            &&& !s.stopped && line.record is None ==> e == (wal::Replay { stopped: true, ..s })
            &&& !s.stopped && line.record is Some ==> {
                let r = line.record->0;
                let joined = if s.pending.len() > 0 && s.pending[s.pending.len() - 1].txn != r.txn { Seq::empty().push(r) } else { s.pending.push(r) };
                &&& !e.stopped
                &&& e.segment == s.segment
                &&& e.offset == s.offset + line.len
                &&& r.txn_seq.0 < r.txn_seq.1 ==> e.pending == joined && e.committed == s.committed && e.valid == s.valid
                &&& r.txn_seq.0 >= r.txn_seq.1 ==> e.pending.len() == 0 && e.committed == s.committed + wal::newer(joined, after) && e.valid == e.offset
            }
        }),
{
    if let Some(r) = line.record {
        assert(seq![r] =~= Seq::empty().push(r));
    }
}

/// A numeral has no leading zeros, but for nought itself.
pub proof fn a_numeral_has_no_leading_zeros(n: nat, base: nat, upper: bool)
    requires
        2 <= base <= 16,
    ensures
        n > 0 ==> text::numeral(n, base, upper)[0] != '0',
        n < base ==> text::numeral(n, base, upper).len() == 1,
        n >= base ==> text::numeral(n, base, upper).len() == text::numeral(n / base, base, upper).len() + 1,
    decreases n,
{
    if n >= base {
        assert(0 < n / base < n) by (nonlinear_arith)
            requires
                n >= base,
                base >= 2,
        ;
        a_numeral_has_no_leading_zeros(n / base, base, upper);
        text::numeral_reads_back(n / base, base, upper);
    }
}

/// Letters of a numeral are of the case that is asked for.
pub proof fn digits_are_of_one_case(d: int)
    requires
        10 <= d < 16,
    ensures
        'a' <= text::digit_char(d, false) <= 'f',
        'A' <= text::digit_char(d, true) <= 'F',
        text::digit_char(d, false) as int - 'a' as int == d - 10,
        text::digit_char(d, true) as int - 'A' as int == d - 10,
{
}

/// The text of a position is its segment and its offset with a slash between,
/// the segment in lower-case and the offset in upper-case digits.
pub proof fn a_position_is_written_as_two_numbers(segment: u32, offset: u32)
    ensures
        lsn::lsn_text(lsn::packed(segment, offset)) == text::numeral(segment as nat, 16, false) + seq!['/'] + text::numeral(offset as nat, 16, true),
{
    let v = lsn::packed(segment, offset);
    assert(v / 0x1_0000_0000 == segment && v % 0x1_0000_0000 == offset);
    assert(lsn::lsn_text(v) =~= text::numeral(segment as nat, 16, false) + seq!['/'] + text::numeral(offset as nat, 16, true));
}

/// A line that was received and cannot be trusted is refused with what is
/// wrong with it: that it could not be read, or that its checksum is wrong,
/// naming its position.
pub proof fn a_refused_line_says_what_is_wrong(line: ReceivedLine)
    ensures
        replication::line_fault(line) is Some <==> untrusted(line),
        line matches Err(e) ==> replication::line_fault(line) == Some("malformed replicated WAL line: "@ + e@),
        line matches Ok(read) ==> untrusted(line) ==> replication::line_fault(line) == Some(
            "replicated WAL line for lsn "@ + lsn::lsn_text(read.record.lsn.0) + " failed checksum verification"@,
        ),
{
}

/// A replay goes from segment to segment: in each it starts at the first byte
/// and takes all the lines, and what waits or is committed stays; once it has
/// ended it looks at no further segment.
pub proof fn a_replay_goes_from_segment_to_segment(segments: Seq<(u32, Seq<wal::LineView>)>, n: nat, after: Option<u64>)
    requires
        n < segments.len(),
    ensures
        ({
            let before = wal::replay_segments(segments, n, after);
            let now = wal::replay_segments(segments, n + 1, after);
            let (id, lines) = segments[n as int];
            let start = wal::Replay { committed: before.committed, pending: before.pending, segment: id, offset: 0, valid: 0, stopped: false };
            &&& before.stopped ==> now.committed == before.committed && now.segment == before.segment && now.valid == before.valid && now.stopped
            &&& !before.stopped ==> now == wal::replay_lines(start, lines, lines.len(), after)
        }),
{
    let before = wal::replay_segments(segments, n, after);
    let (id, lines) = segments[n as int];
    if before.stopped {
        lemma_stays_stopped(before, lines, lines.len(), after);
    }
}

proof fn lemma_stays_stopped(s: wal::Replay, lines: Seq<wal::LineView>, n: nat, after: Option<u64>)
    requires
        s.stopped,
    ensures
        wal::replay_lines(s, lines, n, after) == s,
    decreases n,
{
    if n > 0 {
        lemma_stays_stopped(s, lines, (n - 1) as nat, after);
    }
}

/// The text of a checksum is eight lower-case hexadecimal digits that read
/// back as it.
pub proof fn a_checksum_is_eight_digits(sum: u32)
    ensures
        encoding::checksum_text(sum).len() == 8,
        text::digits_value(encoding::checksum_text(sum), 16) == Some(sum as nat),
{
    let s = text::numeral(sum as nat, 16, false);
    text::numeral_reads_back(sum as nat, 16, false);
    reveal_with_fuel(power, 9);
    lemma_digit_count(sum as nat, 8);
    let k = (8 - s.len()) as nat;
    text::zeros_do_not_count(s, k, 16);
    assert(Seq::new(0, |i: int| '0') + s =~= s);
}

spec fn power(k: nat) -> nat
    decreases k,
{
    if k == 0 { 1 } else { 16 * power((k - 1) as nat) }
}

proof fn lemma_digit_count(n: nat, k: nat)
    requires
        k > 0,
        n < power(k),
    ensures
        text::numeral(n, 16, false).len() <= k,
    decreases k,
{
    if n >= 16 {
        if k == 1 {
            assert(power(0) == 1);
        } else {
            assert(n / 16 < power((k - 1) as nat));
            lemma_digit_count(n / 16, (k - 1) as nat);
        }
    }
}

/// A number is read digit by digit, each digit counting once and what stands
/// before it as many times more as the base says; a character that is no digit
/// of the base makes it no number. Letters are digits in either case.
pub proof fn a_number_is_read_digit_by_digit(s: Seq<char>, c: char, base: nat)
    requires
        2 <= base <= 16,
    ensures
        text::digits_value(Seq::empty(), base) == Some(0nat),
        text::digits_value(s.push(c), base) is Some <==> text::digits_value(s, base) is Some && text::digit_value(c, base) is Some,
        text::digits_value(s.push(c), base) matches Some(v) ==> v == text::digits_value(s, base)->0 * base + text::digit_value(c, base)->0,
        text::digit_value(c, base) matches Some(d) ==> d < base && (('0' <= c <= '9' && d == c as int - '0' as int) || ('a' <= c <= 'f' && d == c as int - 'a' as int + 10) || (
        'A' <= c <= 'F' && d == c as int - 'A' as int + 10)),
        base == 16 && ('0' <= c <= '9' || 'a' <= c <= 'f' || 'A' <= c <= 'F') ==> text::digit_value(c, base) is Some,
        base == 10 && '0' <= c <= '9' ==> text::digit_value(c, base) is Some,
{
    assert(s.push(c).drop_last() =~= s);
}

/// A number that is read has one digit at least, a plus sign before it or not,
/// and is no larger than the limit.
pub proof fn a_number_may_have_a_plus_sign(s: Seq<char>, base: nat, max: nat)
    requires
        s.len() == 0 || s[0] != '+',
    ensures
        text::parsed_number(s, base, max) is Some <==> s.len() > 0 && text::digits_value(s, base) is Some && text::digits_value(s, base)->0 <= max,
        text::parsed_number(s, base, max) matches Some(v) ==> text::digits_value(s, base) == Some(v),
        text::parsed_number(seq!['+'] + s, base, max) == text::parsed_number(s, base, max),
{
    let signed = seq!['+'] + s;
    assert(signed[0] == '+');
    assert(signed.skip(1) =~= s);
}

} // verus!
