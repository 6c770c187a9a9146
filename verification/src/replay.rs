//! What a log means: the state that replaying its records from first to last
//! leaves behind.
use vstd::prelude::*;
use crate::codec::{decode_record, Decoded, lemma_record_local};
use crate::command::{CommandPos, Record};

verus! {

/// The state that a log determines: the live keys with their values, the span
/// of the newest record of each live key, and the number of bytes that records
/// occupy which are no longer the newest for their key.
pub struct LogState {
    pub contents: Map<Seq<char>, Seq<char>>,
    pub spans: Map<Seq<char>, CommandPos>,
    pub stale: u64,
}

/// How the scan of a segment ends.
#[derive(Debug, Clone, Copy, PartialEq, Eq, Structural)]
pub enum ScanEnd {
    /// Every byte belongs to a whole record.
    Clean,
    /// The last record is cut short.
    Torn,
    /// Some bytes cannot begin a record.
    Corrupt,
}

/// A log: its segments in ascending order, each with its id and its bytes.
pub type Log = Seq<(u64, Seq<u8>)>;

/// Addition that stops at the largest value.
pub open spec fn sat_add(a: u64, b: u64) -> u64 {
    if a + b > u64::MAX {
        u64::MAX
    } else {
        (a + b) as u64
    }
}

/// The state of an empty log.
pub open spec fn initial() -> LogState {
    LogState { contents: Map::empty(), spans: Map::empty(), stale: 0 }
}

/// The length of the record that `key` is bound to, or zero.
pub open spec fn prior_len(s: LogState, key: Seq<char>) -> u64 {
    if s.spans.dom().contains(key) {
        s.spans[key].len
    } else {
        0
    }
}

/// The state after one more record, which lies at `pos`.
///
/// A `Put` supersedes the record that the key was bound to. A `Remove`
/// supersedes it too and is itself never live.
pub open spec fn step(s: LogState, r: Record, pos: CommandPos) -> LogState {
    match r {
        Record::Put { key, value } => LogState {
            contents: s.contents.insert(key, value),
            spans: s.spans.insert(key, pos),
            stale: sat_add(s.stale, prior_len(s, key)),
        },
        Record::Remove { key } => LogState {
            contents: s.contents.remove(key),
            spans: s.spans.remove(key),
            stale: sat_add(sat_add(s.stale, prior_len(s, key)), pos.len),
        },
    }
}

/// The span of `len` bytes at offset `at` of segment `id`.
pub open spec fn span(id: u64, at: int, len: int) -> CommandPos {
    CommandPos { filename: id, pos: at as u64, len: len as u64 }
}

/// Replays the records of one segment from offset `at` on, up to the first
/// place where no whole record stands.
pub open spec fn replay_from(id: u64, data: Seq<u8>, at: int, s: LogState) -> LogState
    decreases data.len() - at,
{
    if 0 <= at < data.len() {
        match decode_record(data.skip(at)) {
            Decoded::Complete { record, consumed } => if consumed > 0 {
                replay_from(id, data, at + consumed, step(s, record, span(id, at, consumed as int)))
            } else {
                s
            },
            _ => s,
        }
    } else {
        s
    }
}

/// How the scan of a segment from offset `at` on ends.
pub open spec fn scan_end(data: Seq<u8>, at: int) -> ScanEnd
    decreases data.len() - at,
{
    if 0 <= at < data.len() {
        match decode_record(data.skip(at)) {
            Decoded::Complete { record, consumed } => if consumed > 0 {
                scan_end(data, at + consumed)
            } else {
                ScanEnd::Corrupt
            },
            Decoded::Truncated => ScanEnd::Torn,
            Decoded::Corrupt => ScanEnd::Corrupt,
        }
    } else {
        ScanEnd::Clean
    }
}

/// The offset at which the scan of a segment from offset `at` on stops: the
/// end of the last whole record.
pub open spec fn valid_end(data: Seq<u8>, at: int) -> int
    decreases data.len() - at,
{
    if 0 <= at < data.len() {
        match decode_record(data.skip(at)) {
            Decoded::Complete { record, consumed } => if consumed > 0 {
                valid_end(data, at + consumed)
            } else {
                at
            },
            _ => at,
        }
    } else {
        at
    }
}

/// Replays the first `upto` segments of a log, in order.
pub open spec fn replay_log(log: Log, upto: int) -> LogState
    decreases upto,
{
    if upto <= 0 {
        initial()
    } else {
        replay_from(log[upto - 1].0, log[upto - 1].1, 0, replay_log(log, upto - 1))
    }
}

/// The state of a whole log.
pub open spec fn recover(log: Log) -> LogState {
    replay_log(log, log.len() as int)
}

/// Whether the bytes at `pos` of `data` are exactly the record `r`.
pub open spec fn holds_at(data: Seq<u8>, pos: CommandPos, r: Record) -> bool {
    pos.end() <= data.len() && decode_record(data.subrange(pos.pos as int, pos.end()))
        == (Decoded::Complete { record: r, consumed: pos.len as nat })
}

/// Whether the log holds the record `r` at `pos`.
pub open spec fn span_holds(log: Log, pos: CommandPos, r: Record) -> bool {
    exists|j: int| 0 <= j < log.len() && #[trigger] log[j].0 == pos.filename && holds_at(log[j].1, pos, r)
}

/// Whether a state fits a log: the live keys are the keys that have a span,
/// and each span holds the `Put` record of its key with the key's value.
pub open spec fn coherent(log: Log, s: LogState) -> bool {
    &&& s.contents.dom() =~= s.spans.dom()
    &&& forall|k: Seq<char>| #[trigger]
        s.spans.dom().contains(k) ==> span_holds(
            log,
            s.spans[k],
            Record::Put { key: k, value: s.contents[k] },
        )
}

/// Ids ascend strictly along the log.
pub open spec fn ascending(log: Log) -> bool {
    forall|i: int, j: int| 0 <= i < j < log.len() ==> log[i].0 < log[j].0
}

/// Every segment of the log ends cleanly.
pub open spec fn all_clean(log: Log) -> bool {
    forall|i: int| 0 <= i < log.len() ==> scan_end(#[trigger] log[i].1, 0) == ScanEnd::Clean
}

/// The bytes of a whole record at `at` hold that record.
pub proof fn lemma_holds_at(data: Seq<u8>, at: int)
    requires
        0 <= at < data.len(),
        data.len() <= u64::MAX,
        decode_record(data.skip(at)) is Complete,
    ensures
        holds_at(
            data,
            span(0, at, decode_record(data.skip(at))->Complete_consumed as int),
            decode_record(data.skip(at))->Complete_record,
        ),
{
    let n = decode_record(data.skip(at))->Complete_consumed as int;
    let part = data.subrange(at, at + n);
    assert(part.take(n) =~= data.skip(at).take(n));
    lemma_record_local(data.skip(at), part);
}

/// More bytes behind a span leave it as it is.
pub proof fn lemma_holds_at_extend(data: Seq<u8>, more: Seq<u8>, pos: CommandPos, r: Record)
    requires
        holds_at(data, pos, r),
    ensures
        holds_at(data + more, pos, r),
{
    assert((data + more).subrange(pos.pos as int, pos.end()) =~= data.subrange(
        pos.pos as int,
        pos.end(),
    ));
}

/// Appending the bytes of one record to a segment that ends cleanly replays
/// as one more step, and the segment still ends cleanly.
pub proof fn lemma_append(id: u64, data: Seq<u8>, at: int, enc: Seq<u8>, r: Record, s: LogState)
    requires
        0 <= at <= data.len(),
        scan_end(data, at) == ScanEnd::Clean,
        enc.len() > 0,
        decode_record(enc) == (Decoded::Complete { record: r, consumed: enc.len() }),
    ensures
        scan_end(data + enc, at) == ScanEnd::Clean,
        replay_from(id, data + enc, at, s) == step(
            replay_from(id, data, at, s),
            r,
            span(id, data.len() as int, enc.len() as int),
        ),
    decreases data.len() - at,
{
    let whole = data + enc;
    if at == data.len() {
        assert(whole.skip(at) =~= enc);
        let then = step(s, r, span(id, at, enc.len() as int));
        assert(replay_from(id, whole, at + enc.len(), then) == then);
        assert(scan_end(whole, at + enc.len()) == ScanEnd::Clean);
    } else {
        let n = decode_record(data.skip(at))->Complete_consumed as int;
        assert(whole.skip(at).take(n) =~= data.skip(at).take(n));
        lemma_record_local(data.skip(at), whole.skip(at));
        let rec = decode_record(data.skip(at))->Complete_record;
        lemma_append(id, data, at + n, enc, r, step(s, rec, span(id, at, n)));
    }
}

/// Behind a segment that ends cleanly, the front part of a record that is
/// cut short changes nothing of what the segment replays to: the scan stops
/// where the clean segment ended.
pub proof fn lemma_append_torn(id: u64, data: Seq<u8>, at: int, part: Seq<u8>, s: LogState)
    requires
        0 <= at <= data.len(),
        scan_end(data, at) == ScanEnd::Clean,
        part.len() > 0,
        decode_record(part) == Decoded::Truncated,
    ensures
        scan_end(data + part, at) == ScanEnd::Torn,
        valid_end(data + part, at) == data.len(),
        replay_from(id, data + part, at, s) == replay_from(id, data, at, s),
    decreases data.len() - at,
{
    let whole = data + part;
    if at == data.len() {
        assert(whole.skip(at) =~= part);
    } else {
        let n = decode_record(data.skip(at))->Complete_consumed as int;
        assert(whole.skip(at).take(n) =~= data.skip(at).take(n));
        lemma_record_local(data.skip(at), whole.skip(at));
        let rec = decode_record(data.skip(at))->Complete_record;
        lemma_append_torn(id, data, at + n, part, step(s, rec, span(id, at, n)));
    }
}

/// The log with `enc` appended to its last segment.
pub open spec fn appended(log: Log, enc: Seq<u8>) -> Log {
    log.update(log.len() - 1, (log.last().0, log.last().1 + enc))
}

/// Appending the bytes of one record to the last segment of a log that is
/// clean and coherent with its state gives a log that is clean and coherent
/// with its state, which is one step further.
pub proof fn lemma_log_append(log: Log, enc: Seq<u8>, r: Record)
    requires
        log.len() > 0,
        all_clean(log),
        coherent(log, recover(log)),
        enc.len() > 0,
        decode_record(enc) == (Decoded::Complete { record: r, consumed: enc.len() }),
        log.last().1.len() + enc.len() <= u64::MAX,
    ensures
        all_clean(appended(log, enc)),
        recover(appended(log, enc)) == step(
            recover(log),
            r,
            span(log.last().0, log.last().1.len() as int, enc.len() as int),
        ),
        coherent(appended(log, enc), recover(appended(log, enc))),
        ascending(log) ==> ascending(appended(log, enc)),
{
    let n = log.len() as int;
    let id = log.last().0;
    let data = log.last().1;
    let after = appended(log, enc);
    let before = recover(log);
    let pos = span(id, data.len() as int, enc.len() as int);
    lemma_replay_log_local(log, after, n - 1);
    lemma_append(id, data, 0, enc, r, replay_log(log, n - 1));
    assert forall|k: Seq<char>| #[trigger] before.spans.dom().contains(k) implies span_holds(
        after,
        before.spans[k],
        Record::Put { key: k, value: before.contents[k] },
    ) by {
        let p = before.spans[k];
        let rec = Record::Put { key: k, value: before.contents[k] };
        let j = choose|j: int| 0 <= j < log.len() && #[trigger] log[j].0 == p.filename && holds_at(log[j].1, p, rec);
        if j == n - 1 {
            lemma_holds_at_extend(data, enc, p, rec);
        }
        assert(after[j].0 == p.filename && holds_at(after[j].1, p, rec));
    }
    assert(coherent(after, before));
    assert((data + enc).subrange(pos.pos as int, pos.end()) =~= enc);
    assert(after[n - 1].0 == pos.filename && holds_at(after[n - 1].1, pos, r));
    lemma_step_coherent(after, before, r, pos);
    assert forall|i: int| 0 <= i < after.len() implies scan_end(#[trigger] after[i].1, 0) == ScanEnd::Clean by {
        if i < n - 1 {
            assert(after[i] == log[i]);
        }
    }
}

/// Cutting a segment at the end of its last whole record changes nothing of
/// what it replays to, and leaves a segment that ends cleanly.
pub proof fn lemma_valid_prefix(id: u64, data: Seq<u8>, at: int, s: LogState)
    requires
        0 <= at <= data.len(),
    ensures
        at <= valid_end(data, at) <= data.len(),
        scan_end(data.take(valid_end(data, at)), at) == ScanEnd::Clean,
        replay_from(id, data.take(valid_end(data, at)), at, s) == replay_from(id, data, at, s),
        scan_end(data, at) == ScanEnd::Clean ==> valid_end(data, at) == data.len(),
    decreases data.len() - at,
{
    if at < data.len() {
        match decode_record(data.skip(at)) {
            Decoded::Complete { record, consumed } => {
                let n = consumed as int;
                let next = step(s, record, span(id, at, n));
                lemma_valid_prefix(id, data, at + n, next);
                let end = valid_end(data, at);
                let cut = data.take(end);
                assert(cut.skip(at).take(n) =~= data.skip(at).take(n));
                lemma_record_local(data.skip(at), cut.skip(at));
            },
            _ => {},
        }
    }
}

/// The state after the first `upto` segments depends on those segments alone.
pub proof fn lemma_replay_log_local(a: Log, b: Log, upto: int)
    requires
        0 <= upto <= a.len(),
        upto <= b.len(),
        forall|i: int| 0 <= i < upto ==> a[i] == b[i],
    ensures
        replay_log(a, upto) == replay_log(b, upto),
    decreases upto,
{
    if upto > 0 {
        lemma_replay_log_local(a, b, upto - 1);
    }
}

/// A step keeps a state coherent with the log, when the new record lies at
/// its span.
pub proof fn lemma_step_coherent(log: Log, s: LogState, r: Record, pos: CommandPos)
    requires
        coherent(log, s),
        span_holds(log, pos, r),
    ensures
        coherent(log, step(s, r, pos)),
{
    let t = step(s, r, pos);
    match r {
        Record::Put { key, value } => {
            assert forall|k: Seq<char>| #[trigger] t.spans.dom().contains(k) implies span_holds(
                log,
                t.spans[k],
                Record::Put { key: k, value: t.contents[k] },
            ) by {
                if k != key {
                    assert(s.spans.dom().contains(k));
                }
            }
        },
        Record::Remove { key } => {
            assert forall|k: Seq<char>| #[trigger] t.spans.dom().contains(k) implies span_holds(
                log,
                t.spans[k],
                Record::Put { key: k, value: t.contents[k] },
            ) by {
                assert(s.spans.dom().contains(k));
            }
        },
    }
}

} // verus!
