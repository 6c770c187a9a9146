//! The store: lookups, upserts and deletions over the log and its index,
//! recovery of both from the segments, and compaction.
use vstd::prelude::*;
use vstd::slice::slice_subrange;
use crate::codec::{
    decode_record, decode_step, encode, encode_record, lemma_record_cut, lemma_record_exact,
    lemma_record_round_trip, record_fits, Decoded, Step,
};
use crate::command::{Command, CommandPos, Record};
use crate::error::KvsError;
use crate::index::{key_less, keys_ascend, lemma_ascending_unique, Index};
use crate::replay::{
    all_clean, appended, ascending, coherent, holds_at, initial, lemma_append_torn, lemma_holds_at,
    lemma_log_append,
    lemma_replay_log_local, lemma_step_coherent, lemma_valid_prefix, prior_len, recover, replay_from,
    replay_log, sat_add, scan_end, span, span_holds, step, valid_end, Log, LogState, ScanEnd,
};
use crate::segment::{log_of, slice_span, BufWriterWithPos, Segment};

verus! {

/// Compaction runs once this many bytes of the log are stale.
pub const COMPACTION_THRESHOLD: u64 = 1048576;

/// The id of the first segment of an empty store.
pub const FIRST_SEGMENT: u64 = 1;

/// Whether a log can be opened: no segment holds bytes that cannot begin a
/// record, and only the last segment may end in a record that is cut short.
pub open spec fn openable(log: Log) -> bool {
    forall|i: int|
        0 <= i < log.len() ==> {
            let end = scan_end(#[trigger] log[i].1, 0);
            end == ScanEnd::Clean || (end == ScanEnd::Torn && i == log.len() - 1)
        }
}

/// The log that a store works on after it was opened on `log`: the same
/// segments, the last of them cut at the end of its last whole record; or one
/// empty first segment where there was none.
pub open spec fn opened_log(log: Log) -> Log {
    if log.len() == 0 {
        seq![(FIRST_SEGMENT, Seq::<u8>::empty())]
    } else {
        log.update(
            log.len() - 1,
            (log.last().0, log.last().1.take(valid_end(log.last().1, 0))),
        )
    }
}

/// The log that compaction leaves: the live records in one segment, and an
/// empty active segment behind it.
pub open spec fn compacted_log(id: u64, merged: Seq<u8>) -> Log {
    seq![(id, merged), ((id + 1) as u64, Seq::<u8>::empty())]
}

/// Addition that stops at the largest value.
pub fn saturating_sum(a: u64, b: u64) -> (r: u64)
    ensures
        r == sat_add(a, b),
{
    if a > u64::MAX - b {
        u64::MAX
    } else {
        a + b
    }
}

/// What the bytes of a span that the index points at hold for a reader: the
/// value of a `Put` record, or the failure that they stand for.
pub open spec fn span_value(bytes: Seq<u8>) -> Result<Seq<char>, KvsError> {
    match decode_record(bytes) {
        Decoded::Complete { record: Record::Put { key, value }, consumed } => Ok(value),
        Decoded::Complete { record: Record::Remove { key }, consumed } => Err(KvsError::CorruptIndex),
        _ => Err(KvsError::CorruptRecord),
    }
}

/// Reads the value out of the bytes of a span that the index points at. A
/// span that holds a `Remove` record means that the index is corrupt, one
/// that holds no record that the log is.
pub fn value_of_span(bytes: &[u8]) -> (r: Result<String, KvsError>)
    ensures
        match r {
            Ok(v) => span_value(bytes@) == Ok::<Seq<char>, KvsError>(v@),
            Err(e) => span_value(bytes@) == Err::<Seq<char>, KvsError>(e),
        },
{
    match decode_step(bytes) {
        Step::Record { cmd: Command::Put { key: _, value }, consumed: _ } => Ok(value),
        Step::Record { cmd: Command::Remove { key: _ }, consumed: _ } => Err(KvsError::CorruptIndex),
        _ => Err(KvsError::CorruptRecord),
    }
}

/// Scans a segment record by record and reports where the last whole record
/// ends and how the scan ended.
pub fn scan_segment(data: &Vec<u8>) -> (r: (usize, ScanEnd))
    ensures
        r.0 == valid_end(data@, 0),
        r.1 == scan_end(data@, 0),
{
    let mut at: usize = 0;
    while at < data.len()
        invariant
            at <= data@.len(),
            valid_end(data@, at as int) == valid_end(data@, 0),
            scan_end(data@, at as int) == scan_end(data@, 0),
        decreases data@.len() - at,
    {
        let rest = slice_subrange(data.as_slice(), at, data.len());
        assert(rest@ =~= data@.skip(at as int));
        match decode_step(rest) {
            Step::Record { cmd, consumed } => {
                at = at + consumed;
            },
            Step::Truncated => {
                return (at, ScanEnd::Torn);
            },
            Step::Corrupt => {
                return (at, ScanEnd::Corrupt);
            },
        }
    }
    (at, ScanEnd::Clean)
}

/// Whether the ids of the segments ascend strictly.
pub fn is_ascending(segments: &Vec<Segment>) -> (r: bool)
    ensures
        r == ascending(log_of(segments@)),
{
    let mut i: usize = 1;
    while i < segments.len()
        invariant
            1 <= i,
            forall|a: int, b: int|
                0 <= a < b < i && b < segments@.len() ==> segments@[a].id < segments@[b].id,
        decreases segments@.len() - i,
    {
        if segments[i - 1].id >= segments[i].id {
            assert(log_of(segments@)[i - 1].0 >= log_of(segments@)[i as int].0);
            return false;
        }
        assert forall|a: int, b: int| 0 <= a < b < i + 1 && b < segments@.len() implies segments@[a].id
            < segments@[b].id by {
            if b == i && a < i - 1 {
                assert(segments@[a].id < segments@[i - 1].id);
            }
        }
        i += 1;
    }
    true
}

/// Replays segment `gen` of the log, which stands at place `i` in it, into
/// the index and returns the stale-byte count after it.
fn load_index(
    gen: u64,
    data: &Vec<u8>,
    index: &mut Index,
    stale: u64,
    Ghost(log): Ghost<Log>,
    Ghost(i): Ghost<int>,
) -> (r: u64)
    requires
        0 <= i < log.len(),
        log[i] == (gen, data@),
        scan_end(data@, 0) == ScanEnd::Clean,
        old(index).wf(),
        old(index)@ == replay_log(log, i).spans,
        stale == replay_log(log, i).stale,
        coherent(log, replay_log(log, i)),
    ensures
        final(index).wf(),
        final(index)@ == replay_log(log, i + 1).spans,
        r == replay_log(log, i + 1).stale,
        coherent(log, replay_log(log, i + 1)),
{
    let mut at: usize = 0;
    let mut stale = stale;
    let ghost mut s = replay_log(log, i);
    while at < data.len()
        invariant
            0 <= i < log.len(),
            log[i] == (gen, data@),
            at <= data@.len(),
            scan_end(data@, at as int) == ScanEnd::Clean,
            replay_from(gen, data@, at as int, s) == replay_log(log, i + 1),
            index.wf(),
            index@ == s.spans,
            stale == s.stale,
            coherent(log, s),
        decreases data@.len() - at,
    {
        let rest = slice_subrange(data.as_slice(), at, data.len());
        assert(rest@ =~= data@.skip(at as int));
        match decode_step(rest) {
            Step::Record { cmd, consumed } => {
                let pos = CommandPos::from_range(gen, at as u64, (at + consumed) as u64);
                proof {
                    lemma_holds_at(data@, at as int);
                    assert(pos == span(gen, at as int, consumed as int));
                    assert(log[i].0 == pos.filename && holds_at(log[i].1, pos, cmd@));
                    lemma_step_coherent(log, s, cmd@, pos);
                    s = step(s, cmd@, pos);
                }
                match cmd {
                    Command::Put { key, value } => {
                        if let Some(prior) = index.insert(key, pos) {
                            stale = saturating_sum(stale, prior.len);
                        }
                    },
                    Command::Remove { key } => {
                        if let Some(prior) = index.remove(&key) {
                            stale = saturating_sum(stale, prior.len);
                        }
                        stale = saturating_sum(stale, pos.len);
                    },
                }
                at = at + consumed;
            },
            _ => {
                assert(false);
            },
        }
    }
    stale
}

/// Opening cuts the last segment at the end of its last whole record. That
/// changes nothing of the state, keeps the ids, and leaves a last segment
/// that ends cleanly.
pub proof fn lemma_opened(given: Log)
    requires
        given.len() > 0,
    ensures
        recover(opened_log(given)) == recover(given),
        scan_end(opened_log(given).last().1, 0) == ScanEnd::Clean,
        ascending(given) ==> ascending(opened_log(given)),
        opened_log(given).len() == given.len(),
        forall|j: int| 0 <= j < given.len() - 1 ==> opened_log(given)[j] == given[j],
{
    let n = given.len() as int;
    let log = opened_log(given);
    lemma_valid_prefix(given.last().0, given.last().1, 0, replay_log(given, n - 1));
    lemma_replay_log_local(given, log, n - 1);
    if ascending(given) {
        assert forall|a: int, b: int| 0 <= a < b < log.len() implies log[a].0 < log[b].0 by {
            assert(given[a].0 < given[b].0);
        }
    }
}

/// Replays the sealed segments, which are all but the last of the log, into
/// a fresh index. There is no result if one of them does not end cleanly.
fn replay_sealed(sealed: &Vec<Segment>, Ghost(log): Ghost<Log>) -> (r: Option<(Index, u64)>)
    requires
        log.len() == sealed@.len() + 1,
        forall|j: int|
            0 <= j < sealed@.len() ==> log[j] == (#[trigger] sealed@[j].id, sealed@[j].data@),
    ensures
        match r {
            Some((index, stale)) => {
                &&& index.wf()
                &&& index@ == replay_log(log, sealed@.len() as int).spans
                &&& stale == replay_log(log, sealed@.len() as int).stale
                &&& coherent(log, replay_log(log, sealed@.len() as int))
                &&& forall|j: int|
                    0 <= j < sealed@.len() ==> scan_end(#[trigger] log[j].1, 0) == ScanEnd::Clean
            },
            None => exists|j: int|
                0 <= j < sealed@.len() && scan_end(#[trigger] log[j].1, 0) != ScanEnd::Clean,
        },
{
    let mut index = Index::new();
    let mut stale: u64 = 0;
    let mut i: usize = 0;
    proof {
        assert(initial().contents.dom() =~= initial().spans.dom());
    }
    while i < sealed.len()
        invariant
            log.len() == sealed@.len() + 1,
            i <= sealed@.len(),
            forall|j: int|
                0 <= j < sealed@.len() ==> log[j] == (#[trigger] sealed@[j].id, sealed@[j].data@),
            forall|j: int| 0 <= j < i ==> scan_end(#[trigger] log[j].1, 0) == ScanEnd::Clean,
            index.wf(),
            index@ == replay_log(log, i as int).spans,
            stale == replay_log(log, i as int).stale,
            coherent(log, replay_log(log, i as int)),
        decreases sealed@.len() - i,
    {
        assert(log[i as int] == (sealed@[i as int].id, sealed@[i as int].data@));
        let (_, end) = scan_segment(&sealed[i].data);
        if end != ScanEnd::Clean {
            assert(scan_end(log[i as int].1, 0) != ScanEnd::Clean);
            return None;
        }
        stale = load_index(sealed[i].id, &sealed[i].data, &mut index, stale, Ghost(log), Ghost(i as int));
        i += 1;
    }
    Some((index, stale))
}

/// A write that was cut short at the end of the last segment does no harm.
/// The log can be opened, opening cuts the partial record off, so that the
/// next record is appended right behind the last whole one, and the state is
/// that of the log without the partial record.
pub proof fn law_torn_tail(log: Log, r: Record, cut: int)
    requires
        log.len() > 0,
        all_clean(log),
        record_fits(r),
        0 < cut < encode_record(r).len(),
    ensures
        openable(appended(log, encode_record(r).take(cut))),
        opened_log(appended(log, encode_record(r).take(cut))) == log,
        recover(appended(log, encode_record(r).take(cut))) == recover(log),
{
    let n = log.len() as int;
    let id = log.last().0;
    let data = log.last().1;
    let part = encode_record(r).take(cut);
    let torn = appended(log, part);
    lemma_record_cut(r, cut);
    lemma_replay_log_local(log, torn, n - 1);
    lemma_append_torn(id, data, 0, part, replay_log(log, n - 1));
    assert((data + part).take(data.len() as int) =~= data);
    assert(opened_log(torn) =~= log);
    assert forall|i: int| 0 <= i < torn.len() implies ({
        let end = scan_end(#[trigger] torn[i].1, 0);
        end == ScanEnd::Clean || (end == ScanEnd::Torn && i == torn.len() - 1)
    }) by {
        if i < n - 1 {
            assert(torn[i] == log[i]);
        }
    }
}

/// A log of one segment.
pub open spec fn single(id: u64, data: Seq<u8>) -> Log {
    seq![(id, data)]
}

/// Whether compaction is due: the stale bytes have reached the threshold, and
/// the two segment ids that it takes can be had.
pub open spec fn compaction_due(stale: u64, active: u64) -> bool {
    stale >= COMPACTION_THRESHOLD && active <= u64::MAX - 2
}

/// The `Put` records of the given keys with their values, one behind the
/// other.
pub open spec fn live_records(contents: Map<Seq<char>, Seq<char>>, keys: Seq<Seq<char>>) -> Seq<u8>
    decreases keys.len(),
{
    if keys.len() == 0 {
        Seq::empty()
    } else {
        live_records(contents, keys.drop_last()) + encode_record(
            Record::Put { key: keys.last(), value: contents[keys.last()] },
        )
    }
}

/// How a write ends, once the record is in the log `written` and the stale
/// bytes are counted as `stale`: if compaction is due, `post` is compacted
/// and its counter is zero, else it has that log and that counter.
pub open spec fn after_write(written: Log, stale: u64, post: KvStore) -> bool {
    if written.len() > 0 && compaction_due(stale, written.last().0) {
        post.compacted_from(written.last().0) && post.stale_bytes() == 0
    } else {
        post.log() == written && post.stale_bytes() == stale
    }
}

/// The merged segment with an empty segment behind it has the state of the
/// merged segment alone.
pub proof fn lemma_compacted(id: u64, merged: Seq<u8>)
    requires
        id < u64::MAX,
        all_clean(single(id, merged)),
        coherent(single(id, merged), recover(single(id, merged))),
    ensures
        all_clean(compacted_log(id, merged)),
        ascending(compacted_log(id, merged)),
        recover(compacted_log(id, merged)) == recover(single(id, merged)),
        coherent(compacted_log(id, merged), recover(compacted_log(id, merged))),
{
    let one = single(id, merged);
    let two = compacted_log(id, merged);
    let s = recover(one);
    lemma_replay_log_local(one, two, 1);
    assert(replay_log(two, 2) == replay_from(two[1].0, two[1].1, 0, replay_log(two, 1)));
    assert(recover(two) == s);
    assert forall|k: Seq<char>| #[trigger] s.spans.dom().contains(k) implies span_holds(
        two,
        s.spans[k],
        Record::Put { key: k, value: s.contents[k] },
    ) by {
        let p = s.spans[k];
        let rec = Record::Put { key: k, value: s.contents[k] };
        let j = choose|j: int| 0 <= j < one.len() && #[trigger] one[j].0 == p.filename && holds_at(one[j].1, p, rec);
        assert(two[0].0 == p.filename && holds_at(two[0].1, p, rec));
    }
    assert forall|i: int| 0 <= i < two.len() implies scan_end(#[trigger] two[i].1, 0) == ScanEnd::Clean by {
        if i == 0 {
            assert(one[0].1 == two[0].1);
        }
    }
}

/// Whether `post` is the store that binding `key` to `value` makes of `pre`.
///
/// The contents gain the binding. The `Put` record is appended to the active
/// segment, and the record that it supersedes is counted as stale; then the
/// log is compacted if that is due.
pub open spec fn did_set(pre: KvStore, key: Seq<char>, value: Seq<char>, post: KvStore) -> bool {
    let rec = Record::Put { key, value };
    let stale = sat_add(pre.stale_bytes(), prior_len(pre.state(), key));
    &&& post.wf()
    &&& post@ == pre@.insert(key, value)
    &&& after_write(appended(pre.log(), encode_record(rec)), stale, post)
}

/// Whether `post` is the store that deleting `key` makes of `pre`.
///
/// The contents lose the key. The `Remove` record is appended to the active
/// segment, and both the record that it supersedes and the `Remove` record
/// itself are counted as stale; then the log is compacted if that is due.
pub open spec fn did_remove(pre: KvStore, key: Seq<char>, post: KvStore) -> bool {
    let rec = Record::Remove { key };
    let stale = sat_add(
        sat_add(pre.stale_bytes(), prior_len(pre.state(), key)),
        encode_record(rec).len() as u64,
    );
    &&& post.wf()
    &&& post@ == pre@.remove(key)
    &&& after_write(appended(pre.log(), encode_record(rec)), stale, post)
}

/// A log-structured store of string keys and values.
pub struct KvStore {
    sealed: Vec<Segment>,
    writer: BufWriterWithPos,
    index: Index,
    current_filename: u64,
    uncompacted: u64,
}

impl KvStore {
    /// The segments of the store in order, the active one last.
    pub closed spec fn log(&self) -> Log {
        log_of(self.sealed@).push((self.current_filename, self.writer@))
    }

    /// The state that the log of the store determines.
    pub open spec fn state(&self) -> LogState {
        recover(self.log())
    }

    /// The contents of the store: the live keys with their values.
    pub open spec fn view(&self) -> Map<Seq<char>, Seq<char>> {
        self.state().contents
    }

    /// The live keys in their order.
    pub closed spec fn keys(&self) -> Seq<Seq<char>> {
        self.index.keys()
    }

    /// Whether the store is as compaction leaves it when the active segment
    /// was `active` before: one merged segment with the next id, which holds
    /// the `Put` record of every live key in the order of the keys and
    /// nothing else, and behind it an empty active segment with the id after
    /// that.
    pub open spec fn compacted_from(&self, active: u64) -> bool {
        self.log() == compacted_log((active + 1) as u64, live_records(self@, self.keys()))
    }

    /// What a lookup of `key` finds.
    pub open spec fn lookup(&self, key: Seq<char>) -> Option<Seq<char>> {
        if self@.dom().contains(key) {
            Some(self@[key])
        } else {
            None
        }
    }

    /// The number of stale bytes that the store has counted.
    pub closed spec fn stale_bytes(&self) -> u64 {
        self.uncompacted
    }

    /// The id of the active segment.
    pub open spec fn active_id(&self) -> u64 {
        self.log().last().0
    }

    /// The index and the counter are those that the log determines, every
    /// index entry lies on the `Put` record of its key, ids ascend and every
    /// segment ends cleanly.
    pub closed spec fn wf(&self) -> bool {
        &&& self.writer.wf()
        &&& self.index.wf()
        &&& ascending(self.log())
        &&& all_clean(self.log())
        &&& coherent(self.log(), recover(self.log()))
        &&& self.index@ == recover(self.log()).spans
        &&& self.uncompacted == recover(self.log()).stale
    }

    /// An empty store: one empty first segment and no keys.
    pub fn new() -> (store: KvStore)
        ensures
            store.wf(),
            store.state() == initial(),
            store.log() == opened_log(Seq::empty()),
            store.stale_bytes() == 0,
    {
        let store = KvStore {
            sealed: Vec::new(),
            writer: BufWriterWithPos::new(Vec::new()),
            index: Index::new(),
            current_filename: FIRST_SEGMENT,
            uncompacted: 0,
        };
        proof {
            let l = store.log();
            assert(l =~= opened_log(Seq::empty()));
            assert(replay_log(l, 0) == initial());
            assert(replay_log(l, 1) == replay_from(l[0].0, l[0].1, 0, replay_log(l, 0)));
            assert(recover(l) == initial());
            assert(store.index@ =~= recover(l).spans);
            assert(initial().contents.dom() =~= initial().spans.dom());
        }
        store
    }

    /// Rebuilds a store from the segments of its log, given in ascending
    /// order of their ids.
    ///
    /// A record that is cut short at the end of the last segment is taken for
    /// a write that never completed: the segment is cut there. Anything else
    /// that is not a record is refused.
    pub fn open(segments: Vec<Segment>) -> (r: Result<KvStore, KvsError>)
        requires
            ascending(log_of(segments@)),
        ensures
            match r {
                Ok(store) => {
                    &&& openable(log_of(segments@))
                    &&& store.wf()
                    &&& store.log() == opened_log(log_of(segments@))
                    &&& store.state() == recover(log_of(segments@))
                    &&& store.stale_bytes() == recover(log_of(segments@)).stale
                },
                Err(e) => e == KvsError::CorruptRecord && !openable(log_of(segments@)),
            },
    {
        let ghost given = log_of(segments@);
        let mut segments = segments;
        let n = segments.len();
        if n == 0 {
            let store = KvStore::new();
            proof {
                assert(given =~= Seq::<(u64, Seq<u8>)>::empty());
                assert(recover(given) == initial());
            }
            return Ok(store);
        }
        let last = segments.pop().unwrap();
        let active_id = last.id;
        let mut tail = last.data;
        let ghost whole = tail@;
        assert(given[n - 1] == (active_id, whole));
        let (valid, end) = scan_segment(&tail);
        if end == ScanEnd::Corrupt {
            assert(scan_end(given[n - 1].1, 0) == ScanEnd::Corrupt);
            return Err(KvsError::CorruptRecord);
        }
        proof {
            lemma_valid_prefix(active_id, whole, 0, replay_log(given, n - 1));
        }
        tail.truncate(valid);
        let ghost log = opened_log(given);
        proof {
            assert(tail@ =~= whole.take(valid as int));
            lemma_opened(given);
            assert forall|j: int| 0 <= j < n - 1 implies log[j] == (
                #[trigger] segments@[j].id,
                segments@[j].data@,
            ) by {
                assert(given[j] == log[j]);
            }
        }
        match replay_sealed(&segments, Ghost(log)) {
            None => {
                proof {
                    let j = choose|j: int|
                        0 <= j < segments@.len() && scan_end(#[trigger] log[j].1, 0) != ScanEnd::Clean;
                    assert(given[j] == log[j]);
                    assert(scan_end(given[j].1, 0) != ScanEnd::Clean);
                }
                Err(KvsError::CorruptRecord)
            },
            Some((sealed_index, sealed_stale)) => {
                let mut index = sealed_index;
                let stale = load_index(
                    active_id,
                    &tail,
                    &mut index,
                    sealed_stale,
                    Ghost(log),
                    Ghost(n - 1),
                );
                let store = KvStore {
                    sealed: segments,
                    writer: BufWriterWithPos::new(tail),
                    index,
                    current_filename: active_id,
                    uncompacted: stale,
                };
                proof {
                    assert(store.log() =~= log);
                    assert forall|j: int| 0 <= j < given.len() implies ({
                        let e = scan_end(#[trigger] given[j].1, 0);
                        e == ScanEnd::Clean || (e == ScanEnd::Torn && j == given.len() - 1)
                    }) by {
                        if j < n - 1 {
                            assert(given[j] == log[j]);
                            assert(scan_end(log[j].1, 0) == ScanEnd::Clean);
                        }
                    }
                    assert forall|j: int| 0 <= j < log.len() implies scan_end(
                        #[trigger] log[j].1,
                        0,
                    ) == ScanEnd::Clean by {}
                }
                Ok(store)
            },
        }
    }

    /// The bytes of the span of `length` bytes at `offset` of segment `id`.
    pub fn read_span(&self, id: u64, offset: u64, length: u64) -> (r: Result<Vec<u8>, KvsError>)
        requires
            self.wf(),
        ensures
            match r {
                Ok(b) => exists|j: int|
                    0 <= j < self.log().len() && #[trigger] self.log()[j].0 == id && offset + length
                        <= self.log()[j].1.len() && b@ == self.log()[j].1.subrange(
                        offset as int,
                        offset + length,
                    ),
                Err(e) => if e == KvsError::SegmentNotFound {
                    forall|j: int| 0 <= j < self.log().len() ==> #[trigger] self.log()[j].0 != id
                } else {
                    e == KvsError::Io && exists|j: int|
                        0 <= j < self.log().len() && #[trigger] self.log()[j].0 == id && offset
                            + length > self.log()[j].1.len()
                },
            },
    {
        let ghost log = self.log();
        let ghost n = self.sealed@.len() as int;
        if id == self.current_filename {
            assert(log[n].0 == id);
            return match slice_span(self.writer.bytes(), offset, length) {
                Some(b) => Ok(b),
                None => Err(KvsError::Io),
            };
        }
        let mut i: usize = 0;
        while i < self.sealed.len()
            invariant
                i <= self.sealed@.len(),
                log == self.log(),
                n == self.sealed@.len(),
                id != self.current_filename,
                forall|j: int| 0 <= j < i ==> #[trigger] log[j].0 != id,
            decreases self.sealed@.len() - i,
        {
            if self.sealed[i].id == id {
                assert(log[i as int].0 == id);
                return match slice_span(&self.sealed[i].data, offset, length) {
                    Some(b) => Ok(b),
                    None => Err(KvsError::Io),
                };
            }
            assert(log[i as int].0 != id);
            i += 1;
        }
        Err(KvsError::SegmentNotFound)
    }

    /// Reads the record that the index binds `key` to.
    fn read_live(&self, key: &String, pos: CommandPos) -> (bytes: Vec<u8>)
        requires
            self.wf(),
            self@.dom().contains(key@),
            self.state().spans[key@] == pos,
        ensures
            bytes@.len() == pos.len,
            decode_record(bytes@) == (Decoded::Complete {
                record: Record::Put { key: key@, value: self@[key@] },
                consumed: bytes@.len(),
            }),
    {
        let ghost log = self.log();
        let ghost rec = Record::Put { key: key@, value: self@[key@] };
        assert(recover(log).spans.dom().contains(key@));
        assert(span_holds(log, pos, rec));
        let ghost w = choose|j: int|
            0 <= j < log.len() && #[trigger] log[j].0 == pos.filename && holds_at(log[j].1, pos, rec);
        match self.read_span(pos.filename, pos.pos, pos.len) {
            Ok(bytes) => {
                let ghost f = choose|j: int|
                    0 <= j < log.len() && #[trigger] log[j].0 == pos.filename && pos.pos + pos.len
                        <= log[j].1.len() && bytes@ == log[j].1.subrange(
                        pos.pos as int,
                        pos.pos + pos.len,
                    );
                assert(f == w) by {
                    if f < w {
                        assert(log[f].0 < log[w].0);
                    }
                    if w < f {
                        assert(log[w].0 < log[f].0);
                    }
                }
                bytes
            },
            Err(e) => {
                assert(log[w].0 == pos.filename);
                assert(false);
                Vec::new()
            },
        }
    }

    /// The value of `key`, if the store holds one.
    pub fn get(&self, key: String) -> (r: Result<Option<String>, KvsError>)
        requires
            self.wf(),
        ensures
            match r {
                Ok(Some(v)) => self.lookup(key@) == Some(v@),
                Ok(None) => self.lookup(key@) == None::<Seq<char>>,
                Err(_) => false,
            },
    {
        match self.index.get(&key) {
            None => Ok(None),
            Some(pos) => {
                let bytes = self.read_live(&key, pos);
                match value_of_span(bytes.as_slice()) {
                    Ok(value) => Ok(Some(value)),
                    Err(e) => Err(e),
                }
            },
        }
    }

    /// Whether the store holds `key`.
    pub fn contains_key(&self, key: &String) -> (r: bool)
        requires
            self.wf(),
        ensures
            r == self@.dom().contains(key@),
    {
        self.index.get(key).is_some()
    }

    /// The number of stale bytes counted so far.
    pub fn uncompacted(&self) -> (n: u64)
        ensures
            n == self.stale_bytes(),
    {
        self.uncompacted
    }

    /// The id of the active segment.
    pub fn current_filename(&self) -> (id: u64)
        ensures
            id == self.active_id(),
    {
        self.current_filename
    }

    /// The number of bytes in the active segment: the offset at which the
    /// next record will begin.
    pub fn active_len(&self) -> (n: u64)
        requires
            self.wf(),
        ensures
            n == self.log().last().1.len(),
    {
        self.writer.pos()
    }

    /// A copy of the segments of the store in order, the active one last.
    pub fn segments(&self) -> (r: Vec<Segment>)
        ensures
            log_of(r@) == self.log(),
    {
        let mut out: Vec<Segment> = Vec::new();
        let mut i: usize = 0;
        while i < self.sealed.len()
            invariant
                i <= self.sealed@.len(),
                out@.len() == i,
                forall|j: int|
                    0 <= j < i ==> out@[j].id == self.sealed@[j].id && out@[j].data@
                        == self.sealed@[j].data@,
            decreases self.sealed@.len() - i,
        {
            let data = self.sealed[i].data.clone();
            out.push(Segment { id: self.sealed[i].id, data });
            i += 1;
        }
        out.push(Segment { id: self.current_filename, data: self.writer.bytes().clone() });
        assert(log_of(out@) =~= self.log());
        out
    }

    /// Binds `key` to `value`: appends a `Put` record to the active segment,
    /// points the index at it, counts the record that it supersedes as stale,
    /// and compacts the log if that is due.
    pub fn set(&mut self, key: String, value: String) -> (r: Result<(), KvsError>)
        requires
            old(self).wf(),
        ensures
            r is Ok,
            did_set(*old(self), key@, value@, *final(self)),
    {
        let ghost before = *self;
        let cmd = Command::set(key, value);
        let bytes = encode(&cmd);
        let start = self.writer.write(bytes.as_slice());
        let pos = CommandPos::from_range(self.current_filename, start, self.writer.pos());
        proof {
            lemma_record_round_trip(cmd@, Seq::<u8>::empty());
            assert(bytes@ + Seq::<u8>::empty() =~= bytes@);
            assert(self.log() =~= appended(before.log(), bytes@));
            lemma_log_append(before.log(), bytes@, cmd@);
            assert(pos == span(before.current_filename, before.writer@.len() as int, bytes@.len() as int));
        }
        match cmd {
            Command::Put { key, value: _ } => {
                if let Some(prior) = self.index.insert(key, pos) {
                    self.uncompacted = saturating_sum(self.uncompacted, prior.len);
                }
            },
            Command::Remove { key: _ } => {},
        }
        self.maybe_compact();
        Ok(())
    }

    /// Deletes `key`: appends a `Remove` record to the active segment, drops
    /// the key from the index, counts both the record that it supersedes and
    /// the `Remove` record itself as stale, and compacts the log if that is
    /// due. A key that the store does not hold is refused, and nothing is
    /// written.
    pub fn remove(&mut self, key: String) -> (r: Result<(), KvsError>)
        requires
            old(self).wf(),
        ensures
            final(self).wf(),
            match r {
                Ok(_) => old(self)@.dom().contains(key@) && did_remove(
                    *old(self),
                    key@,
                    *final(self),
                ),
                Err(e) => e == KvsError::KeyNotFound && !old(self)@.dom().contains(key@)
                    && *final(self) == *old(self),
            },
    {
        let ghost before = *self;
        if self.index.get(&key).is_none() {
            return Err(KvsError::KeyNotFound);
        }
        let cmd = Command::remove(key);
        let bytes = encode(&cmd);
        let start = self.writer.write(bytes.as_slice());
        let pos = CommandPos::from_range(self.current_filename, start, self.writer.pos());
        proof {
            lemma_record_round_trip(cmd@, Seq::<u8>::empty());
            assert(bytes@ + Seq::<u8>::empty() =~= bytes@);
            assert(self.log() =~= appended(before.log(), bytes@));
            lemma_log_append(before.log(), bytes@, cmd@);
            assert(pos == span(before.current_filename, before.writer@.len() as int, bytes@.len() as int));
        }
        match cmd {
            Command::Remove { key } => {
                if let Some(prior) = self.index.remove(&key) {
                    self.uncompacted = saturating_sum(self.uncompacted, prior.len);
                }
                self.uncompacted = saturating_sum(self.uncompacted, pos.len);
            },
            Command::Put { key: _, value: _ } => {},
        }
        self.maybe_compact();
        Ok(())
    }

    /// Compacts the log if the stale bytes have reached the threshold and two
    /// more segment ids can be had.
    fn maybe_compact(&mut self)
        requires
            old(self).wf(),
        ensures
            final(self).wf(),
            final(self)@ == old(self)@,
            after_write(old(self).log(), old(self).stale_bytes(), *final(self)),
    {
        if self.uncompacted >= COMPACTION_THRESHOLD && self.current_filename <= u64::MAX - 2 {
            self.compact();
        }
    }

    /// Rewrites the log: every live record is copied into one fresh segment,
    /// whose id is one above the active segment's, the index is pointed at the
    /// copies, every older segment is dropped, the stale-byte counter starts
    /// again at zero, and an empty segment with the next id becomes active.
    pub fn compact(&mut self)
        requires
            old(self).wf(),
            old(self).active_id() <= u64::MAX - 2,
        ensures
            final(self).wf(),
            final(self)@ == old(self)@,
            final(self).keys() == old(self).keys(),
            final(self).stale_bytes() == 0,
            final(self).compacted_from(old(self).active_id()),
    {
        let new_id = self.current_filename + 1;
        let mut out = BufWriterWithPos::new(Vec::new());
        let mut fresh = Index::new();
        let ghost before = *self;
        let n = self.index.len();
        let mut i: usize = 0;
        proof {
            let l = single(new_id, out@);
            assert(before.keys().take(0) =~= Seq::<Seq<char>>::empty());
            assert(replay_log(l, 0) == initial());
            assert(replay_log(l, 1) == replay_from(l[0].0, l[0].1, 0, replay_log(l, 0)));
            assert(recover(l) == initial());
            assert(initial().contents.dom() =~= initial().spans.dom());
            assert(fresh@ =~= initial().spans);
            self.index.lemma_entries();
        }
        while i < n
            invariant
                *self == before,
                self.wf(),
                n == self.index.spec_len(),
                i <= n,
                out.wf(),
                fresh.wf(),
                all_clean(single(new_id, out@)),
                coherent(single(new_id, out@), recover(single(new_id, out@))),
                recover(single(new_id, out@)).spans == fresh@,
                recover(single(new_id, out@)).stale == 0,
                out@ == live_records(before@, before.keys().take(i as int)),
                fresh.keys() == before.keys().take(i as int),
                forall|k: Seq<char>|
                    recover(single(new_id, out@)).contents.dom().contains(k) <==> exists|j: int|
                        0 <= j < i && #[trigger] self.index.key_of(j) == k,
                forall|k: Seq<char>| #[trigger]
                    recover(single(new_id, out@)).contents.dom().contains(k) ==> recover(
                        single(new_id, out@),
                    ).contents[k] == self@[k],
            decreases n - i,
        {
            proof {
                self.index.lemma_entries();
            }
            let key = self.index.key_at(i);
            let pos = self.index.pos_at(i);
            assert(self.index@.dom().contains(self.index.key_of(i as int)));
            let bytes = self.read_live(key, pos);
            let ghost rec = Record::Put { key: key@, value: self@[key@] };
            let ghost was = single(new_id, out@);
            let start = out.write(bytes.as_slice());
            let copy = CommandPos::from_range(new_id, start, out.pos());
            proof {
                let keys = before.keys();
                lemma_record_exact(bytes@);
                assert(bytes@.take(bytes@.len() as int) =~= bytes@);
                assert(keys.take(i + 1).drop_last() =~= keys.take(i as int));
                assert(keys.take(i + 1).last() == key@);
                assert(keys.take(i + 1) =~= keys.take(i as int).push(key@));
                assert forall|j: int| 0 <= j < fresh.keys().len() implies key_less(
                    fresh.keys()[j],
                    key@,
                ) by {
                    assert(key_less(self.index.key_of(j), self.index.key_of(i as int)));
                }
                let now = single(new_id, out@);
                assert(now =~= appended(was, bytes@));
                lemma_log_append(was, bytes@, rec);
                assert(copy == span(new_id, was[0].1.len() as int, bytes@.len() as int));
                let s0 = recover(was);
                let s1 = recover(now);
                assert(!s0.spans.dom().contains(key@)) by {
                    if s0.contents.dom().contains(key@) {
                        let j = choose|j: int| 0 <= j < i && #[trigger] self.index.key_of(j) == key@;
                        assert(self.index.key_of(j) != self.index.key_of(i as int));
                    }
                }
                assert forall|k: Seq<char>| s1.contents.dom().contains(k) <==> exists|j: int|
                    0 <= j < i + 1 && #[trigger] self.index.key_of(j) == k by {
                    if s1.contents.dom().contains(k) {
                        if k == key@ {
                            assert(self.index.key_of(i as int) == k);
                        } else {
                            assert(s0.contents.dom().contains(k));
                            let j = choose|j: int| 0 <= j < i && #[trigger] self.index.key_of(j) == k;
                            assert(0 <= j < i + 1 && self.index.key_of(j) == k);
                        }
                    }
                    if exists|j: int| 0 <= j < i + 1 && #[trigger] self.index.key_of(j) == k {
                        let j = choose|j: int| 0 <= j < i + 1 && #[trigger] self.index.key_of(j) == k;
                        if j < i {
                            assert(s0.contents.dom().contains(k));
                        }
                    }
                }
            }
            fresh.insert(key.clone(), copy);
            i += 1;
        }
        proof {
            assert(before.keys().take(n as int) =~= before.keys());
            lemma_compacted(new_id, out@);
            let s = recover(single(new_id, out@));
            assert forall|k: Seq<char>| s.contents.dom().contains(k) == before@.dom().contains(k) by {
                if before@.dom().contains(k) {
                    assert(before.index@.dom().contains(k));
                    let j = choose|j: int| 0 <= j < n && before.index.key_of(j) == k;
                    assert(0 <= j < i && self.index.key_of(j) == k);
                }
                if s.contents.dom().contains(k) {
                    let j = choose|j: int| 0 <= j < i && #[trigger] self.index.key_of(j) == k;
                    assert(before.index@.dom().contains(before.index.key_of(j)));
                }
            }
            assert(s.contents =~= before@);
        }
        let mut sealed: Vec<Segment> = Vec::new();
        sealed.push(Segment { id: new_id, data: out.into_bytes() });
        self.sealed = sealed;
        self.writer = BufWriterWithPos::new(Vec::new());
        self.index = fresh;
        self.current_filename = new_id + 1;
        self.uncompacted = 0;
        assert(self.log() =~= compacted_log(new_id, out@));
    }

    /// What holds of every store: the ids of its segments ascend, every
    /// segment ends cleanly, the stale bytes counted are those that the log
    /// determines, and the newest record of every live key lies in the log as
    /// the `Put` record of the key with its value.
    pub proof fn lemma_invariant(&self)
        requires
            self.wf(),
        ensures
            self.log().len() > 0,
            ascending(self.log()),
            all_clean(self.log()),
            coherent(self.log(), self.state()),
            self.stale_bytes() == self.state().stale,
            keys_ascend(self.keys()),
            forall|k: Seq<char>| self.keys().contains(k) <==> self@.dom().contains(k),
    {
        self.index.lemma_entries();
        let keys = self.keys();
        assert forall|i: int, j: int| 0 <= i < j < keys.len() implies key_less(keys[i], keys[j]) by {
            assert(key_less(self.index.key_of(i), self.index.key_of(j)));
        }
        assert forall|k: Seq<char>| keys.contains(k) <==> self@.dom().contains(k) by {
            if keys.contains(k) {
                let i = choose|i: int| 0 <= i < keys.len() && keys[i] == k;
                assert(self.index@.dom().contains(self.index.key_of(i)));
            }
            if self@.dom().contains(k) {
                assert(self.index@.dom().contains(k));
                let i = choose|i: int| 0 <= i < self.index.spec_len() && self.index.key_of(i) == k;
                assert(keys[i] == k);
            }
        }
    }

    /// The contents of a store decide the order of its keys, and with it the
    /// bytes that compaction writes.
    pub proof fn law_keys_determined(&self, other: KvStore)
        requires
            self.wf(),
            other.wf(),
            self@ == other@,
        ensures
            self.keys() == other.keys(),
            live_records(self@, self.keys()) == live_records(other@, other.keys()),
    {
        self.lemma_invariant();
        other.lemma_invariant();
        lemma_ascending_unique(self.keys(), other.keys());
    }

    /// A live key has a record of at least one byte, which is what the next
    /// write to the key will count as stale.
    pub proof fn lemma_live_record_has_bytes(&self, key: Seq<char>)
        requires
            self.wf(),
            self@.dom().contains(key),
        ensures
            prior_len(self.state(), key) > 0,
    {
        let s = self.state();
        assert(s.spans.dom().contains(key));
        let p = s.spans[key];
        let rec = Record::Put { key, value: s.contents[key] };
        assert(span_holds(self.log(), p, rec));
    }

    /// A value that was set is the value that a lookup finds.
    pub proof fn law_set_then_get(pre: KvStore, key: Seq<char>, value: Seq<char>, post: KvStore)
        requires
            pre.wf(),
            did_set(pre, key, value, post),
        ensures
            post.lookup(key) == Some(value),
            forall|other: Seq<char>| other != key ==> post.lookup(other) == pre.lookup(other),
    {
    }

    /// A key that was removed is a key that a lookup does not find.
    pub proof fn law_remove_then_get(pre: KvStore, key: Seq<char>, post: KvStore)
        requires
            pre.wf(),
            pre@.dom().contains(key),
            did_remove(pre, key, post),
        ensures
            post.lookup(key) == None::<Seq<char>>,
            forall|other: Seq<char>| other != key ==> post.lookup(other) == pre.lookup(other),
    {
    }

    /// Of two values set for one key a lookup finds the second, and the
    /// second write adds the bytes of the first record to the stale bytes, as
    /// long as the count stays under the compaction threshold.
    pub proof fn law_overwrite(
        start: KvStore,
        key: Seq<char>,
        first: Seq<char>,
        middle: KvStore,
        second: Seq<char>,
        end: KvStore,
    )
        requires
            start.wf(),
            did_set(start, key, first, middle),
            did_set(middle, key, second, end),
            sat_add(middle.stale_bytes(), prior_len(middle.state(), key)) < COMPACTION_THRESHOLD,
        ensures
            end.lookup(key) == Some(second),
            end.stale_bytes() > middle.stale_bytes(),
            end.stale_bytes() == middle.stale_bytes() + prior_len(middle.state(), key),
    {
        middle.lemma_live_record_has_bytes(key);
    }

    /// A store can always be opened again on its own segments, and the store
    /// that this gives has the same log and the same state: a lookup of any
    /// key finds in it what it found before.
    pub proof fn law_reopen(&self)
        requires
            self.wf(),
        ensures
            ascending(self.log()),
            openable(self.log()),
            opened_log(self.log()) == self.log(),
            recover(opened_log(self.log())) == self.state(),
    {
        let log = self.log();
        lemma_opened(log);
        lemma_valid_prefix(log.last().0, log.last().1, 0, initial());
        assert(log.last().1.take(log.last().1.len() as int) =~= log.last().1);
        assert(opened_log(log) =~= log);
    }

    /// Closes the store and opens it again on its own segments. The store
    /// that comes back has the same log, the same contents and the same count
    /// of stale bytes.
    pub fn reopen(self) -> (r: KvStore)
        requires
            self.wf(),
        ensures
            r.wf(),
            r.log() == self.log(),
            r@ == self@,
            r.stale_bytes() == self.stale_bytes(),
            forall|key: Seq<char>| r.lookup(key) == self.lookup(key),
    {
        proof {
            self.law_reopen();
        }
        let segments = self.segments();
        match KvStore::open(segments) {
            Ok(store) => store,
            Err(_) => self,
        }
    }
}

} // verus!
