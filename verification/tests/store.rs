use kvs::codec::encode;
use kvs::kv::{is_ascending, saturating_sum, scan_segment, value_of_span, COMPACTION_THRESHOLD};
use kvs::replay::ScanEnd;
use kvs::segment::Segment;
use kvs::{Command, KvStore, KvsError};

fn s(text: &str) -> String {
    text.to_string()
}

fn record(key: &str, value: &str) -> Vec<u8> {
    encode(&Command::set(s(key), s(value)))
}

fn tombstone(key: &str) -> Vec<u8> {
    encode(&Command::remove(s(key)))
}

#[test]
fn open_without_segments_starts_at_segment_one() {
    let store = KvStore::open(vec![]).unwrap();
    assert_eq!(store.current_filename(), 1);
    assert_eq!(store.uncompacted(), 0);
    assert_eq!(store.active_len(), 0);
    assert_eq!(store.segments(), vec![Segment::new(1, vec![])]);
    assert_eq!(store.get(s("a")), Ok(None));
}

#[test]
fn set_then_get_returns_the_value() {
    let mut store = KvStore::open(vec![]).unwrap();
    assert_eq!(store.set(s("key"), s("value")), Ok(()));
    assert_eq!(store.get(s("key")), Ok(Some(s("value"))));
    assert_eq!(store.get(s("other")), Ok(None));
    assert!(store.contains_key(&s("key")));
    assert!(!store.contains_key(&s("other")));
}

#[test]
fn set_appends_the_encoded_record() {
    let mut store = KvStore::open(vec![]).unwrap();
    store.set(s("a"), s("1")).unwrap();
    assert_eq!(store.segments(), vec![Segment::new(1, record("a", "1"))]);
    assert_eq!(store.active_len(), 19);
    store.set(s("b"), s("2")).unwrap();
    let mut both = record("a", "1");
    both.extend(record("b", "2"));
    assert_eq!(store.segments(), vec![Segment::new(1, both)]);
    assert_eq!(store.active_len(), 38);
}

#[test]
fn remove_then_get_finds_nothing() {
    let mut store = KvStore::open(vec![]).unwrap();
    store.set(s("k"), s("v")).unwrap();
    assert_eq!(store.remove(s("k")), Ok(()));
    assert_eq!(store.get(s("k")), Ok(None));
    // The superseded record and the tombstone itself are both stale.
    assert_eq!(store.uncompacted(), 19 + 10);
}

#[test]
fn remove_of_absent_key_is_refused_and_writes_nothing() {
    let mut store = KvStore::open(vec![]).unwrap();
    store.set(s("k"), s("v")).unwrap();
    let before = store.segments();
    assert_eq!(store.remove(s("missing")), Err(KvsError::KeyNotFound));
    assert_eq!(store.segments(), before);
    assert_eq!(store.uncompacted(), 0);
    assert_eq!(store.get(s("k")), Ok(Some(s("v"))));
}

#[test]
fn overwrite_keeps_the_second_value_and_counts_the_first_as_stale() {
    let mut store = KvStore::open(vec![]).unwrap();
    store.set(s("k"), s("a")).unwrap();
    let after_first = store.uncompacted();
    assert_eq!(after_first, 0);
    store.set(s("k"), s("b")).unwrap();
    assert_eq!(store.get(s("k")), Ok(Some(s("b"))));
    assert!(store.uncompacted() > after_first);
    assert_eq!(store.uncompacted(), 19);
}

#[test]
fn scenario_two_keys_overwrite_and_remove() {
    let mut store = KvStore::open(vec![]).unwrap();
    store.set(s("a"), s("1")).unwrap();
    store.set(s("b"), s("2")).unwrap();
    store.set(s("a"), s("3")).unwrap();
    store.remove(s("b")).unwrap();
    assert_eq!(store.get(s("a")), Ok(Some(s("3"))));
    assert_eq!(store.get(s("b")), Ok(None));
    let again = KvStore::open(store.segments()).unwrap();
    assert_eq!(again.get(s("a")), Ok(Some(s("3"))));
    assert_eq!(again.get(s("b")), Ok(None));
    assert_eq!(again.uncompacted(), store.uncompacted());
    assert_eq!(again.uncompacted(), 19 + 19 + 10);
}

#[test]
fn reopen_gives_the_same_store() {
    let mut store = KvStore::open(vec![]).unwrap();
    store.set(s("x"), s("1")).unwrap();
    store.set(s("y"), s("2")).unwrap();
    store.remove(s("x")).unwrap();
    let segments = store.segments();
    let stale = store.uncompacted();
    let again = store.reopen();
    assert_eq!(again.segments(), segments);
    assert_eq!(again.uncompacted(), stale);
    assert_eq!(again.get(s("x")), Ok(None));
    assert_eq!(again.get(s("y")), Ok(Some(s("2"))));
}

#[test]
fn recovery_replays_several_segments_in_order() {
    let mut first = record("a", "old");
    first.extend(record("b", "kept"));
    let mut second = record("a", "new");
    second.extend(tombstone("b"));
    second.extend(tombstone("never"));
    let third = record("c", "3");
    let store = KvStore::open(vec![
        Segment::new(2, first.clone()),
        Segment::new(5, second.clone()),
        Segment::new(9, third),
    ])
    .unwrap();
    assert_eq!(store.get(s("a")), Ok(Some(s("new"))));
    assert_eq!(store.get(s("b")), Ok(None));
    assert_eq!(store.get(s("c")), Ok(Some(s("3"))));
    assert_eq!(store.current_filename(), 9);
    let stale = record("a", "old").len()
        + record("b", "kept").len()
        + tombstone("b").len()
        + tombstone("never").len();
    assert_eq!(store.uncompacted(), stale as u64);
}

#[test]
fn torn_tail_of_the_last_segment_is_cut() {
    let whole = record("a", "1");
    let mut data = whole.clone();
    let partial = record("b", "2");
    data.extend(&partial[..7]);
    let mut store = KvStore::open(vec![Segment::new(1, data)]).unwrap();
    assert_eq!(store.get(s("a")), Ok(Some(s("1"))));
    assert_eq!(store.get(s("b")), Ok(None));
    assert_eq!(store.active_len(), whole.len() as u64);
    store.set(s("c"), s("3")).unwrap();
    let mut expected = whole;
    expected.extend(record("c", "3"));
    assert_eq!(store.segments(), vec![Segment::new(1, expected)]);
    assert_eq!(store.get(s("c")), Ok(Some(s("3"))));
}

#[test]
fn torn_tail_of_a_sealed_segment_is_corrupt() {
    let mut data = record("a", "1");
    data.extend(&record("b", "2")[..7]);
    let r = KvStore::open(vec![Segment::new(1, data), Segment::new(2, record("c", "3"))]);
    assert_eq!(r.err(), Some(KvsError::CorruptRecord));
}

#[test]
fn bytes_that_begin_no_record_are_corrupt_even_at_the_tail() {
    let mut data = record("a", "1");
    data.push(9);
    data.extend(record("b", "2"));
    let r = KvStore::open(vec![Segment::new(1, data)]);
    assert_eq!(r.err(), Some(KvsError::CorruptRecord));
}

#[test]
fn scan_segment_reports_end_and_valid_length() {
    let whole = record("a", "1");
    assert_eq!(scan_segment(&whole), (19, ScanEnd::Clean));
    assert_eq!(scan_segment(&vec![]), (0, ScanEnd::Clean));
    let mut torn = whole.clone();
    torn.extend(&[1u8, 5, 0]);
    assert_eq!(scan_segment(&torn), (19, ScanEnd::Torn));
    let mut bad = whole.clone();
    bad.push(0);
    assert_eq!(scan_segment(&bad), (19, ScanEnd::Corrupt));
}

#[test]
fn compaction_runs_when_the_threshold_is_reached() {
    let big = "v".repeat(600_000);
    let mut store = KvStore::open(vec![]).unwrap();
    store.set(s("k"), big.clone()).unwrap();
    store.set(s("other"), s("small")).unwrap();
    store.set(s("k"), big.clone()).unwrap();
    let one = record("k", &big).len() as u64;
    assert_eq!(store.uncompacted(), one);
    assert!(one < COMPACTION_THRESHOLD);
    assert_eq!(store.current_filename(), 1);
    store.set(s("k"), s("last")).unwrap();
    assert_eq!(store.uncompacted(), 0);
    assert_eq!(store.current_filename(), 3);
    assert_eq!(store.get(s("k")), Ok(Some(s("last"))));
    assert_eq!(store.get(s("other")), Ok(Some(s("small"))));
    let segments = store.segments();
    assert_eq!(segments.len(), 2);
    assert_eq!(segments[0].id, 2);
    assert_eq!(segments[1], Segment::new(3, vec![]));
    let mut merged = record("k", "last");
    merged.extend(record("other", "small"));
    assert_eq!(segments[0].data, merged);
    let again = KvStore::open(segments).unwrap();
    assert_eq!(again.get(s("k")), Ok(Some(s("last"))));
    assert_eq!(again.get(s("other")), Ok(Some(s("small"))));
    assert_eq!(again.uncompacted(), 0);
}

#[test]
fn compact_keeps_every_live_key() {
    let mut store = KvStore::open(vec![]).unwrap();
    store.set(s("a"), s("1")).unwrap();
    store.set(s("b"), s("2")).unwrap();
    store.set(s("a"), s("3")).unwrap();
    store.remove(s("b")).unwrap();
    store.set(s("c"), s("4")).unwrap();
    store.compact();
    assert_eq!(store.uncompacted(), 0);
    assert_eq!(store.current_filename(), 3);
    assert_eq!(store.get(s("a")), Ok(Some(s("3"))));
    assert_eq!(store.get(s("b")), Ok(None));
    assert_eq!(store.get(s("c")), Ok(Some(s("4"))));
    let mut merged = record("a", "3");
    merged.extend(record("c", "4"));
    assert_eq!(
        store.segments(),
        vec![Segment::new(2, merged), Segment::new(3, vec![])]
    );
    store.set(s("d"), s("5")).unwrap();
    assert_eq!(store.segments()[1], Segment::new(3, record("d", "5")));
}

#[test]
fn read_span_returns_the_bytes_or_says_what_is_missing() {
    let mut store = KvStore::open(vec![Segment::new(4, record("a", "1"))]).unwrap();
    store.set(s("b"), s("2")).unwrap();
    assert_eq!(store.read_span(4, 19, 19), Ok(record("b", "2")));
    assert_eq!(store.read_span(4, 0, 1), Ok(vec![1u8]));
    assert_eq!(store.read_span(7, 0, 1), Err(KvsError::SegmentNotFound));
    assert_eq!(store.read_span(4, 30, 19), Err(KvsError::Io));
    assert_eq!(store.read_span(4, u64::MAX, 2), Err(KvsError::Io));
}

#[test]
fn ascending_ids_are_recognised() {
    assert!(is_ascending(&vec![]));
    assert!(is_ascending(&vec![Segment::new(3, vec![])]));
    assert!(is_ascending(&vec![Segment::new(1, vec![]), Segment::new(2, vec![]), Segment::new(10, vec![])]));
    assert!(!is_ascending(&vec![Segment::new(1, vec![]), Segment::new(1, vec![])]));
    assert!(!is_ascending(&vec![Segment::new(1, vec![]), Segment::new(3, vec![]), Segment::new(2, vec![])]));
}

#[test]
fn saturating_sum_stops_at_the_maximum() {
    assert_eq!(saturating_sum(2, 3), 5);
    assert_eq!(saturating_sum(u64::MAX, 1), u64::MAX);
    assert_eq!(saturating_sum(u64::MAX - 1, 1), u64::MAX);
    assert_eq!(saturating_sum(u64::MAX - 1, 5), u64::MAX);
}

#[test]
fn values_outside_ascii_survive_a_reopen() {
    let mut store = KvStore::open(vec![]).unwrap();
    store.set(s("clé"), s("värde ✓")).unwrap();
    let again = store.reopen();
    assert_eq!(again.get(s("clé")), Ok(Some(s("värde ✓"))));
}

#[test]
fn new_store_is_empty() {
    let store = KvStore::new();
    assert_eq!(store.current_filename(), 1);
    assert_eq!(store.uncompacted(), 0);
    assert_eq!(store.segments(), vec![Segment::new(1, vec![])]);
    assert_eq!(store.get(s("anything")), Ok(None));
}

#[test]
fn compaction_writes_the_live_records_in_key_order() {
    let mut store = KvStore::new();
    store.set(s("pear"), s("3")).unwrap();
    store.set(s("apple"), s("1")).unwrap();
    store.set(s("fig"), s("2")).unwrap();
    store.set(s("apple"), s("one")).unwrap();
    store.compact();
    let mut merged = record("apple", "one");
    merged.extend(record("fig", "2"));
    merged.extend(record("pear", "3"));
    assert_eq!(
        store.segments(),
        vec![Segment::new(2, merged), Segment::new(3, vec![])]
    );
    assert_eq!(store.get(s("apple")), Ok(Some(s("one"))));
    assert_eq!(store.get(s("fig")), Ok(Some(s("2"))));
    assert_eq!(store.get(s("pear")), Ok(Some(s("3"))));
}

#[test]
fn compaction_of_an_empty_store_leaves_two_empty_segments() {
    let mut store = KvStore::new();
    store.compact();
    assert_eq!(
        store.segments(),
        vec![Segment::new(2, vec![]), Segment::new(3, vec![])]
    );
    assert_eq!(store.current_filename(), 3);
}

#[test]
fn removal_can_bring_the_stale_bytes_to_the_threshold() {
    let big = "v".repeat(1_100_000);
    let mut store = KvStore::new();
    store.set(s("k"), big).unwrap();
    store.set(s("keep"), s("me")).unwrap();
    assert_eq!(store.uncompacted(), 0);
    store.remove(s("k")).unwrap();
    assert_eq!(store.uncompacted(), 0);
    assert_eq!(store.current_filename(), 3);
    assert_eq!(
        store.segments(),
        vec![Segment::new(2, record("keep", "me")), Segment::new(3, vec![])]
    );
    assert_eq!(store.get(s("k")), Ok(None));
    assert_eq!(store.get(s("keep")), Ok(Some(s("me"))));
}

#[test]
fn value_of_span_tells_the_three_outcomes() {
    assert_eq!(value_of_span(&record("k", "v")), Ok(s("v")));
    assert_eq!(value_of_span(&tombstone("k")), Err(KvsError::CorruptIndex));
    assert_eq!(value_of_span(&[]), Err(KvsError::CorruptRecord));
    assert_eq!(value_of_span(&record("k", "v")[..5]), Err(KvsError::CorruptRecord));
    assert_eq!(value_of_span(&[8, 8, 8]), Err(KvsError::CorruptRecord));
}
