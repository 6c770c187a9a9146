use kvs::layout::{list_segments, log_path, parse_log_path};

fn b(text: &str) -> Vec<u8> {
    text.as_bytes().to_vec()
}

#[test]
fn log_path_is_decimal_id_and_suffix() {
    assert_eq!(log_path(1), b("1.log"));
    assert_eq!(log_path(10), b("10.log"));
    assert_eq!(log_path(907), b("907.log"));
    assert_eq!(log_path(u64::MAX), b("18446744073709551615.log"));
    assert_eq!(log_path(0), b("0.log"));
}

#[test]
fn parse_log_path_reads_ids() {
    assert_eq!(parse_log_path(b"1.log"), Some(1));
    assert_eq!(parse_log_path(b"42.log"), Some(42));
    assert_eq!(parse_log_path(b"18446744073709551615.log"), Some(u64::MAX));
}

#[test]
fn parse_log_path_passes_over_other_names() {
    assert_eq!(parse_log_path(b""), None);
    assert_eq!(parse_log_path(b".log"), None);
    assert_eq!(parse_log_path(b"0.log"), None);
    assert_eq!(parse_log_path(b"007.log"), None);
    assert_eq!(parse_log_path(b"12.txt"), None);
    assert_eq!(parse_log_path(b"12.log.bak"), None);
    assert_eq!(parse_log_path(b"a1.log"), None);
    assert_eq!(parse_log_path(b"1a.log"), None);
    assert_eq!(parse_log_path(b"-1.log"), None);
    assert_eq!(parse_log_path(b"+1.log"), None);
    assert_eq!(parse_log_path(b"18446744073709551616.log"), None);
    assert_eq!(parse_log_path(b"99999999999999999999999.log"), None);
    assert_eq!(parse_log_path(b"12log"), None);
}

#[test]
fn file_names_round_trip() {
    for id in [1u64, 9, 10, 11, 99, 100, 12345, u64::MAX - 1, u64::MAX] {
        assert_eq!(parse_log_path(&log_path(id)), Some(id));
    }
}

#[test]
fn list_segments_sorts_and_filters() {
    let names = vec![
        b("10.log"),
        b("notes.txt"),
        b("2.log"),
        b("1.log"),
        b("02.log"),
        b("2.log"),
        b("x.log"),
        b("33.log"),
    ];
    assert_eq!(list_segments(&names), vec![1, 2, 10, 33]);
    assert_eq!(list_segments(&vec![]), Vec::<u64>::new());
    assert_eq!(list_segments(&vec![b("readme")]), Vec::<u64>::new());
}
