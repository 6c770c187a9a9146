use kvs::codec::{decode_one, decode_step, encode, Step, TAG_REMOVE, TAG_SET};
use kvs::index::{bytes_less, Index};
use kvs::segment::{slice_span, BufReaderWithPos, BufWriterWithPos};
use kvs::{Command, CommandPos, KvsError};

fn s(text: &str) -> String {
    text.to_string()
}

#[test]
fn command_builders_make_the_variants() {
    assert_eq!(
        Command::set(s("k"), s("v")),
        Command::Put { key: s("k"), value: s("v") }
    );
    assert_eq!(Command::remove(s("k")), Command::Remove { key: s("k") });
}

#[test]
fn encode_put_is_tag_then_two_fields() {
    let bytes = encode(&Command::set(s("ab"), s("xyz")));
    let expected: Vec<u8> = vec![
        1, 2, 0, 0, 0, 0, 0, 0, 0, b'a', b'b', 3, 0, 0, 0, 0, 0, 0, 0, b'x', b'y', b'z',
    ];
    assert_eq!(bytes, expected);
    assert_eq!(bytes[0], TAG_SET);
}

#[test]
fn encode_remove_is_tag_then_the_key() {
    let bytes = encode(&Command::remove(s("ab")));
    let expected: Vec<u8> = vec![2, 2, 0, 0, 0, 0, 0, 0, 0, b'a', b'b'];
    assert_eq!(bytes, expected);
    assert_eq!(bytes[0], TAG_REMOVE);
}

#[test]
fn decode_reads_one_record_and_its_length() {
    let mut bytes = encode(&Command::set(s("k"), s("v")));
    let len = bytes.len();
    bytes.extend(encode(&Command::remove(s("k"))));
    assert_eq!(decode_one(&bytes), Ok((Command::set(s("k"), s("v")), len)));
    assert_eq!(
        decode_one(&bytes[len..]),
        Ok((Command::remove(s("k")), 10))
    );
}

#[test]
fn decode_of_empty_fields() {
    let bytes = encode(&Command::set(s(""), s("")));
    assert_eq!(bytes.len(), 17);
    assert_eq!(decode_one(&bytes), Ok((Command::set(s(""), s("")), 17)));
}

#[test]
fn decode_refuses_what_is_no_record() {
    assert_eq!(decode_one(&[]), Err(KvsError::CorruptRecord));
    assert_eq!(decode_one(&[7, 0, 0]), Err(KvsError::CorruptRecord));
    let bytes = encode(&Command::set(s("k"), s("v")));
    assert_eq!(
        decode_one(&bytes[..bytes.len() - 1]),
        Err(KvsError::CorruptRecord)
    );
}

#[test]
fn decode_step_tells_cut_short_from_corrupt() {
    let bytes = encode(&Command::set(s("key"), s("value")));
    for cut in 0..bytes.len() {
        assert_eq!(decode_step(&bytes[..cut]), Step::Truncated);
    }
    assert_eq!(
        decode_step(&bytes),
        Step::Record { cmd: Command::set(s("key"), s("value")), consumed: bytes.len() }
    );
    assert_eq!(decode_step(&[0]), Step::Corrupt);
    assert_eq!(decode_step(&[3, 1, 2, 3]), Step::Corrupt);
}

#[test]
fn decode_refuses_text_that_is_not_utf8() {
    let bytes: Vec<u8> = vec![2, 2, 0, 0, 0, 0, 0, 0, 0, 0xff, 0xfe];
    assert_eq!(decode_step(&bytes), Step::Corrupt);
    assert_eq!(decode_one(&bytes), Err(KvsError::CorruptRecord));
}

#[test]
fn decode_gives_back_text_of_several_bytes_per_char() {
    let cmd = Command::set(s("ключ"), s("値"));
    let bytes = encode(&cmd);
    assert_eq!(bytes.len(), 1 + 8 + 8 + 8 + 3);
    assert_eq!(decode_one(&bytes), Ok((cmd, bytes.len())));
}

#[test]
fn decode_with_a_length_beyond_the_bytes_is_cut_short() {
    let bytes: Vec<u8> = vec![2, 255, 255, 255, 255, 255, 255, 255, 255, b'a'];
    assert_eq!(decode_step(&bytes), Step::Truncated);
}

#[test]
fn command_pos_from_range() {
    let p = CommandPos::from_range(3, 10, 25);
    assert_eq!(p, CommandPos { filename: 3, pos: 10, len: 15 });
    let q = CommandPos::from_range(1, 7, 7);
    assert_eq!(q.len, 0);
}

#[test]
fn writer_tracks_its_position() {
    let mut w = BufWriterWithPos::new(vec![1, 2, 3]);
    assert_eq!(w.pos(), 3);
    assert_eq!(w.write(&[4, 5]), 3);
    assert_eq!(w.pos(), 5);
    assert_eq!(w.write(&[]), 5);
    assert_eq!(w.write(&[6]), 5);
    assert_eq!(w.bytes(), &vec![1, 2, 3, 4, 5, 6]);
    assert_eq!(w.into_bytes(), vec![1, 2, 3, 4, 5, 6]);
}

#[test]
fn slice_span_checks_the_bounds() {
    let data: Vec<u8> = vec![10, 11, 12, 13];
    assert_eq!(slice_span(&data, 1, 2), Some(vec![11, 12]));
    assert_eq!(slice_span(&data, 4, 0), Some(vec![]));
    assert_eq!(slice_span(&data, 3, 2), None);
    assert_eq!(slice_span(&data, 5, 0), None);
}

#[test]
fn index_insert_get_remove() {
    let mut index = Index::new();
    assert_eq!(index.len(), 0);
    let a = CommandPos { filename: 1, pos: 0, len: 5 };
    let b = CommandPos { filename: 1, pos: 5, len: 7 };
    let c = CommandPos { filename: 2, pos: 0, len: 9 };
    assert_eq!(index.insert(s("a"), a), None);
    assert_eq!(index.insert(s("b"), b), None);
    assert_eq!(index.get(&s("a")), Some(a));
    assert_eq!(index.insert(s("a"), c), Some(a));
    assert_eq!(index.get(&s("a")), Some(c));
    assert_eq!(index.len(), 2);
    assert_eq!(index.remove(&s("zz")), None);
    assert_eq!(index.remove(&s("a")), Some(c));
    assert_eq!(index.get(&s("a")), None);
    assert_eq!(index.len(), 1);
    assert_eq!(index.key_at(0), &s("b"));
    assert_eq!(index.pos_at(0), b);
}

#[test]
fn every_error_has_a_message() {
    assert_eq!(KvsError::Io.message(), "storage failure");
    assert_eq!(KvsError::CorruptRecord.message(), "corrupt record");
    assert_eq!(KvsError::CorruptIndex.message(), "corrupt index");
    assert_eq!(KvsError::KeyNotFound.message(), "key not found");
    assert_eq!(KvsError::SegmentNotFound.message(), "segment not found");
}

#[test]
fn index_keeps_its_keys_in_order() {
    let mut index = Index::new();
    let p = CommandPos { filename: 1, pos: 0, len: 1 };
    index.insert(s("b"), p);
    index.insert(s("a"), p);
    index.insert(s("c"), p);
    index.insert(s("ab"), p);
    index.insert(s(""), p);
    assert_eq!(index.len(), 5);
    assert_eq!(index.key_at(0), &s(""));
    assert_eq!(index.key_at(1), &s("a"));
    assert_eq!(index.key_at(2), &s("ab"));
    assert_eq!(index.key_at(3), &s("b"));
    assert_eq!(index.key_at(4), &s("c"));
}

#[test]
fn bytes_are_ordered_as_strings_are() {
    assert!(bytes_less(b"", b"a"));
    assert!(!bytes_less(b"", b""));
    assert!(!bytes_less(b"a", b""));
    assert!(bytes_less(b"a", b"ab"));
    assert!(!bytes_less(b"ab", b"a"));
    assert!(bytes_less(b"ab", b"b"));
    assert!(!bytes_less(b"b", b"ab"));
    assert!(!bytes_less(b"same", b"same"));
    for (a, b) in [("x", "y"), ("abc", "abd"), ("Z", "a"), ("é", "z"), ("k10", "k9")] {
        assert_eq!(bytes_less(a.as_bytes(), b.as_bytes()), a < b);
        assert_eq!(bytes_less(b.as_bytes(), a.as_bytes()), b < a);
    }
}

#[test]
fn reader_seeks_and_reads() {
    let data: Vec<u8> = vec![1, 2, 3, 4, 5];
    let mut r = BufReaderWithPos::new(&data);
    assert_eq!(r.pos(), 0);
    assert_eq!(r.read(2), vec![1, 2]);
    assert_eq!(r.pos(), 2);
    assert_eq!(r.seek(4), 4);
    assert_eq!(r.read(3), vec![5]);
    assert_eq!(r.pos(), 5);
    assert_eq!(r.read(1), Vec::<u8>::new());
    assert_eq!(r.seek(9), 9);
    assert_eq!(r.read(1), Vec::<u8>::new());
    assert_eq!(r.pos(), 9);
    assert_eq!(r.seek(0), 0);
    assert_eq!(r.read(u64::MAX), vec![1, 2, 3, 4, 5]);
}
