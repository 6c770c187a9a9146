//! The byte form of a record.
//!
//! A record is one tag byte followed by its fields. A field is the length of
//! its UTF-8 text as eight little-endian bytes, then the text. A `Put` record
//! carries the key and the value, a `Remove` record the key alone. The form is
//! self-delimiting: a decoder reads one record from the front of any byte
//! sequence and says how many bytes it took.
use vstd::prelude::*;
use vstd::bytes::{spec_u64_from_le_bytes, spec_u64_to_le_bytes, u64_from_le_bytes, u64_to_le_bytes, lemma_auto_spec_u64_to_from_le_bytes};
use vstd::slice::{slice_subrange, slice_to_vec};
use vstd::utf8::{
    decode_utf8, decode_utf8_encode_utf8, encode_utf8, encode_utf8_decode_utf8, encode_utf8_valid_utf8,
    valid_utf8,
};
use crate::command::{Command, Record};
use crate::error::KvsError;

verus! {

/// The tag byte of a `Put` record.
pub const TAG_SET: u8 = 1;

/// The tag byte of a `Remove` record.
pub const TAG_REMOVE: u8 = 2;

/// What the front of a byte sequence holds when read as a field.
pub enum Field {
    Complete { text: Seq<char>, consumed: nat },
    Truncated,
    Corrupt,
}

/// What the front of a byte sequence holds when read as a record.
pub enum Decoded {
    /// A whole record, `consumed` bytes long.
    Complete { record: Record, consumed: nat },
    /// The bytes end before the record does.
    Truncated,
    /// The bytes cannot begin a record.
    Corrupt,
}

/// The outcome of reading one record.
#[derive(Debug, Clone, PartialEq, Eq)]
pub enum Step {
    Record { cmd: Command, consumed: usize },
    Truncated,
    Corrupt,
}

enum FieldStep {
    Text { text: String, consumed: usize },
    Truncated,
    Corrupt,
}

/// Whether the text's length in bytes can be written in eight bytes.
pub open spec fn text_fits(s: Seq<char>) -> bool {
    encode_utf8(s).len() <= u64::MAX
}

/// Whether every field of the record can be written.
pub open spec fn record_fits(r: Record) -> bool {
    match r {
        Record::Put { key, value } => text_fits(key) && text_fits(value),
        Record::Remove { key } => text_fits(key),
    }
}

/// The bytes of one field.
pub open spec fn encode_field(s: Seq<char>) -> Seq<u8> {
    spec_u64_to_le_bytes(encode_utf8(s).len() as u64) + encode_utf8(s)
}

/// The bytes of one record.
pub open spec fn encode_record(r: Record) -> Seq<u8> {
    match r {
        Record::Put { key, value } => seq![TAG_SET] + encode_field(key) + encode_field(value),
        Record::Remove { key } => seq![TAG_REMOVE] + encode_field(key),
    }
}

/// Reads one field from the front of `b`.
pub open spec fn decode_field(b: Seq<u8>) -> Field {
    if b.len() < 8 {
        Field::Truncated
    } else {
        let n = spec_u64_from_le_bytes(b.subrange(0, 8)) as int;
        if b.len() < 8 + n {
            Field::Truncated
        } else if !valid_utf8(b.subrange(8, 8 + n)) {
            Field::Corrupt
        } else {
            Field::Complete { text: decode_utf8(b.subrange(8, 8 + n)), consumed: (8 + n) as nat }
        }
    }
}

/// Reads one record from the front of `b`.
pub open spec fn decode_record(b: Seq<u8>) -> Decoded {
    if b.len() == 0 {
        Decoded::Truncated
    } else if b[0] == TAG_REMOVE {
        match decode_field(b.skip(1)) {
            Field::Complete { text, consumed } => Decoded::Complete {
                record: Record::Remove { key: text },
                consumed: 1 + consumed,
            },
            Field::Truncated => Decoded::Truncated,
            Field::Corrupt => Decoded::Corrupt,
        }
    } else if b[0] == TAG_SET {
        match decode_field(b.skip(1)) {
            Field::Complete { text: key, consumed: kn } => match decode_field(b.skip(1 + kn as int)) {
                Field::Complete { text: value, consumed: vn } => Decoded::Complete {
                    record: Record::Put { key, value },
                    consumed: 1 + kn + vn,
                },
                Field::Truncated => Decoded::Truncated,
                Field::Corrupt => Decoded::Corrupt,
            },
            Field::Truncated => Decoded::Truncated,
            Field::Corrupt => Decoded::Corrupt,
        }
    } else {
        Decoded::Corrupt
    }
}

/// A field that was written is read back, whatever follows it.
pub proof fn lemma_field_round_trip(s: Seq<char>, rest: Seq<u8>)
    requires
        text_fits(s),
    ensures
        decode_field(encode_field(s) + rest) == (Field::Complete {
            text: s,
            consumed: encode_field(s).len(),
        }),
        encode_field(s).len() == 8 + encode_utf8(s).len(),
{
    lemma_auto_spec_u64_to_from_le_bytes();
    encode_utf8_valid_utf8(s);
    encode_utf8_decode_utf8(s);
    let body = encode_utf8(s);
    let n = body.len() as u64;
    let b = encode_field(s) + rest;
    assert(b.subrange(0, 8) =~= spec_u64_to_le_bytes(n));
    assert(b.subrange(8, 8 + n) =~= body);
}

/// A record that was written is read back, whatever follows it.
pub proof fn lemma_record_round_trip(r: Record, rest: Seq<u8>)
    requires
        record_fits(r),
    ensures
        decode_record(encode_record(r) + rest) == (Decoded::Complete {
            record: r,
            consumed: encode_record(r).len(),
        }),
        encode_record(r).len() > 0,
{
    let b = encode_record(r) + rest;
    match r {
        Record::Put { key, value } => {
            lemma_field_round_trip(key, encode_field(value) + rest);
            lemma_field_round_trip(value, rest);
            assert(b.skip(1) =~= encode_field(key) + (encode_field(value) + rest));
            let kn = encode_field(key).len();
            assert(b.skip(1 + kn as int) =~= encode_field(value) + rest);
        },
        Record::Remove { key } => {
            lemma_field_round_trip(key, rest);
            assert(b.skip(1) =~= encode_field(key) + rest);
        },
    }
}

/// A complete field is decided by its own bytes alone.
pub proof fn lemma_field_local(a: Seq<u8>, b: Seq<u8>)
    requires
        decode_field(a) is Complete,
        b.len() >= decode_field(a)->Complete_consumed,
        b.take(decode_field(a)->Complete_consumed as int) == a.take(
            decode_field(a)->Complete_consumed as int,
        ),
    ensures
        decode_field(b) == decode_field(a),
{
    let n = decode_field(a)->Complete_consumed as int;
    assert(a.subrange(0, 8) =~= a.take(n).subrange(0, 8));
    assert(b.subrange(0, 8) =~= b.take(n).subrange(0, 8));
    assert(a.subrange(8, n) =~= a.take(n).subrange(8, n));
    assert(b.subrange(8, n) =~= b.take(n).subrange(8, n));
}

/// A complete record is decided by its own bytes alone: any sequence that
/// begins with the same bytes decodes to the same record.
pub proof fn lemma_record_local(a: Seq<u8>, b: Seq<u8>)
    requires
        decode_record(a) is Complete,
        b.len() >= decode_record(a)->Complete_consumed,
        b.take(decode_record(a)->Complete_consumed as int) == a.take(
            decode_record(a)->Complete_consumed as int,
        ),
    ensures
        decode_record(b) == decode_record(a),
{
    let n = decode_record(a)->Complete_consumed as int;
    assert(a[0] == a.take(n)[0]);
    assert(b[0] == b.take(n)[0]);
    let kn = decode_field(a.skip(1))->Complete_consumed as int;
    assert(a.skip(1).take(kn) =~= a.take(n).subrange(1, 1 + kn));
    assert(b.skip(1).take(kn) =~= b.take(n).subrange(1, 1 + kn));
    lemma_field_local(a.skip(1), b.skip(1));
    if a[0] == TAG_SET {
        let vn = decode_field(a.skip(1 + kn))->Complete_consumed as int;
        assert(a.skip(1 + kn).take(vn) =~= a.take(n).subrange(1 + kn, n));
        assert(b.skip(1 + kn).take(vn) =~= b.take(n).subrange(1 + kn, n));
        lemma_field_local(a.skip(1 + kn), b.skip(1 + kn));
    }
}

/// The bytes that a field was read from are the bytes of that field: no
/// two byte sequences are read as the same field.
pub proof fn lemma_field_exact(b: Seq<u8>)
    requires
        decode_field(b) is Complete,
    ensures
        text_fits(decode_field(b)->Complete_text),
        b.take(decode_field(b)->Complete_consumed as int) == encode_field(
            decode_field(b)->Complete_text,
        ),
{
    lemma_auto_spec_u64_to_from_le_bytes();
    let width = b.subrange(0, 8);
    let n = spec_u64_from_le_bytes(width) as int;
    let body = b.subrange(8, 8 + n);
    decode_utf8_encode_utf8(body);
    assert(spec_u64_to_le_bytes(spec_u64_from_le_bytes(width)) == width);
    assert(b.take(8 + n) =~= width + body);
}

/// The bytes that a record was read from are the bytes of that record.
pub proof fn lemma_record_exact(b: Seq<u8>)
    requires
        decode_record(b) is Complete,
    ensures
        record_fits(decode_record(b)->Complete_record),
        b.take(decode_record(b)->Complete_consumed as int) == encode_record(
            decode_record(b)->Complete_record,
        ),
{
    let n = decode_record(b)->Complete_consumed as int;
    lemma_field_exact(b.skip(1));
    let kn = decode_field(b.skip(1))->Complete_consumed as int;
    let key = decode_field(b.skip(1))->Complete_text;
    if b[0] == TAG_SET {
        lemma_field_exact(b.skip(1 + kn));
        let value = decode_field(b.skip(1 + kn))->Complete_text;
        let vn = decode_field(b.skip(1 + kn))->Complete_consumed as int;
        assert(b.take(n) =~= seq![TAG_SET] + b.skip(1).take(kn) + b.skip(1 + kn).take(vn));
    } else {
        assert(b.take(n) =~= seq![TAG_REMOVE] + b.skip(1).take(kn));
    }
}

/// A field that is cut short anywhere is recognised as cut short.
pub proof fn lemma_field_cut(s: Seq<char>, cut: int)
    requires
        text_fits(s),
        0 <= cut < encode_field(s).len(),
    ensures
        decode_field(encode_field(s).take(cut)) == Field::Truncated,
{
    lemma_auto_spec_u64_to_from_le_bytes();
    let n = encode_utf8(s).len() as u64;
    let b = encode_field(s).take(cut);
    if cut >= 8 {
        assert(b.subrange(0, 8) =~= spec_u64_to_le_bytes(n));
    }
}

/// A record that is cut short anywhere is recognised as cut short.
pub proof fn lemma_record_cut(r: Record, cut: int)
    requires
        record_fits(r),
        0 <= cut < encode_record(r).len(),
    ensures
        decode_record(encode_record(r).take(cut)) == Decoded::Truncated,
{
    lemma_auto_spec_u64_to_from_le_bytes();
    let b = encode_record(r).take(cut);
    if cut > 0 {
        match r {
            Record::Put { key, value } => {
                let kn = encode_field(key).len() as int;
                if cut - 1 < kn {
                    assert(b.skip(1) =~= encode_field(key).take(cut - 1));
                    lemma_field_cut(key, cut - 1);
                } else {
                    let rest = encode_field(value).take(cut - 1 - kn);
                    assert(b.skip(1) =~= encode_field(key) + rest);
                    lemma_field_round_trip(key, rest);
                    assert(b.skip(1 + kn) =~= rest);
                    lemma_field_cut(value, cut - 1 - kn);
                }
            },
            Record::Remove { key } => {
                assert(b.skip(1) =~= encode_field(key).take(cut - 1));
                lemma_field_cut(key, cut - 1);
            },
        }
    }
}

/// Calls `String::from_utf8` of the standard library, which accepts exactly
/// the byte sequences that are valid UTF-8 and then yields the text that they
/// encode.
#[verifier::external_body]
fn string_from_utf8(bytes: Vec<u8>) -> (r: Option<String>)
    ensures
        valid_utf8(bytes@) ==> r == Some(r->0) && r->0@ == decode_utf8(bytes@),
        !valid_utf8(bytes@) ==> r is None,
{
    match String::from_utf8(bytes) {
        Ok(s) => Some(s),
        Err(_) => None,
    }
}

fn push_field(out: &mut Vec<u8>, s: &String)
    ensures
        final(out)@ == old(out)@ + encode_field(s@),
        text_fits(s@),
{
    let bytes = s.as_str().as_bytes();
    let n = bytes.len() as u64;
    let width = u64_to_le_bytes(n);
    out.extend_from_slice(width.as_slice());
    out.extend_from_slice(bytes);
    assert(out@ =~= old(out)@ + encode_field(s@));
}

/// Writes a record as bytes.
pub fn encode(cmd: &Command) -> (out: Vec<u8>)
    ensures
        out@ == encode_record(cmd@),
        record_fits(cmd@),
{
    let mut out: Vec<u8> = Vec::new();
    match cmd {
        Command::Put { key, value } => {
            out.push(TAG_SET);
            push_field(&mut out, key);
            push_field(&mut out, value);
            assert(out@ =~= encode_record(cmd@));
        },
        Command::Remove { key } => {
            out.push(TAG_REMOVE);
            push_field(&mut out, key);
            assert(out@ =~= encode_record(cmd@));
        },
    }
    out
}

fn read_field(b: &[u8]) -> (r: FieldStep)
    ensures
        match decode_field(b@) {
            Field::Complete { text, consumed } => r matches FieldStep::Text {
                text: t,
                consumed: c,
            } && t@ == text && c == consumed,
            Field::Truncated => r is Truncated,
            Field::Corrupt => r is Corrupt,
        },
{
    if b.len() < 8 {
        return FieldStep::Truncated;
    }
    let n = u64_from_le_bytes(slice_subrange(b, 0, 8));
    if n > (b.len() - 8) as u64 {
        return FieldStep::Truncated;
    }
    let n_here = n as usize;
    let body = slice_to_vec(slice_subrange(b, 8, 8 + n_here));
    match string_from_utf8(body) {
        Some(text) => FieldStep::Text { text, consumed: 8 + n_here },
        None => FieldStep::Corrupt,
    }
}

/// Reads one record from the front of `bytes` and tells a record that is cut
/// short from bytes that cannot begin a record.
pub fn decode_step(bytes: &[u8]) -> (r: Step)
    ensures
        match decode_record(bytes@) {
            Decoded::Complete { record, consumed } => r matches Step::Record { cmd, consumed: c }
                && cmd@ == record && c == consumed,
            Decoded::Truncated => r is Truncated,
            Decoded::Corrupt => r is Corrupt,
        },
{
    if bytes.len() == 0 {
        return Step::Truncated;
    }
    let tag = bytes[0];
    if tag != TAG_SET && tag != TAG_REMOVE {
        return Step::Corrupt;
    }
    let after_tag = slice_subrange(bytes, 1, bytes.len());
    assert(after_tag@ =~= bytes@.skip(1));
    match read_field(after_tag) {
        FieldStep::Truncated => Step::Truncated,
        FieldStep::Corrupt => Step::Corrupt,
        FieldStep::Text { text: key, consumed: kn } => {
            if tag == TAG_REMOVE {
                Step::Record { cmd: Command::Remove { key }, consumed: 1 + kn }
            } else {
                let after_key = slice_subrange(bytes, 1 + kn, bytes.len());
                assert(after_key@ =~= bytes@.skip(1 + kn));
                match read_field(after_key) {
                    FieldStep::Truncated => Step::Truncated,
                    FieldStep::Corrupt => Step::Corrupt,
                    FieldStep::Text { text: value, consumed: vn } => Step::Record {
                        cmd: Command::Put { key, value },
                        consumed: 1 + kn + vn,
                    },
                }
            }
        },
    }
}

/// Reads exactly one record from the front of `bytes` and reports how many
/// bytes it occupies. Bytes that do not hold a whole, well-formed record are
/// refused as corrupt.
pub fn decode_one(bytes: &[u8]) -> (r: Result<(Command, usize), KvsError>)
    ensures
        match decode_record(bytes@) {
            Decoded::Complete { record, consumed } => r matches Ok((cmd, c)) && cmd@ == record
                && c == consumed,
            _ => r == Err::<(Command, usize), KvsError>(KvsError::CorruptRecord),
        },
{
    match decode_step(bytes) {
        Step::Record { cmd, consumed } => Ok((cmd, consumed)),
        _ => Err(KvsError::CorruptRecord),
    }
}

/// Encoding and then decoding gives the record back, with its exact length,
/// whatever bytes follow it in the segment.
pub proof fn law_codec_round_trip(cmd: Command, rest: Seq<u8>)
    requires
        record_fits(cmd@),
    ensures
        decode_record(encode_record(cmd@) + rest) == (Decoded::Complete {
            record: cmd@,
            consumed: encode_record(cmd@).len(),
        }),
{
    lemma_record_round_trip(cmd@, rest);
}

} // verus!
