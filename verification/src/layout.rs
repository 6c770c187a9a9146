//! How segments are named in the store's directory: the file of segment `id`
//! is `<id>.log`, with the id in decimal digits, positive and without leading
//! zeros. Names are handled as bytes.
use vstd::prelude::*;

verus! {

/// The byte of a decimal digit.
pub open spec fn digit(d: nat) -> u8 {
    (48 + d) as u8
}

/// The decimal digits of a number, most significant first.
pub open spec fn decimal(n: nat) -> Seq<u8>
    decreases n,
{
    if n < 10 {
        seq![digit(n)]
    } else {
        decimal(n / 10).push(digit(n % 10))
    }
}

/// What every segment file's name ends in: `.log`.
pub open spec fn suffix() -> Seq<u8> {
    seq![46u8, 108u8, 111u8, 103u8]
}

/// The name of the file of segment `id`.
pub open spec fn file_name(id: u64) -> Seq<u8> {
    decimal(id as nat) + suffix()
}

/// Whether a byte is a decimal digit.
pub open spec fn is_digit(b: u8) -> bool {
    48 <= b <= 57
}

/// Whether all bytes are decimal digits.
pub open spec fn all_digits(b: Seq<u8>) -> bool {
    forall|i: int| 0 <= i < b.len() ==> is_digit(#[trigger] b[i])
}

/// The number that a digit stands for.
pub open spec fn digit_value(b: u8) -> nat {
    if b >= 48 {
        (b - 48) as nat
    } else {
        0
    }
}

/// The number that decimal digits stand for.
pub open spec fn value(b: Seq<u8>) -> nat
    decreases b.len(),
{
    if b.len() == 0 {
        0
    } else {
        value(b.drop_last()) * 10 + digit_value(b.last())
    }
}

/// The id that a file name stands for, if it is the name of a segment file:
/// decimal digits that do not begin with a zero and stand for a number that
/// fits, followed by `.log`.
pub open spec fn parse_name(name: Seq<u8>) -> Option<u64> {
    let stem = name.take(name.len() - 4);
    if name.len() > 4 && name.skip(name.len() - 4) == suffix() && all_digits(stem) && stem[0] != 48
        && value(stem) <= u64::MAX {
        Some(value(stem) as u64)
    } else {
        None
    }
}

/// Ids ascend strictly.
pub open spec fn strictly_ascending(ids: Seq<u64>) -> bool {
    forall|i: int, j: int| 0 <= i < j < ids.len() ==> ids[i] < ids[j]
}

/// Whether one of the names is the name of segment `id`.
pub open spec fn names_segment(names: Seq<Vec<u8>>, id: u64) -> bool {
    exists|i: int| 0 <= i < names.len() && parse_name(#[trigger] names[i]@) == Some(id)
}

/// The decimal digits of a number are digits, stand for the number, and
/// begin with a zero only for zero itself.
pub proof fn lemma_decimal(n: nat)
    ensures
        decimal(n).len() >= 1,
        all_digits(decimal(n)),
        value(decimal(n)) == n,
        n >= 1 ==> decimal(n)[0] != 48,
    decreases n,
{
    if n < 10 {
        assert(decimal(n).drop_last() =~= Seq::<u8>::empty());
        assert(value(decimal(n).drop_last()) == 0);
    } else {
        lemma_decimal(n / 10);
        assert(decimal(n).drop_last() =~= decimal(n / 10));
        assert(decimal(n)[0] == decimal(n / 10)[0]);
    }
}

/// The digits read so far never stand for more than all the digits do.
pub proof fn lemma_value_grows(b: Seq<u8>, k: int)
    requires
        0 <= k <= b.len(),
    ensures
        value(b.take(k)) <= value(b),
    decreases b.len(),
{
    if k < b.len() {
        lemma_value_grows(b.drop_last(), k);
        assert(b.drop_last().take(k) =~= b.take(k));
    } else {
        assert(b.take(k) =~= b);
    }
}

/// The name of a segment's file is read back as the segment's id.
pub proof fn law_file_name_round_trip(id: u64)
    requires
        id >= 1,
    ensures
        parse_name(file_name(id)) == Some(id),
{
    lemma_decimal(id as nat);
    let name = file_name(id);
    assert(name.take(name.len() - 4) =~= decimal(id as nat));
    assert(name.skip(name.len() - 4) =~= suffix());
}

fn push_decimal(out: &mut Vec<u8>, n: u64)
    ensures
        final(out)@ == old(out)@ + decimal(n as nat),
    decreases n,
{
    if n >= 10 {
        push_decimal(out, n / 10);
    }
    let d: u8 = (n % 10) as u8;
    out.push(48 + d);
    assert(out@ =~= old(out)@ + decimal(n as nat));
}

/// The name of the file of segment `filename`, relative to the directory of
/// the store.
pub fn log_path(filename: u64) -> (name: Vec<u8>)
    ensures
        name@ == file_name(filename),
{
    let mut name: Vec<u8> = Vec::new();
    push_decimal(&mut name, filename);
    name.push(46);
    name.push(108);
    name.push(111);
    name.push(103);
    assert(name@ =~= file_name(filename));
    name
}

/// Reads a file name as the name of a segment file.
pub fn parse_log_path(name: &[u8]) -> (r: Option<u64>)
    ensures
        r == parse_name(name@),
{
    let n = name.len();
    if n <= 4 {
        return None;
    }
    let m = n - 4;
    let ghost stem = name@.take(m as int);
    if name[m] != 46 || name[m + 1] != 108 || name[m + 2] != 111 || name[m + 3] != 103 {
        assert(name@.skip(m as int)[0] == name@[m as int]);
        assert(name@.skip(m as int)[1] == name@[m + 1]);
        assert(name@.skip(m as int)[2] == name@[m + 2]);
        assert(name@.skip(m as int)[3] == name@[m + 3]);
        return None;
    }
    assert(name@.skip(m as int) =~= suffix());
    if name[0] == 48 {
        return None;
    }
    let mut acc: u64 = 0;
    let mut i: usize = 0;
    assert(stem.take(0) =~= Seq::<u8>::empty());
    while i < m
        invariant
            m == name@.len() - 4,
            stem == name@.take(m as int),
            i <= m,
            all_digits(stem.take(i as int)),
            acc == value(stem.take(i as int)),
        decreases m - i,
    {
        let b = name[i];
        if b < 48 || b > 57 {
            assert(!is_digit(stem[i as int]));
            return None;
        }
        let d: u64 = (b - 48) as u64;
        proof {
            assert(stem.take(i + 1).drop_last() =~= stem.take(i as int));
            assert(stem.take(i + 1).last() == b);
            assert(value(stem.take(i + 1)) == acc * 10 + d);
        }
        if acc > (u64::MAX - d) / 10 {
            proof {
                lemma_value_grows(stem, i + 1);
            }
            return None;
        }
        acc = acc * 10 + d;
        i += 1;
    }
    assert(stem.take(m as int) =~= stem);
    Some(acc)
}

/// The ids of the segments among the files of a directory, in ascending
/// order. Names that are not names of segment files are passed over.
pub fn list_segments(names: &Vec<Vec<u8>>) -> (ids: Vec<u64>)
    ensures
        strictly_ascending(ids@),
        forall|id: u64| ids@.contains(id) <==> names_segment(names@, id),
{
    let mut ids: Vec<u64> = Vec::new();
    let mut i: usize = 0;
    while i < names.len()
        invariant
            i <= names@.len(),
            strictly_ascending(ids@),
            forall|id: u64| ids@.contains(id) <==> names_segment(names@.take(i as int), id),
        decreases names@.len() - i,
    {
        let ghost seen = names@.take(i as int);
        let ghost next = names@.take(i + 1);
        let ghost was = ids@;
        let parsed = parse_log_path(names[i].as_slice());
        proof {
            assert(next.drop_last() =~= seen);
            assert forall|id: u64| names_segment(next, id) <==> (names_segment(seen, id) || parsed
                == Some(id)) by {
                if names_segment(next, id) {
                    let k = choose|k: int| 0 <= k < next.len() && parse_name(#[trigger] next[k]@) == Some(id);
                    if k < i {
                        assert(seen[k] == next[k]);
                    }
                }
                if names_segment(seen, id) {
                    let k = choose|k: int| 0 <= k < seen.len() && parse_name(#[trigger] seen[k]@) == Some(id);
                    assert(next[k] == seen[k]);
                }
                if parsed == Some(id) {
                    assert(parse_name(next[i as int]@) == Some(id));
                }
            }
        }
        if let Some(id) = parsed {
            let mut j: usize = 0;
            while j < ids.len() && ids[j] < id
                invariant
                    j <= ids@.len(),
                    forall|k: int| 0 <= k < j ==> ids@[k] < id,
                decreases ids@.len() - j,
            {
                j += 1;
            }
            if j < ids.len() && ids[j] == id {
                assert(was.contains(id));
            } else {
                ids.insert(j, id);
                proof {
                    assert(ids@[j as int] == id);
                    assert forall|a: int, b: int| 0 <= a < b < ids@.len() implies ids@[a] < ids@[b] by {
                        let pa = if a < j { a } else { a - 1 };
                        let pb = if b < j { b } else { b - 1 };
                        if a != j && b != j {
                            assert(was[pa] < was[pb]);
                        } else if a == j {
                            assert(was[j as int] <= was[pb]);
                        }
                    }
                    assert forall|x: u64| ids@.contains(x) <==> (was.contains(x) || x == id) by {
                        if ids@.contains(x) {
                            let k = choose|k: int| 0 <= k < ids@.len() && ids@[k] == x;
                            if k != j {
                                let pk = if k < j { k } else { k - 1 };
                                assert(was[pk] == x);
                            }
                        }
                        if was.contains(x) {
                            let k = choose|k: int| 0 <= k < was.len() && was[k] == x;
                            let nk = if k < j { k } else { k + 1 };
                            assert(ids@[nk] == x);
                        }
                    }
                }
            }
        }
        assert forall|x: u64| ids@.contains(x) <==> names_segment(next, x) by {
            assert(was.contains(x) <==> names_segment(seen, x));
            assert(names_segment(next, x) <==> (names_segment(seen, x) || parsed == Some(x)));
        }
        i += 1;
    }
    assert(names@.take(i as int) =~= names@);
    ids
}

} // verus!
