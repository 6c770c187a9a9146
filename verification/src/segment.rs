//! Segments of the log and the cursor that appends to the active one.
use vstd::prelude::*;
use vstd::slice::{slice_subrange, slice_to_vec};
use crate::replay::Log;

verus! {

/// One segment of the log: its id and the bytes of its records.
#[derive(Debug, Clone, PartialEq, Eq)]
pub struct Segment {
    pub id: u64,
    pub data: Vec<u8>,
}

impl Segment {
    /// The segment `id` with the bytes `data`.
    pub fn new(id: u64, data: Vec<u8>) -> (s: Segment)
        ensures
            s.id == id,
            s.data == data,
    {
        Segment { id, data }
    }
}

/// The segments as a log: each id with its bytes.
pub open spec fn log_of(segments: Seq<Segment>) -> Log {
    Seq::new(segments.len(), |i: int| (segments[i].id, segments[i].data@))
}

/// An append cursor over the bytes of a segment that knows the offset at
/// which the next write begins.
#[derive(Debug)]
pub struct BufWriterWithPos {
    buf: Vec<u8>,
    pos: u64,
}

impl BufWriterWithPos {
    /// The offset is the number of bytes written.
    pub closed spec fn wf(&self) -> bool {
        self.pos == self.buf@.len()
    }

    /// The bytes written so far.
    pub closed spec fn view(&self) -> Seq<u8> {
        self.buf@
    }

    /// A cursor at the end of `buf`.
    pub fn new(buf: Vec<u8>) -> (w: BufWriterWithPos)
        ensures
            w.wf(),
            w@ == buf@,
    {
        let pos = buf.len() as u64;
        BufWriterWithPos { buf, pos }
    }

    /// The offset at which the next write begins.
    pub fn pos(&self) -> (p: u64)
        requires
            self.wf(),
        ensures
            p == self@.len(),
    {
        self.pos
    }

    /// Appends `bytes` and returns the offset at which they begin.
    pub fn write(&mut self, bytes: &[u8]) -> (start: u64)
        requires
            old(self).wf(),
        ensures
            final(self).wf(),
            final(self)@ == old(self)@ + bytes@,
            start == old(self)@.len(),
            final(self)@.len() <= u64::MAX,
    {
        let start = self.pos;
        self.buf.extend_from_slice(bytes);
        self.pos = self.buf.len() as u64;
        assert(self.buf@ =~= old(self).buf@ + bytes@);
        start
    }

    /// The bytes written so far.
    pub fn bytes(&self) -> (b: &Vec<u8>)
        ensures
            b@ == self@,
    {
        &self.buf
    }

    /// Gives up the cursor for the bytes written.
    pub fn into_bytes(self) -> (b: Vec<u8>)
        ensures
            b@ == self@,
    {
        self.buf
    }
}

/// A read cursor over the bytes of a segment that knows the offset at which
/// the next read begins.
#[derive(Debug)]
pub struct BufReaderWithPos<'a> {
    data: &'a [u8],
    pos: u64,
}

impl<'a> BufReaderWithPos<'a> {
    /// The bytes that the cursor reads from.
    pub closed spec fn view(&self) -> Seq<u8> {
        self.data@
    }

    /// The offset at which the next read begins.
    pub closed spec fn offset(&self) -> u64 {
        self.pos
    }

    /// A cursor at the start of `data`.
    pub fn new(data: &'a [u8]) -> (r: BufReaderWithPos<'a>)
        ensures
            r@ == data@,
            r.offset() == 0,
    {
        BufReaderWithPos { data, pos: 0 }
    }

    /// The offset at which the next read begins.
    pub fn pos(&self) -> (p: u64)
        ensures
            p == self.offset(),
    {
        self.pos
    }

    /// Moves the cursor to offset `to`, which may lie behind the last byte,
    /// and returns the new offset.
    pub fn seek(&mut self, to: u64) -> (p: u64)
        ensures
            final(self)@ == old(self)@,
            final(self).offset() == to,
            p == to,
    {
        self.pos = to;
        to
    }

    /// Reads up to `length` bytes from the offset on and moves the cursor
    /// behind them. Fewer bytes come back only where the segment ends.
    pub fn read(&mut self, length: u64) -> (bytes: Vec<u8>)
        ensures
            final(self)@ == old(self)@,
            bytes@ == read_at(old(self)@, old(self).offset(), length),
            final(self).offset() == old(self).offset() + bytes@.len(),
    {
        let n = self.data.len() as u64;
        if self.pos >= n {
            return Vec::new();
        }
        let left = n - self.pos;
        let take = if length < left { length } else { left };
        let from = self.pos as usize;
        let to = (self.pos + take) as usize;
        let bytes = slice_to_vec(slice_subrange(self.data, from, to));
        self.pos = self.pos + take;
        bytes
    }
}

/// The bytes that a read of up to `length` bytes at `offset` gives.
pub open spec fn read_at(data: Seq<u8>, offset: u64, length: u64) -> Seq<u8> {
    if offset >= data.len() {
        Seq::empty()
    } else if offset + length <= data.len() {
        data.subrange(offset as int, offset + length)
    } else {
        data.subrange(offset as int, data.len() as int)
    }
}

/// The `length` bytes of `data` that begin at `offset`, or nothing if the
/// segment ends before the span does.
pub fn slice_span(data: &Vec<u8>, offset: u64, length: u64) -> (r: Option<Vec<u8>>)
    ensures
        match r {
            Some(b) => offset + length <= data@.len() && b@ == data@.subrange(
                offset as int,
                offset + length,
            ),
            None => offset + length > data@.len(),
        },
{
    let mut reader = BufReaderWithPos::new(data.as_slice());
    reader.seek(offset);
    let bytes = reader.read(length);
    if offset <= data.len() as u64 && bytes.len() as u64 == length {
        assert(bytes@ =~= data@.subrange(offset as int, offset + length));
        Some(bytes)
    } else {
        None
    }
}

} // verus!
