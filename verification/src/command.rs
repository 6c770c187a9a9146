//! Log records and the spans they occupy.
use vstd::prelude::*;

verus! {

/// The mathematical form of a log record.
pub enum Record {
    Put { key: Seq<char>, value: Seq<char> },
    Remove { key: Seq<char> },
}

/// A record of the log: an upsert or a deletion.
#[derive(Debug, Clone, PartialEq, Eq)]
pub enum Command {
    Put { key: String, value: String },
    Remove { key: String },
}

impl View for Command {
    type V = Record;

    open spec fn view(&self) -> Record {
        match self {
            Command::Put { key, value } => Record::Put { key: key@, value: value@ },
            Command::Remove { key } => Record::Remove { key: key@ },
        }
    }
}

impl Command {
    /// The record that binds `key` to `value`.
    pub fn set(key: String, value: String) -> (c: Command)
        ensures
            c == (Command::Put { key, value }),
    {
        Command::Put { key, value }
    }

    /// The record that deletes `key`.
    pub fn remove(key: String) -> (c: Command)
        ensures
            c == (Command::Remove { key }),
    {
        Command::Remove { key }
    }
}

/// Where a record lies: the segment's id, the offset of its first byte and
/// its length in bytes.
#[derive(Debug, Clone, Copy, PartialEq, Eq, Structural)]
pub struct CommandPos {
    pub filename: u64,
    pub pos: u64,
    pub len: u64,
}

impl CommandPos {
    /// The span of segment `filename` from byte `start` up to, not
    /// including, byte `end`.
    pub fn from_range(filename: u64, start: u64, end: u64) -> (p: CommandPos)
        requires
            start <= end,
        ensures
            p == (CommandPos { filename, pos: start, len: (end - start) as u64 }),
    {
        CommandPos { filename, pos: start, len: end - start }
    }

    /// The offset just past the span.
    pub open spec fn end(&self) -> int {
        self.pos + self.len
    }
}

} // verus!
