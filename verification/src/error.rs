//! The failures that the engine reports.
use vstd::prelude::*;

verus! {

/// What can go wrong in the engine.
#[derive(Debug, Clone, Copy, PartialEq, Eq, Structural)]
pub enum KvsError {
    /// The underlying storage failed.
    Io,
    /// Bytes in a segment do not form a record.
    CorruptRecord,
    /// An index entry points at something that is not a live `Set` record.
    CorruptIndex,
    /// A removal named a key that the store does not hold.
    KeyNotFound,
    /// A span names a segment that does not exist.
    SegmentNotFound,
}

impl KvsError {
    /// The text of the description of the failure.
    pub open spec fn message_text(&self) -> Seq<char> {
        match self {
            KvsError::Io => "storage failure"@,
            KvsError::CorruptRecord => "corrupt record"@,
            KvsError::CorruptIndex => "corrupt index"@,
            KvsError::KeyNotFound => "key not found"@,
            KvsError::SegmentNotFound => "segment not found"@,
        }
    }

    /// A short description of the failure.
    pub fn message(&self) -> (s: &'static str)
        ensures
            s@ == self.message_text(),
    {
        match self {
            KvsError::Io => "storage failure",
            KvsError::CorruptRecord => "corrupt record",
            KvsError::CorruptIndex => "corrupt index",
            KvsError::KeyNotFound => "key not found",
            KvsError::SegmentNotFound => "segment not found",
        }
    }
}

} // verus!
