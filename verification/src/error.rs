//! The ways in which a run can fail.

use vstd::prelude::*;

verus! {

/// Why a unit of work, or the whole run, could not be completed.
#[derive(Debug, Clone, Copy, PartialEq, Eq, Structural)]
pub enum EngineError {
    /// A file could not be opened, read, written or positioned.
    Io,
    /// A record's length prefix promises more bytes than are left, or a token
    /// is too long for the four-byte length prefix.
    Decode,
    /// The input directory is missing or cannot be listed.
    Directory,
}

impl EngineError {
    /// A short description for reports.
    pub fn message(&self) -> (s: &'static str)
        ensures
            s@ == match *self {
                EngineError::Io => "file operation failed"@,
                EngineError::Decode => "corrupt record"@,
                EngineError::Directory => "input directory unavailable"@,
            },
    {
        match self {
            EngineError::Io => "file operation failed",
            EngineError::Decode => "corrupt record",
            EngineError::Directory => "input directory unavailable",
        }
    }
}

} // verus!
