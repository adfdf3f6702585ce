//! The failures that building or reading a constant database can report.

use vstd::prelude::*;

verus! {

/// Why an operation on a constant database was refused.
#[derive(Clone, Copy, Debug, PartialEq, Eq, Structural)]
pub enum CdbError {
    /// The file is too short, too long, or a position computed from its
    /// contents lies past its end.
    InvalidFileFormat,
    /// A single key or value is 2^32 - 1 bytes long or longer.
    ArgumentTooLarge,
    /// The file would grow past 2^32 - 1 bytes.
    FileTooLarge,
}

impl CdbError {
    /// A short description of the failure.
    pub fn message(&self) -> (s: String)
        ensures
            s@ == (match *self {
                CdbError::InvalidFileFormat => "Invalid file format"@,
                CdbError::ArgumentTooLarge => "Key or data too big"@,
                CdbError::FileTooLarge => "File too big"@,
            }),
    {
        match self {
            CdbError::InvalidFileFormat => "Invalid file format".to_string(),
            CdbError::ArgumentTooLarge => "Key or data too big".to_string(),
            CdbError::FileTooLarge => "File too big".to_string(),
        }
    }
}

} // verus!
