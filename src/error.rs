//! Common error types.
use vstd::prelude::*;

verus! {

/// Error for file IO and parse errors.
#[derive(Debug, Clone, PartialEq, Eq)]
pub enum FileError {
    /// An input or output error, with its description.
    IO(String),
    /// A line that does not parse: what is wrong, the offending text and the
    /// line's number, counted from 1.
    Parse { msg: String, data: String, line: usize },
}

impl FileError {
    /// The line number of a parse error.
    pub open spec fn line_of(&self) -> Option<usize> {
        match self {
            FileError::Parse { line, .. } => Some(*line),
            FileError::IO(_) => None,
        }
    }
}

/// A parse error with a message given as a literal.
pub fn parse_error(msg: &str, data: &str, line: usize) -> (r: FileError)
    ensures
        r.line_of() == Some(line),
        r matches FileError::Parse { data: d, .. } && d@ == data@,
{
    FileError::Parse { msg: String::from_str(msg), data: String::from_str(data), line }
}

} // verus!
