use vstd::prelude::*;

verus! {

/// The ways a bulk load or save can fail: the file could not be opened, read,
/// written or created (`IoError`), or a line of a kv file lacks the mandatory
/// space separator between key and value (`FormatError`).
///
/// Absence of a key is never an error: `get` and `remove` report it through
/// `Option` instead.
#[derive(Clone, Copy, Debug, PartialEq, Eq, Structural)]
pub enum KvError {
    IoError,
    FormatError,
}

impl KvError {
    /// A short text for callers that print errors.
    pub fn describe(&self) -> (r: &'static str)
        ensures
            *self == KvError::IoError ==> r@ == "file could not be read or written"@,
            *self == KvError::FormatError ==> r@ == "malformed line: no space separator"@,
    {
        match self {
            KvError::IoError => "file could not be read or written",
            KvError::FormatError => "malformed line: no space separator",
        }
    }
}

} // verus!
