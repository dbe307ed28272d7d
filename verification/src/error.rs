//! The ways in which a command can fail.

use vstd::prelude::*;

verus! {

/// Why a command did not go through.
#[derive(Debug, Clone, Copy, PartialEq, Eq, Structural)]
pub enum NoteError {
    /// No note in the index carries the identifier that was asked for.
    NotFound,
    /// A filter token or a configuration key is not of a known form.
    ParseError,
    /// Reading or writing a stored document failed.
    IoFault,
    /// The editor ran and reported a failure.
    ExternalProcessFailure,
}

impl NoteError {
    /// The text that `message` returns.
    pub open spec fn message_text(self) -> Seq<char> {
        match self {
            NoteError::NotFound => "note not found"@,
            NoteError::ParseError => "parse error"@,
            NoteError::IoFault => "i/o fault"@,
            NoteError::ExternalProcessFailure => "editor failed"@,
        }
    }

    /// A short description for the person at the terminal.
    pub fn message(&self) -> (r: String)
        ensures
            r@ == self.message_text(),
    {
        match self {
            NoteError::NotFound => "note not found".to_owned(),
            NoteError::ParseError => "parse error".to_owned(),
            NoteError::IoFault => "i/o fault".to_owned(),
            NoteError::ExternalProcessFailure => "editor failed".to_owned(),
        }
    }
}

} // verus!
