//! Notes that outlive the program.
//!
//! Some modems cannot be asked what they are locked to, so what was locked last is noted in a
//! file. What is decided here is what the file holds; the caller reads and writes it.

use vstd::prelude::*;

verus! {

/// What is to become of a file.
#[derive(Debug, Clone, PartialEq)]
pub enum FileChange {
    /// It is written.
    Write { path: String, text: String },
    /// It is removed.
    Remove { path: String },
}

/// A change of a file as a mathematical value.
pub enum Change {
    Write { path: Seq<char>, text: Seq<char> },
    Remove { path: Seq<char> },
}

impl View for FileChange {
    type V = Change;

    open spec fn view(&self) -> Change {
        match self {
            FileChange::Write { path, text } => Change::Write { path: path@, text: text@ },
            FileChange::Remove { path } => Change::Remove { path: path@ },
        }
    }
}

/// What a file holds after a change; nothing if it is not there.
pub open spec fn file_after(c: Change) -> Option<Seq<char>> {
    match c {
        Change::Write { text, .. } => Some(text),
        Change::Remove { .. } => None,
    }
}

} // verus!
