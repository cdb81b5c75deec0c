//! What reading a directory tree gives: for each directory, the entries read
//! from it in order, each a file, a directory with what reading it gave, some
//! other kind of entry, or an entry whose kind could not be read.
use vstd::prelude::*;

verus! {

/// The kinds of input/output errors that the walks tell apart.
#[derive(Clone, Copy, Debug, PartialEq, Eq, Structural)]
pub enum IoErrorKind {
    PermissionDenied,
    NotFound,
    Other,
}

/// An input/output error: its kind and the message it carries.
#[derive(Debug)]
pub struct IoError {
    pub kind: IoErrorKind,
    pub message: String,
}

impl IoError {
    /// A copy of the error.
    pub fn clone_error(&self) -> (r: IoError)
        ensures
            r == *self,
    {
        IoError { kind: self.kind, message: self.message.clone() }
    }
}

/// What reading one directory gave.
#[derive(Debug)]
pub enum Listing {
    /// The directory could not be opened.
    Unreadable(IoError),
    /// The entries read, in order, and the error that stopped the reading
    /// before its end, if one did.
    Read(Vec<Entry>, Option<IoError>),
}

/// One entry of a directory.
#[derive(Debug)]
pub struct Entry {
    /// The name of the entry, as UTF-8 bytes.
    pub name: Vec<u8>,
    pub kind: EntryKind,
}

/// What an entry is.
#[derive(Debug)]
pub enum EntryKind {
    /// A directory, and what reading it gave.
    Dir(Listing),
    /// A regular file.
    File,
    /// Anything else, such as a symbolic link.
    Other,
    /// The kind of the entry could not be read.
    Unknown(IoError),
}

/// The number of entries read from a directory.
pub open spec fn entry_count(l: Listing) -> nat {
    match l {
        Listing::Read(v, _) => v.len() as nat,
        Listing::Unreadable(_) => 0,
    }
}

} // verus!
