//! The errors of ingestion, dump and restore.

use vstd::prelude::*;

verus! {

/// Why an operation failed.
#[derive(Clone, Copy, Debug, PartialEq, Eq, Structural)]
pub enum Error {
    /// A read, a write or a listing failed for a reason other than the
    /// encoding of what was read.
    Io,
    /// The content of a file is not valid UTF-8 text.
    InvalidEncoding,
    /// The source of an ingestion is neither a file nor a directory.
    UnsupportedSource,
    /// A snapshot does not stand for an index.
    MalformedSnapshot,
    /// The file to restore from does not exist.
    DestinationNotFound,
    /// The file to dump into cannot be created or written.
    DestinationUnwritable,
}

/// What the library reads of a failed input operation: whether it failed
/// because the data was not valid text, or for another reason.
#[derive(Clone, Copy, Debug, PartialEq, Eq, Structural)]
pub enum IoFailure {
    InvalidData,
    Other,
}

/// The error that a failed input operation stands for: invalid data is an
/// encoding error, everything else an input error.
pub open spec fn error_of(failure: IoFailure) -> Error {
    match failure {
        IoFailure::InvalidData => Error::InvalidEncoding,
        IoFailure::Other => Error::Io,
    }
}

impl Error {
    /// The text of the message of an error.
    pub open spec fn text(self) -> Seq<char> {
        match self {
            Error::Io => "Error reading file"@,
            Error::InvalidEncoding => "Error source must be an UTF-8 text file"@,
            Error::UnsupportedSource => "source type must be file or directory"@,
            Error::MalformedSnapshot => "Error dump is not a valid index"@,
            Error::DestinationNotFound => "File not found"@,
            Error::DestinationUnwritable => "Impossible to create dump file"@,
        }
    }

    /// The message of the error.
    pub fn message(&self) -> (message: String)
        ensures
            message@ == self.text(),
    {
        match self {
            Error::Io => "Error reading file".to_owned(),
            Error::InvalidEncoding => "Error source must be an UTF-8 text file".to_owned(),
            Error::UnsupportedSource => "source type must be file or directory".to_owned(),
            Error::MalformedSnapshot => "Error dump is not a valid index".to_owned(),
            Error::DestinationNotFound => "File not found".to_owned(),
            Error::DestinationUnwritable => "Impossible to create dump file".to_owned(),
        }
    }

    /// Whether a directory ingestion goes on after this error on one of its
    /// files: only a file that is not text is passed over.
    pub open spec fn skippable(self) -> bool {
        self == Error::InvalidEncoding
    }

    /// Whether a directory ingestion passes over a file that gave this error.
    pub fn is_skippable(&self) -> (skip: bool)
        ensures
            skip == self.skippable(),
    {
        match self {
            Error::InvalidEncoding => true,
            _ => false,
        }
    }
}

impl From<IoFailure> for Error {
    /// The error that a failed input operation stands for.
    fn from(failure: IoFailure) -> (error: Error) {
        match failure {
            IoFailure::InvalidData => Error::InvalidEncoding,
            IoFailure::Other => Error::Io,
        }
    }
}

impl vstd::std_specs::convert::FromSpecImpl<IoFailure> for Error {
    open spec fn obeys_from_spec() -> bool {
        true
    }

    open spec fn from_spec(failure: IoFailure) -> Error {
        error_of(failure)
    }
}

} // verus!
