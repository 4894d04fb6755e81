//! The failure taxonomy shared by every operation of the engine.

use vstd::prelude::*;

verus! {

/// The filesystem access that was refused.
#[derive(Debug, Clone, Copy, PartialEq, Eq)]
pub enum Operation {
    /// Reading an entry's metadata without following a final symlink.
    ReadMetadata,
    /// Enumerating the immediate children of a directory.
    ReadDirectory,
    /// Reading an entry's current permission bits.
    ReadMode,
    /// Writing an entry's permission bits.
    WriteMode,
}

/// The part of an I/O failure's kind that the engine distinguishes.
#[derive(Debug, Clone, Copy, PartialEq, Eq)]
pub enum IoKind {
    /// The entry does not exist.
    NotFound,
    /// Any other failure.
    Other,
}

/// An I/O failure as reported by the caller that performed the access.
#[derive(Debug, Clone, Copy, PartialEq, Eq)]
pub struct IoFailure {
    pub kind: IoKind,
    /// The operating system's error number, where there is one.
    pub os_code: Option<i32>,
}

/// Why a symbolic mode string was rejected.
#[derive(Debug, Clone, Copy, PartialEq, Eq)]
pub enum ModeParseError {
    /// A character that cannot stand where it was found; the first field
    /// describes what was expected.
    UnexpectedChar(&'static str, char),
    /// The string ended where more was expected.
    UnexpectedEnd(&'static str),
    /// An octal operand does not fit the mode's integer type.
    OctalParseError,
}

/// Where an I/O failure happened: the access and the entry it was made on.
#[derive(Debug, Clone, PartialEq, Eq)]
pub struct Context {
    pub operation: Operation,
    pub path: Vec<u8>,
}

/// The ways a run can fail.
#[derive(Debug, Clone, PartialEq, Eq)]
pub enum Error {
    /// A filesystem access failed.
    Io { error: IoFailure, context: Context },
    /// An attempt was made to operate on the filesystem root.
    PreserveRoot,
    /// A worker could not be joined.
    Join,
    /// A path could not be represented.
    BadPath,
    /// The entry already exists. No mode change produces this.
    AlreadyExists { file: Vec<u8> },
    /// The entry does not exist.
    NotFound { file: Vec<u8> },
    /// The engine was driven outside its protocol.
    Internal,
    /// The symbolic mode string is malformed.
    FileMode(ModeParseError),
}

/// Mathematical value of a [`Context`].
pub struct ContextView {
    pub operation: Operation,
    pub path: Seq<u8>,
}

/// Mathematical value of an [`Error`]: paths are byte sequences.
pub enum ErrorView {
    Io { error: IoFailure, context: ContextView },
    PreserveRoot,
    Join,
    BadPath,
    AlreadyExists { file: Seq<u8> },
    NotFound { file: Seq<u8> },
    Internal,
    FileMode(ModeParseError),
}

impl View for Context {
    type V = ContextView;

    open spec fn view(&self) -> ContextView {
        ContextView { operation: self.operation, path: self.path@ }
    }
}

impl View for Error {
    type V = ErrorView;

    open spec fn view(&self) -> ErrorView {
        match *self {
            Error::Io { error, context } => ErrorView::Io { error, context: context@ },
            Error::PreserveRoot => ErrorView::PreserveRoot,
            Error::Join => ErrorView::Join,
            Error::BadPath => ErrorView::BadPath,
            Error::AlreadyExists { file } => ErrorView::AlreadyExists { file: file@ },
            Error::NotFound { file } => ErrorView::NotFound { file: file@ },
            Error::Internal => ErrorView::Internal,
            Error::FileMode(e) => ErrorView::FileMode(e),
        }
    }
}

/// Mathematical value of an outcome: success, or the failure's value.
pub open spec fn outcome_view(r: Result<(), Error>) -> Result<(), ErrorView> {
    match r {
        Ok(()) => Ok(()),
        Err(e) => Err(e@),
    }
}

} // verus!
