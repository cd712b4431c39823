use vstd::prelude::*;

verus! {

/// What went wrong while parsing.
#[derive(Debug, Clone, PartialEq, Eq)]
pub enum ErrorKind {
    /// The input (or the current line or token) ended while more was expected.
    UnexpectedEof,
    /// A type descriptor starts with a character that no descriptor rule accepts.
    InvalidType,
    /// An array of `V` was written.
    VoidArray,
    /// The header line is malformed: no namespaces, or a namespace given twice.
    InvalidHeader,
    /// The header line does not start with the `v1` literal.
    InvalidVersion,
    /// A record line starts with a token that names no record kind.
    UnknownEntryType(String),
    /// Bytes handed over as text are not valid UTF-8.
    EncodingError,
    /// A record line breaks the delimiter discipline, has too many fields, or a
    /// field holds characters after a complete value.
    MalformedRecord,
}

/// The mathematical model of an `ErrorKind`.
pub enum ErrorKindView {
    UnexpectedEof,
    InvalidType,
    VoidArray,
    InvalidHeader,
    InvalidVersion,
    UnknownEntryType(Seq<char>),
    EncodingError,
    MalformedRecord,
}

impl View for ErrorKind {
    type V = ErrorKindView;

    open spec fn view(&self) -> ErrorKindView {
        match self {
            ErrorKind::UnexpectedEof => ErrorKindView::UnexpectedEof,
            ErrorKind::InvalidType => ErrorKindView::InvalidType,
            ErrorKind::VoidArray => ErrorKindView::VoidArray,
            ErrorKind::InvalidHeader => ErrorKindView::InvalidHeader,
            ErrorKind::InvalidVersion => ErrorKindView::InvalidVersion,
            ErrorKind::UnknownEntryType(t) => ErrorKindView::UnknownEntryType(t@),
            ErrorKind::EncodingError => ErrorKindView::EncodingError,
            ErrorKind::MalformedRecord => ErrorKindView::MalformedRecord,
        }
    }
}

/// A failed type-descriptor parse: the kind, and the character offset at which it
/// was detected.
#[derive(Debug, Clone, PartialEq, Eq)]
pub struct DescriptorError {
    pub kind: ErrorKind,
    pub position: usize,
}

/// A failed mapping parse: the kind, and the 1-based line on which it was detected.
#[derive(Debug, Clone, PartialEq, Eq)]
pub struct TinyError {
    pub kind: ErrorKind,
    pub line: usize,
}

} // verus!
