//! Errors of the codec.

use vstd::prelude::*;

verus! {

/// Why a version resource could not be read or written.
#[derive(Debug, Clone)]
pub enum Error {
    /// The data ended in the middle of a field, a string or an alignment gap.
    Underrun,
    /// The fixed file record does not start with its signature; holds what was found.
    InvalidSignature(u32),
    /// A block header names a data type other than binary (0) or text (1).
    InvalidDataType(u16),
    /// A child block of the version resource has a key other than
    /// `StringFileInfo` or `VarFileInfo`; holds that key.
    UnknownChild(String),
    /// Stored code units are not valid UTF-16.
    InvalidUtf16,
    /// A block is longer than its 16-bit length field can state.
    TooLarge,
}

/// What an [`Error`] holds, for contracts.
pub enum ErrorView {
    Underrun,
    InvalidSignature(u32),
    InvalidDataType(u16),
    UnknownChild(Seq<char>),
    InvalidUtf16,
    TooLarge,
}

impl View for Error {
    type V = ErrorView;

    open spec fn view(&self) -> ErrorView {
        match self {
            Error::Underrun => ErrorView::Underrun,
            Error::InvalidSignature(s) => ErrorView::InvalidSignature(*s),
            Error::InvalidDataType(t) => ErrorView::InvalidDataType(*t),
            Error::UnknownChild(k) => ErrorView::UnknownChild(k@),
            Error::InvalidUtf16 => ErrorView::InvalidUtf16,
            Error::TooLarge => ErrorView::TooLarge,
        }
    }
}

impl Error {
    /// Whether the data is not laid out as the format demands.
    pub fn is_format_error(&self) -> (r: bool)
        ensures
            r == (self@ is Underrun || self@ is InvalidSignature || self@ is InvalidDataType
                || self@ is UnknownChild),
    {
        match self {
            Error::Underrun => true,
            Error::InvalidSignature(_) => true,
            Error::InvalidDataType(_) => true,
            Error::UnknownChild(_) => true,
            _ => false,
        }
    }

    /// Whether stored text could not be decoded.
    pub fn is_encoding_error(&self) -> (r: bool)
        ensures
            r == (self@ is InvalidUtf16),
    {
        match self {
            Error::InvalidUtf16 => true,
            _ => false,
        }
    }
}

} // verus!
