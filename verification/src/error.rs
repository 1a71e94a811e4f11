//! Error type shared by the audio and video halves of the library.
use vstd::prelude::*;

verus! {

/// Why an operation was refused.
#[derive(Clone, Debug, PartialEq, Eq)]
pub enum Error {
    /// An argument, option or state is not acceptable; the text says which.
    InvalidArgument(String),
    /// The request is meaningful but not implemented; the text says which.
    Unsupported(String),
    /// A buffer does not hold what the operation would read or write.
    BufferTooSmall,
}

impl Error {
    /// An invalid-argument error with the given text.
    pub open spec fn is_invalid(self, text: Seq<char>) -> bool {
        match self {
            Error::InvalidArgument(t) => t@ == text,
            _ => false,
        }
    }

    /// An unsupported-request error with the given text.
    pub open spec fn is_unsupported(self, text: Seq<char>) -> bool {
        match self {
            Error::Unsupported(t) => t@ == text,
            _ => false,
        }
    }
}

pub(crate) fn invalid(text: &str) -> (e: Error)
    ensures
        e.is_invalid(text@),
{
    Error::InvalidArgument(text.to_owned())
}

pub(crate) fn unsupported(text: &str) -> (e: Error)
    ensures
        e.is_unsupported(text@),
{
    Error::Unsupported(text.to_owned())
}

} // verus!
