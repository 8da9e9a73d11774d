use vstd::prelude::*;

verus! {

/// The category of an [`Error`].
#[derive(Clone, Copy, Debug, PartialEq, Eq, Structural)]
pub enum ErrorKind {
    /// An error that fits no narrower category.
    Other,
}

/// An I/O-style error: a kind and a human readable message.
#[derive(Debug)]
pub struct Error {
    pub kind: ErrorKind,
    pub message: String,
}

/// Wraps the text of any error as an error of kind [`ErrorKind::Other`].
pub fn err_str(message: String) -> (e: Error)
    ensures
        e.kind == ErrorKind::Other,
        e.message@ == message@,
{
    Error { kind: ErrorKind::Other, message }
}

} // verus!
