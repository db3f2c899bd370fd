//! Errors of the outside world as plain values.

use vstd::prelude::*;

verus! {

/// The kinds of error that the proxy tells apart or reports.
#[derive(Debug, Clone, Copy, PartialEq, Eq, Structural)]
pub enum IoErrorKind {
    AddrNotAvailable,
    InvalidData,
    InvalidInput,
    NotFound,
    TimedOut,
    WouldBlock,
    Other,
}

/// An error with a message.
#[derive(Debug)]
pub struct IoError {
    pub kind: IoErrorKind,
    pub message: String,
}

} // verus!
