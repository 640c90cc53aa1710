//! The error that the searches report.
use vstd::prelude::*;

verus! {

/// A file or directory could not be opened, read or listed; `message` says
/// why.
pub struct IoError {
    pub message: String,
}

} // verus!
