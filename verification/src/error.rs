use vstd::prelude::*;

verus! {

/// Every outcome of a dialog call other than a successful selection.
#[derive(Clone, Copy, Debug, PartialEq, Eq, Structural)]
pub enum NFDErrorType {
    /// The native layer reported an error; the diagnostic accessor has
    /// details.
    ProgrammaticError,
    /// The user dismissed the dialog without selecting anything; a normal
    /// outcome, not a failure.
    CancelledByUser,
    /// A multi-selection result violated the native layout's invariants; a
    /// defensive check that keeps every read inside the buffer's bounds.
    MalformedPathset,
}

pub type NFDResult<T> = Result<T, NFDErrorType>;

} // verus!
