use vstd::prelude::*;

use crate::error::NFDErrorType;
use crate::error::NFDResult;
use crate::pathset::PathSet;
use crate::pathset::paths_view;

verus! {

/// What one single-selection dialog invocation reported: the selected
/// path's raw bytes, a user cancellation, or a native-side error.
pub enum DialogOutcome {
    Okay(Vec<u8>),
    Cancel,
    Error,
}

/// What one multi-selection dialog invocation reported: a pathset holding
/// the selected paths, a user cancellation, or a native-side error.
pub enum MultiDialogOutcome {
    Okay(PathSet),
    Cancel,
    Error,
}

/// The text that a byte sequence decodes to when it is valid UTF-8, and
/// nothing when it is not; it depends on the bytes alone.
pub uninterp spec fn utf8_decoding(bytes: Seq<u8>) -> Option<Seq<char>>;

/// Convert the native diagnostic message's bytes into owned text. The
/// message is expected to be valid UTF-8, since it is diagnostic text and
/// not a filesystem path; bytes that are not are reported as `None`, which
/// callers treat as fatal.
///
/// Relies on `String::from_utf8`: it succeeds exactly on valid UTF-8 input
/// and returns the text those bytes encode.
#[verifier::external_body]
pub fn decode_error_message(bytes: Vec<u8>) -> (r: Option<String>)
    ensures
        r is Some <==> utf8_decoding(bytes@) is Some,
        r is Some ==> r->Some_0@ == utf8_decoding(bytes@)->Some_0,
{
    match String::from_utf8(bytes) {
        Ok(text) => Some(text),
        Err(_) => None,
    }
}

/// Map a single-selection outcome to the caller's result. A selected path
/// is passed through byte for byte; cancellation and native errors become
/// the matching tagged errors.
pub fn single_dialog_result(outcome: DialogOutcome) -> (r: NFDResult<Vec<u8>>)
    ensures
        outcome is Okay ==> r == Ok::<Vec<u8>, NFDErrorType>(outcome->Okay_0),
        outcome is Cancel ==> r == Err::<Vec<u8>, NFDErrorType>(NFDErrorType::CancelledByUser),
        outcome is Error ==> r == Err::<Vec<u8>, NFDErrorType>(NFDErrorType::ProgrammaticError),
{
    match outcome {
        DialogOutcome::Okay(bytes) => Ok(bytes),
        DialogOutcome::Cancel => Err(NFDErrorType::CancelledByUser),
        DialogOutcome::Error => Err(NFDErrorType::ProgrammaticError),
    }
}

/// Map a multi-selection outcome to the caller's result: on success the
/// pathset is decoded, and a pathset violating the native layout's
/// invariants is reported as malformed; cancellation and native errors
/// become the matching tagged errors.
pub fn multi_dialog_result(outcome: MultiDialogOutcome) -> (r: NFDResult<Vec<Vec<u8>>>)
    ensures
        outcome is Okay ==> {
            &&& (r is Ok <==> outcome->Okay_0.decodable())
            &&& (r is Ok ==> paths_view(r->Ok_0@) == outcome->Okay_0.paths())
            &&& (r is Err ==> r->Err_0 == NFDErrorType::MalformedPathset)
        },
        outcome is Cancel ==> r == Err::<Vec<Vec<u8>>, NFDErrorType>(NFDErrorType::CancelledByUser),
        outcome is Error ==> r == Err::<Vec<Vec<u8>>, NFDErrorType>(NFDErrorType::ProgrammaticError),
{
    match outcome {
        MultiDialogOutcome::Okay(ps) => ps.decode(),
        MultiDialogOutcome::Cancel => Err(NFDErrorType::CancelledByUser),
        MultiDialogOutcome::Error => Err(NFDErrorType::ProgrammaticError),
    }
}

} // verus!
