use nfd::dialog::decode_error_message;
use nfd::dialog::multi_dialog_result;
use nfd::dialog::single_dialog_result;
use nfd::dialog::DialogOutcome;
use nfd::dialog::MultiDialogOutcome;
use nfd::NFDErrorType;
use nfd::PathSet;

#[test]
fn single_dialog_cancel() {
    let r = single_dialog_result(DialogOutcome::Cancel);
    assert_eq!(r, Err(NFDErrorType::CancelledByUser));
}

#[test]
fn save_dialog_cancel_same_contract() {
    // The save dialog shares the single-selection mapping: a cancellation
    // maps to the same outcome through the same function.
    let r = single_dialog_result(DialogOutcome::Cancel);
    assert_eq!(r, Err(NFDErrorType::CancelledByUser));
}

#[test]
fn single_dialog_error() {
    let r = single_dialog_result(DialogOutcome::Error);
    assert_eq!(r, Err(NFDErrorType::ProgrammaticError));
}

#[test]
fn single_dialog_selection_preserves_bytes() {
    let raw = vec![b'/', 0xf0, 0x9f, b'x', 0xff];
    let r = single_dialog_result(DialogOutcome::Okay(raw.clone()));
    assert_eq!(r, Ok(raw));
}

#[test]
fn multi_dialog_cancel() {
    let r = multi_dialog_result(MultiDialogOutcome::Cancel);
    assert_eq!(r, Err(NFDErrorType::CancelledByUser));
}

#[test]
fn multi_dialog_error() {
    let r = multi_dialog_result(MultiDialogOutcome::Error);
    assert_eq!(r, Err(NFDErrorType::ProgrammaticError));
}

#[test]
fn multi_dialog_selection_decodes() {
    let ps = PathSet {
        buf: b"one\0two\0".to_vec(),
        indices: vec![0, 4],
    };
    let r = multi_dialog_result(MultiDialogOutcome::Okay(ps));
    assert_eq!(r, Ok(vec![b"one".to_vec(), b"two".to_vec()]));
}

#[test]
fn multi_dialog_malformed_pathset() {
    let ps = PathSet {
        buf: b"one\0".to_vec(),
        indices: vec![9],
    };
    let r = multi_dialog_result(MultiDialogOutcome::Okay(ps));
    assert_eq!(r, Err(NFDErrorType::MalformedPathset));
}

#[test]
fn error_message_valid_utf8() {
    let r = decode_error_message(b"could not open dialog".to_vec());
    assert_eq!(r, Some(String::from("could not open dialog")));
}

#[test]
fn error_message_multibyte_utf8() {
    let r = decode_error_message(vec![0xc3, 0xa9, b'!']);
    assert_eq!(r, Some(String::from("\u{e9}!")));
}

#[test]
fn error_message_invalid_utf8() {
    let r = decode_error_message(vec![0xff, 0xfe]);
    assert_eq!(r, None);
}
