//! Safe decoding of native file-dialog results.
//!
//! The native library reports a multi-selection as one packed buffer of
//! null-terminated path strings together with an index table locating each
//! string's start. This crate holds that layout as plain values and verifies
//! the logic that walks it: decoding a pathset into owned byte paths,
//! building synthetic pathsets, and mapping raw dialog outcomes to results.
//! The foreign boundary itself lives outside this crate and hands in plain
//! values only.

pub mod dialog;
pub mod error;
pub mod pathset;

pub use error::NFDErrorType;
pub use error::NFDResult;
pub use pathset::PathSet;
