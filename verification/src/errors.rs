use vstd::prelude::*;

verus! {

/// The recoverable failures a codec can report.
///
/// The precondition violations of the codecs — a Burrows-Wheeler input that
/// already contains the sentinel byte, a decode driven before any encode, and
/// a composite decode whose intermediate buffers disagree — are surfaced as
/// values of this type rather than as panics.
#[derive(Clone, Copy, PartialEq, Eq, Structural, Debug)]
pub enum CodecError {
    /// The input text contains the sentinel byte reserved by the
    /// Burrows-Wheeler transform.
    SentinelPresent,
    /// Decode was requested on a codec without a usable encoded state:
    /// before any encode, or over buffers that no encode produces.
    MissingEncodedState,
    /// The run-length expansion of the composite codec's intermediate buffer
    /// does not match the Burrows-Wheeler output it was built from.
    IntermediateMismatch,
}

/// The error classes the front ends report to their callers.
#[derive(Clone, Copy, PartialEq, Eq, Structural, Debug)]
pub enum ErrorKind {
    InternalServerError,
    NotFound,
    FailedAction,
}

/// An application-level error: a status code derived from the kind, and a
/// human-readable message.
pub struct AppError {
    pub status_code: i32,
    pub message: String,
    pub kind: ErrorKind,
}

/// The status code that belongs to each error kind.
pub open spec fn status_of(kind: ErrorKind) -> int {
    match kind {
        ErrorKind::FailedAction => 400,
        ErrorKind::NotFound => 404,
        ErrorKind::InternalServerError => 500,
    }
}

impl AppError {
    /// Builds an error of the given kind; the status code is determined by
    /// the kind alone.
    pub fn new(msg: &str, err_kind: ErrorKind) -> (r: Self)
        ensures
            r.status_code == status_of(err_kind),
            r.message@ == msg@,
            r.kind == err_kind,
    {
        let status_code: i32 = match err_kind {
            ErrorKind::FailedAction => 400,
            ErrorKind::NotFound => 404,
            ErrorKind::InternalServerError => 500,
        };

        AppError { status_code, message: msg.to_string(), kind: err_kind }
    }
}

} // verus!
