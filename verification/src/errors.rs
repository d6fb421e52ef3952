use vstd::prelude::*;

verus! {

/// Structured, user-displayable failure of a workspace operation.
///
/// Every error carries a reconstructable message string; no operation
/// crashes the process.
#[derive(Debug, Clone)]
pub enum MikuError {
    /// An underlying filesystem call failed; the payload is its message.
    Io(String),
    /// Persisted data could not be read as structured data.
    Json(String),
    /// A domain-level precondition on a path was violated: the target
    /// already exists, does not exist, or has no parent directory.
    Path(String),
}

/// The message carried by an error, as a sequence of characters.
pub open spec fn spec_message(e: MikuError) -> Seq<char> {
    match e {
        MikuError::Io(m) => m@,
        MikuError::Json(m) => m@,
        MikuError::Path(m) => m@,
    }
}

/// Holds exactly when `e` is a domain-level path error with message `msg`.
pub open spec fn is_path_error(e: MikuError, msg: Seq<char>) -> bool {
    match e {
        MikuError::Path(m) => m@ == msg,
        _ => false,
    }
}

/// Holds exactly when `e` reports a filesystem failure with message `msg`.
pub open spec fn is_io_error(e: MikuError, msg: Seq<char>) -> bool {
    match e {
        MikuError::Io(m) => m@ == msg,
        _ => false,
    }
}

impl MikuError {
    /// The user-displayable message of this error.
    pub fn message(&self) -> (r: &String)
        ensures
            r@ == spec_message(*self),
    {
        match self {
            MikuError::Io(m) => m,
            MikuError::Json(m) => m,
            MikuError::Path(m) => m,
        }
    }
}

} // verus!
