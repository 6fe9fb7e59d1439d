//! The errors that the crate reports.

use vstd::prelude::*;
use vstd::string::*;

verus! {

/// What went wrong, with a description.
#[derive(Debug)]
pub enum PTreeError {
    /// A filesystem call failed.
    Io(String),
    /// The cache is unusable.
    Cache(String),
    /// A record could not be encoded or decoded.
    Serialization(String),
    /// The drive does not exist.
    InvalidDrive(String),
    /// A lock was not obtained in time.
    LockTimeout(String),
    /// The scan could not run.
    Traversal(String),
}

/// The sentence that announces an error of each kind.
pub open spec fn error_heading(e: PTreeError) -> Seq<char> {
    match e {
        PTreeError::Io(_) => "IO error: "@,
        PTreeError::Cache(_) => "Cache error: "@,
        PTreeError::Serialization(_) => "Serialization error: "@,
        PTreeError::InvalidDrive(_) => "Invalid drive: "@,
        PTreeError::LockTimeout(_) => "Lock timeout: "@,
        PTreeError::Traversal(_) => "Traversal error: "@,
    }
}

/// The description that an error carries.
pub open spec fn error_detail(e: PTreeError) -> Seq<char> {
    match e {
        PTreeError::Io(s) => s@,
        PTreeError::Cache(s) => s@,
        PTreeError::Serialization(s) => s@,
        PTreeError::InvalidDrive(s) => s@,
        PTreeError::LockTimeout(s) => s@,
        PTreeError::Traversal(s) => s@,
    }
}

impl PTreeError {
    /// The error as one line of text: its heading, then its description.
    pub fn message(&self) -> (text: String)
        ensures
            text@ == error_heading(*self) + error_detail(*self),
    {
        match self {
            PTreeError::Io(s) => String::from_str("IO error: ").concat(s.as_str()),
            PTreeError::Cache(s) => String::from_str("Cache error: ").concat(s.as_str()),
            PTreeError::Serialization(s) => String::from_str("Serialization error: ").concat(s.as_str()),
            PTreeError::InvalidDrive(s) => String::from_str("Invalid drive: ").concat(s.as_str()),
            PTreeError::LockTimeout(s) => String::from_str("Lock timeout: ").concat(s.as_str()),
            PTreeError::Traversal(s) => String::from_str("Traversal error: ").concat(s.as_str()),
        }
    }
}

} // verus!
