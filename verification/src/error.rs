//! The errors a command can end with, and how each is reported.
use vstd::prelude::*;
use crate::text::{cat, chars_of, string_of};

verus! {

/// Why a command failed. The I/O and JSON variants carry the message of the
/// underlying error.
pub enum AtlasError {
    Validation(String),
    NotFound(String),
    Io(String),
    Json(String),
}

pub open spec fn exit_code_spec(e: &AtlasError) -> i32 {
    match e {
        AtlasError::Validation(_) => 1,
        AtlasError::NotFound(_) => 3,
        AtlasError::Io(_) => 2,
        AtlasError::Json(_) => 1,
    }
}

pub open spec fn error_code_spec(e: &AtlasError) -> Seq<char> {
    match e {
        AtlasError::Validation(_) => "validation_error"@,
        AtlasError::NotFound(_) => "not_found"@,
        AtlasError::Io(_) => "io_error"@,
        AtlasError::Json(_) => "json_error"@,
    }
}

pub open spec fn message_spec(e: &AtlasError) -> Seq<char> {
    match e {
        AtlasError::Validation(m) => m@,
        AtlasError::NotFound(m) => "not found: "@ + m@,
        AtlasError::Io(m) => "io error: "@ + m@,
        AtlasError::Json(m) => "json error: "@ + m@,
    }
}

impl AtlasError {
    /// The message shown to the user.
    pub fn message(&self) -> (r: String)
        ensures
            r@ == message_spec(self),
    {
        let (head, body) = match self {
            AtlasError::Validation(m) => ("", m),
            AtlasError::NotFound(m) => ("not found: ", m),
            AtlasError::Io(m) => ("io error: ", m),
            AtlasError::Json(m) => ("json error: ", m),
        };
        let all = cat(chars_of(head).as_slice(), chars_of(body.as_str()).as_slice());
        proof {
            reveal_strlit("");
        }
        string_of(all.as_slice())
    }

    /// The process exit code: 1 for validation and JSON errors, 2 for I/O
    /// errors, 3 when something is not found.
    pub fn exit_code(&self) -> (r: i32)
        ensures
            r == exit_code_spec(self),
    {
        match self {
            AtlasError::Validation(_) => 1,
            AtlasError::NotFound(_) => 3,
            AtlasError::Io(_) => 2,
            AtlasError::Json(_) => 1,
        }
    }

    /// The machine-readable error code.
    pub fn error_code(&self) -> (r: &'static str)
        ensures
            r@ == error_code_spec(self),
    {
        match self {
            AtlasError::Validation(_) => "validation_error",
            AtlasError::NotFound(_) => "not_found",
            AtlasError::Io(_) => "io_error",
            AtlasError::Json(_) => "json_error",
        }
    }
}

} // verus!
