//! The errors of the library.

use crate::chars;
use crate::decimal;
use vstd::prelude::*;

verus! {

/// Why an operation was refused or failed.
#[derive(Debug)]
pub enum Error {
    Validation(String),
    NotFound(String),
    Conflict(String),
    Locked(String),
    Closed,
    SchemaVersion { found: i64, supported: i64 },
    InvalidVector(String),
    StaleRevision(String),
    Index(String),
    Storage(String),
    Io(String),
    Json(String),
}

/// An error with its texts as character sequences.
pub enum ErrorView {
    Validation(Seq<char>),
    NotFound(Seq<char>),
    Conflict(Seq<char>),
    Locked(Seq<char>),
    Closed,
    SchemaVersion { found: int, supported: int },
    InvalidVector(Seq<char>),
    StaleRevision(Seq<char>),
    Index(Seq<char>),
    Storage(Seq<char>),
    Io(Seq<char>),
    Json(Seq<char>),
}

impl View for Error {
    type V = ErrorView;

    open spec fn view(&self) -> ErrorView {
        match self {
            Error::Validation(m) => ErrorView::Validation(m@),
            Error::NotFound(m) => ErrorView::NotFound(m@),
            Error::Conflict(m) => ErrorView::Conflict(m@),
            Error::Locked(m) => ErrorView::Locked(m@),
            Error::Closed => ErrorView::Closed,
            Error::SchemaVersion { found, supported } => ErrorView::SchemaVersion {
                found: *found as int,
                supported: *supported as int,
            },
            Error::InvalidVector(m) => ErrorView::InvalidVector(m@),
            Error::StaleRevision(m) => ErrorView::StaleRevision(m@),
            Error::Index(m) => ErrorView::Index(m@),
            Error::Storage(m) => ErrorView::Storage(m@),
            Error::Io(m) => ErrorView::Io(m@),
            Error::Json(m) => ErrorView::Json(m@),
        }
    }
}

/// The stable code of an error.
pub open spec fn error_code(e: ErrorView) -> Seq<char> {
    match e {
        ErrorView::Validation(_) | ErrorView::Json(_) => "validation"@,
        ErrorView::NotFound(_) => "not_found"@,
        ErrorView::Conflict(_) => "conflict"@,
        ErrorView::Locked(_) => "locked"@,
        ErrorView::Closed => "closed"@,
        ErrorView::SchemaVersion { .. } => "schema_version"@,
        ErrorView::InvalidVector(_) => "invalid_vector"@,
        ErrorView::StaleRevision(_) => "stale_revision"@,
        ErrorView::Index(_) => "index"@,
        ErrorView::Storage(_) => "storage"@,
        ErrorView::Io(_) => "io"@,
    }
}

/// The message of an error, for people.
pub open spec fn error_message(e: ErrorView) -> Seq<char> {
    match e {
        ErrorView::Validation(m) => "invalid input: "@ + m,
        ErrorView::NotFound(m) => "record not found: "@ + m,
        ErrorView::Conflict(m) => "conflict: "@ + m,
        ErrorView::Locked(m) => "data directory is already open: "@ + m,
        ErrorView::Closed => "knowledge base is closed"@,
        ErrorView::SchemaVersion { found, supported } => "unsupported database schema "@
            + decimal::integer_text(found) + "; maximum supported version is "@ + decimal::integer_text(supported),
        ErrorView::InvalidVector(m) => "invalid vector: "@ + m,
        ErrorView::StaleRevision(m) => "stale content: "@ + m,
        ErrorView::Index(m) => "index unavailable: "@ + m,
        ErrorView::Storage(m) => "SQLite: "@ + m,
        ErrorView::Io(m) => "I/O: "@ + m,
        ErrorView::Json(m) => "JSON: "@ + m,
    }
}

impl Error {
    /// A stable code that callers can match on.
    pub fn code(&self) -> (out: &'static str)
        ensures
            out@ == error_code(self@),
            self matches Error::Validation(_) ==> out@ == "validation"@,
            self matches Error::Json(_) ==> out@ == "validation"@,
            self matches Error::NotFound(_) ==> out@ == "not_found"@,
            self matches Error::Conflict(_) ==> out@ == "conflict"@,
            self matches Error::Locked(_) ==> out@ == "locked"@,
            self matches Error::InvalidVector(_) ==> out@ == "invalid_vector"@,
            self matches Error::StaleRevision(_) ==> out@ == "stale_revision"@,
            self matches Error::Index(_) ==> out@ == "index"@,
            self matches Error::Storage(_) ==> out@ == "storage"@,
            self matches Error::Io(_) ==> out@ == "io"@,
            self matches Error::Closed ==> out@ == "closed"@,
            self matches Error::SchemaVersion { .. } ==> out@ == "schema_version"@,
    {
        match self {
            Error::Validation(_) => "validation",
            Error::Json(_) => "validation",
            Error::NotFound(_) => "not_found",
            Error::Conflict(_) => "conflict",
            Error::Locked(_) => "locked",
            Error::Closed => "closed",
            Error::SchemaVersion { .. } => "schema_version",
            Error::InvalidVector(_) => "invalid_vector",
            Error::StaleRevision(_) => "stale_revision",
            Error::Index(_) => "index",
            Error::Storage(_) => "storage",
            Error::Io(_) => "io",
        }
    }

    /// The message of the error, for people.
    pub fn message(&self) -> (out: String)
        ensures
            out@ == error_message(self@),
            self matches Error::Validation(m) ==> out@ == "invalid input: "@ + m@,
            self matches Error::Json(m) ==> out@ == "JSON: "@ + m@,
            self matches Error::NotFound(m) ==> out@ == "record not found: "@ + m@,
            self matches Error::Conflict(m) ==> out@ == "conflict: "@ + m@,
            self matches Error::Locked(m) ==> out@ == "data directory is already open: "@ + m@,
            self matches Error::InvalidVector(m) ==> out@ == "invalid vector: "@ + m@,
            self matches Error::StaleRevision(m) ==> out@ == "stale content: "@ + m@,
            self matches Error::Index(m) ==> out@ == "index unavailable: "@ + m@,
            self matches Error::Storage(m) ==> out@ == "SQLite: "@ + m@,
            self matches Error::Io(m) ==> out@ == "I/O: "@ + m@,
            self matches Error::Closed ==> out@ == "knowledge base is closed"@,
            self matches Error::SchemaVersion { found, supported } ==> out@ == "unsupported database schema "@ + decimal::integer_text(
                found as int,
            ) + "; maximum supported version is "@ + decimal::integer_text(supported as int),
    {
        match self {
            Error::Validation(m) => chars::concat("invalid input: ", m.as_str()),
            Error::NotFound(m) => chars::concat("record not found: ", m.as_str()),
            Error::Conflict(m) => chars::concat("conflict: ", m.as_str()),
            Error::Locked(m) => chars::concat("data directory is already open: ", m.as_str()),
            Error::Closed => "knowledge base is closed".to_owned(),
            Error::SchemaVersion { found, supported } => {
                let mut out = chars::concat("unsupported database schema ", decimal::decimal_i64(*found).as_str());
                out.append("; maximum supported version is ");
                out.append(decimal::decimal_i64(*supported).as_str());
                out
            },
            Error::InvalidVector(m) => chars::concat("invalid vector: ", m.as_str()),
            Error::StaleRevision(m) => chars::concat("stale content: ", m.as_str()),
            Error::Index(m) => chars::concat("index unavailable: ", m.as_str()),
            Error::Storage(m) => chars::concat("SQLite: ", m.as_str()),
            Error::Io(m) => chars::concat("I/O: ", m.as_str()),
            Error::Json(m) => chars::concat("JSON: ", m.as_str()),
        }
    }
}

} // verus!
