use vstd::prelude::*;

use crate::{asset, schema, search};
use vstd::string::StringExecFns;

verus! {

/// Failures reported to API callers.
#[derive(Debug)]
pub enum Error {
    /// The requested resource does not exist.
    NotFound(String),
    /// The request is malformed or cannot be served as asked.
    Invalid(String),
    /// An internal failure, with its description (not shown to callers).
    Other(String),
}

impl Error {
    /// The message shown to callers.
    pub open spec fn message_spec(self) -> Seq<char> {
        match self {
            Error::NotFound(s) => "not found: "@ + s@,
            Error::Invalid(s) => "invalid request: "@ + s@,
            Error::Other(_) => "internal server error"@,
        }
    }

    /// The message shown to callers.
    pub fn message(&self) -> (out: String)
        ensures
            out@ == self.message_spec(),
    {
        match self {
            Error::NotFound(s) => {
                let mut out = "not found: ".to_owned();
                out.append(s.as_str());
                out
            },
            Error::Invalid(s) => {
                let mut out = "invalid request: ".to_owned();
                out.append(s.as_str());
                out
            },
            Error::Other(_) => "internal server error".to_owned(),
        }
    }

    /// The HTTP status the error is answered with.
    pub fn status_code(&self) -> (out: u16)
        ensures
            out == match self {
                Error::NotFound(_) => 404u16,
                Error::Invalid(_) => 400u16,
                Error::Other(_) => 500u16,
            },
    {
        match self {
            Error::NotFound(_) => 404,
            Error::Invalid(_) => 400,
            Error::Other(_) => 500,
        }
    }

    /// How an asset failure is reported: a missing file is not found, a
    /// failure is internal, and anything else is an invalid request carrying
    /// the failure's message.
    pub fn from_asset(error: asset::Error) -> (out: Error)
        ensures
            match error {
                asset::Error::NotFound(value) => out == Error::NotFound(value),
                asset::Error::Failure(inner) => out == Error::Other(inner),
                _ => out matches Error::Invalid(m) && m@ == error.message_spec(),
            },
    {
        match error {
            asset::Error::NotFound(value) => Error::NotFound(value),
            asset::Error::Failure(inner) => Error::Other(inner),
            other => Error::Invalid(other.message()),
        }
    }

    /// How a schema failure is reported: a failure is internal, anything else
    /// is an invalid request carrying its message.
    pub fn from_schema(error: schema::Error) -> (out: Error)
        ensures
            match error {
                schema::Error::Failure(inner) => out == Error::Other(inner),
                _ => out matches Error::Invalid(m) && m@ == error.message_spec(),
            },
    {
        match error {
            schema::Error::Failure(inner) => Error::Other(inner),
            other => Error::Invalid(other.message()),
        }
    }

    /// How a search failure is reported: a failure is internal, anything
    /// else is an invalid request carrying its message.
    pub fn from_search(error: search::Error) -> (out: Error)
        ensures
            match error {
                search::Error::Failure(inner) => out == Error::Other(inner),
                search::Error::FieldType(s) => out matches Error::Invalid(m) && m@ == "invalid field type: "@ + s@,
                search::Error::MalformedQuery(s) => out matches Error::Invalid(m) && m@ == "malformed query: "@
                    + s@,
                search::Error::QuerySchemaMismatch(x) => out matches Error::Invalid(m) && m@
                    == "query <-> schema mismatch on "@ + x.field@ + ": "@ + x.reason@,
                search::Error::QueryGameMismatch(x) => out matches Error::Invalid(m) && m@
                    == "query <-> game mismatch on "@ + x.field@ + ": "@ + x.reason@,
                search::Error::SchemaGameMismatch(x) => out matches Error::Invalid(m) && m@
                    == "schema <-> game mismatch on "@ + x.field@ + ": "@ + x.reason@,
                search::Error::UnknownCursor(c) => out matches Error::Invalid(m) && m@ == "unknown cursor "@
                    + search::cursor_text(c),
            },
    {
        match error {
            search::Error::Failure(inner) => Error::Other(inner),
            other => Error::Invalid(other.message()),
        }
    }
}

} // verus!
