use vstd::prelude::*;

use crate::text::{hex_width, push_char, push_hex};
use crate::version::VersionKey;
use vstd::string::StringExecFns;

pub mod normalize;
pub mod post;
pub mod pre;
pub mod query;
pub mod table;

verus! {

/// Where a query, its schema or the game data do not fit together, and why.
#[derive(Debug)]
pub struct MismatchError {
    pub field: String,
    pub reason: String,
}

/// Failures of the search service.
#[derive(Debug)]
pub enum Error {
    /// A field holds a value of a type that the query cannot use.
    FieldType(String),
    /// The query cannot be understood.
    MalformedQuery(String),
    /// The query does not fit the sheet schema.
    QuerySchemaMismatch(MismatchError),
    /// The query does not fit the game data.
    QueryGameMismatch(MismatchError),
    /// The sheet schema does not fit the game data.
    SchemaGameMismatch(MismatchError),
    /// No search is known under this cursor (a UUID, by its 128 bits).
    UnknownCursor(u128),
    /// Any other failure, with its description.
    Failure(String),
}

/// The mathematical value of a search failure. `Unsupported` stands for a
/// query and schema that this service does not handle at all.
pub enum ErrorModel {
    FieldType(Seq<char>),
    MalformedQuery(Seq<char>),
    QuerySchemaMismatch(Seq<char>, Seq<char>),
    QueryGameMismatch(Seq<char>, Seq<char>),
    SchemaGameMismatch(Seq<char>, Seq<char>),
    UnknownCursor(u128),
    Failure(Seq<char>),
    Unsupported,
}

impl Error {
    pub open spec fn model(self) -> ErrorModel {
        match self {
            Error::FieldType(s) => ErrorModel::FieldType(s@),
            Error::MalformedQuery(s) => ErrorModel::MalformedQuery(s@),
            Error::QuerySchemaMismatch(m) => ErrorModel::QuerySchemaMismatch(m.field@, m.reason@),
            Error::QueryGameMismatch(m) => ErrorModel::QueryGameMismatch(m.field@, m.reason@),
            Error::SchemaGameMismatch(m) => ErrorModel::SchemaGameMismatch(m.field@, m.reason@),
            Error::UnknownCursor(c) => ErrorModel::UnknownCursor(c),
            Error::Failure(s) => ErrorModel::Failure(s@),
        }
    }
}

/// The hyphenated form of a UUID: its 128 bits as 32 lower-case hexadecimal
/// digits, most significant first, in groups of 8, 4, 4, 4 and 12 joined by
/// `-`.
pub open spec fn cursor_text(cursor: u128) -> Seq<char> {
    let high = cursor as nat / 0x1_0000_0000_0000_0000;
    let low = cursor as nat % 0x1_0000_0000_0000_0000;
    hex_width(high / 0x1_0000_0000, 8) + seq!['-'] + hex_width(high / 0x1_0000, 4) + seq!['-'] + hex_width(high, 4)
        + seq!['-'] + hex_width(low / 0x1_0000_0000_0000, 4) + seq!['-'] + hex_width(low, 12)
}

/// Appends the hyphenated form of a cursor.
pub fn push_cursor(out: &mut String, cursor: u128)
    ensures
        final(out)@ == old(out)@ + cursor_text(cursor),
{
    let high: u64 = (cursor / 0x1_0000_0000_0000_0000u128) as u64;
    let low: u64 = (cursor % 0x1_0000_0000_0000_0000u128) as u64;
    push_hex(out, high / 0x1_0000_0000, 8);
    push_char(out, '-');
    push_hex(out, high / 0x1_0000, 4);
    push_char(out, '-');
    push_hex(out, high, 4);
    push_char(out, '-');
    push_hex(out, low / 0x1_0000_0000_0000, 4);
    push_char(out, '-');
    push_hex(out, low, 12);
    assert(out@ =~= old(out)@ + cursor_text(cursor));
}

fn mismatch_message(prefix: &str, m: &MismatchError) -> (out: String)
    ensures
        out@ == prefix@ + m.field@ + ": "@ + m.reason@,
{
    let mut out = prefix.to_owned();
    out.append(m.field.as_str());
    out.append(": ");
    out.append(m.reason.as_str());
    out
}

impl Error {
    /// The message this error is reported with.
    pub fn message(&self) -> (out: String)
        ensures
            match self {
                Error::FieldType(s) => out@ == "invalid field type: "@ + s@,
                Error::MalformedQuery(s) => out@ == "malformed query: "@ + s@,
                Error::QuerySchemaMismatch(m) => out@ == "query <-> schema mismatch on "@ + m.field@ + ": "@
                    + m.reason@,
                Error::QueryGameMismatch(m) => out@ == "query <-> game mismatch on "@ + m.field@ + ": "@
                    + m.reason@,
                Error::SchemaGameMismatch(m) => out@ == "schema <-> game mismatch on "@ + m.field@ + ": "@
                    + m.reason@,
                Error::UnknownCursor(c) => out@ == "unknown cursor "@ + cursor_text(*c),
                Error::Failure(s) => out@ == s@,
            },
    {
        match self {
            Error::FieldType(s) => {
                let mut out = "invalid field type: ".to_owned();
                out.append(s.as_str());
                out
            },
            Error::MalformedQuery(s) => {
                let mut out = "malformed query: ".to_owned();
                out.append(s.as_str());
                out
            },
            Error::QuerySchemaMismatch(m) => mismatch_message("query <-> schema mismatch on ", m),
            Error::QueryGameMismatch(m) => mismatch_message("query <-> game mismatch on ", m),
            Error::SchemaGameMismatch(m) => mismatch_message("schema <-> game mismatch on ", m),
            Error::UnknownCursor(cursor) => {
                let mut out = "unknown cursor ".to_owned();
                push_cursor(&mut out, *cursor);
                out
            },
            Error::Failure(s) => s.clone(),
        }
    }
}

/// A request to the search index: queries tied to their sheets, against one
/// version of the game data.
#[derive(Debug)]
pub enum SearchRequest {
    Query { version: VersionKey, queries: Vec<(String, post::Node)> },
}

} // verus!
