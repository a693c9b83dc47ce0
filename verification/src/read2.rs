use vstd::prelude::*;

use vstd::string::StringExecFns;

verus! {

/// Where a filter, a schema or the game data do not fit together, and why.
#[derive(Debug)]
pub struct MismatchError {
    pub field: String,
    pub reason: String,
}

/// Failures of reading rows with the second reader.
#[derive(Debug)]
pub enum Error {
    /// The filter does not fit the sheet schema.
    FilterSchemaMismatch(MismatchError),
    /// The sheet schema does not fit the game data.
    SchemaGameMismatch(MismatchError),
    /// Any other failure, with its description.
    Failure(String),
}

impl Error {
    /// The message this error is reported with.
    pub open spec fn message_spec(self) -> Seq<char> {
        match self {
            Error::FilterSchemaMismatch(m) => "filter <-> schema mismatch on "@ + m.field@ + ": "@ + m.reason@,
            Error::SchemaGameMismatch(m) => "schema <-> game mismatch on "@ + m.field@ + ": "@ + m.reason@,
            Error::Failure(s) => s@,
        }
    }

    /// The message this error is reported with.
    pub fn message(&self) -> (out: String)
        ensures
            out@ == self.message_spec(),
    {
        match self {
            Error::FilterSchemaMismatch(m) => {
                let mut out = "filter <-> schema mismatch on ".to_owned();
                out.append(m.field.as_str());
                out.append(": ");
                out.append(m.reason.as_str());
                out
            },
            Error::SchemaGameMismatch(m) => {
                let mut out = "schema <-> game mismatch on ".to_owned();
                out.append(m.field.as_str());
                out.append(": ");
                out.append(m.reason.as_str());
                out
            },
            Error::Failure(s) => s.clone(),
        }
    }
}

} // verus!
