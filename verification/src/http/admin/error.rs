use vstd::prelude::*;

use vstd::string::StringExecFns;

verus! {

/// A failure of an admin page, with its description.
#[derive(Debug)]
pub struct Error(pub String);

impl Error {
    /// The body of the response to a failed admin request.
    pub fn response_text(&self) -> (out: String)
        ensures
            out@ == "error: "@ + self.0@,
    {
        let mut out = "error: ".to_owned();
        out.append(self.0.as_str());
        out
    }

    /// Failed admin requests are answered as internal errors.
    pub fn status_code(&self) -> (out: u16)
        ensures
            out == 500,
    {
        500
    }
}

} // verus!
