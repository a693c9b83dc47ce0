use vstd::prelude::*;

verus! {

/// The credentials that admin requests must present.
#[derive(Debug)]
pub struct BasicAuth {
    pub username: String,
    pub password: String,
}

impl BasicAuth {
    /// Whether a request presenting these basic credentials (user name and
    /// password), or none, may pass.
    pub fn authenticated(&self, credentials: Option<(&str, &str)>) -> (out: bool)
        ensures
            out == match credentials {
                Some((user, password)) => user@ == self.username@ && password@ == self.password@,
                None => false,
            },
    {
        match credentials {
            Some((user, password)) => {
                let user = user.to_owned();
                let password = password.to_owned();
                user == self.username && password == self.password
            },
            None => false,
        }
    }

    /// The challenge sent with a refused admin request.
    pub fn challenge() -> (out: &'static str)
        ensures
            out@ == "Basic realm=\"boilmaster\", charset=\"UTF-8\""@,
    {
        "Basic realm=\"boilmaster\", charset=\"UTF-8\""
    }
}

} // verus!
