use vstd::prelude::*;

use crate::version::{key_text, VersionKey};
use vstd::string::StringExecFns;

verus! {

/// Failures of the game data service.
#[derive(Debug)]
pub enum Error {
    /// No data is known for this version.
    UnknownVersion(VersionKey),
    /// The text does not name a known language.
    UnknownLanguage(String),
    /// Any other failure, with its description.
    Failure(String),
}

impl Error {
    /// The message this error is reported with.
    pub fn message(&self) -> (out: String)
        ensures
            out@ == match self {
                Error::UnknownVersion(key) => "unknown version "@ + key_text(*key),
                Error::UnknownLanguage(name) => "unknown language \""@ + name@ + "\""@,
                Error::Failure(s) => s@,
            },
    {
        match self {
            Error::UnknownVersion(key) => {
                let mut out = "unknown version ".to_owned();
                let text = key.to_string();
                out.append(text.as_str());
                out
            },
            Error::UnknownLanguage(name) => {
                let mut out = "unknown language \"".to_owned();
                out.append(name.as_str());
                out.append("\"");
                out
            },
            Error::Failure(s) => s.clone(),
        }
    }
}

/// The versions whose game data is loaded and can be read.
pub struct Data {
    versions: Vec<VersionKey>,
}

impl Data {
    /// The versions that are loaded.
    pub closed spec fn loaded(&self) -> Seq<VersionKey> {
        self.versions@
    }

    /// Data with the given versions loaded.
    pub fn new(versions: Vec<VersionKey>) -> (out: Data)
        ensures
            out.loaded() == versions@,
    {
        Data { versions }
    }

    /// Whether the data of a version is loaded.
    pub fn has_version(&self, key: VersionKey) -> (out: bool)
        ensures
            out == self.loaded().contains(key),
    {
        let mut i: usize = 0;
        while i < self.versions.len()
            invariant
                i <= self.versions@.len(),
                forall|j: int| 0 <= j < i ==> self.versions@[j] != key,
            decreases self.versions@.len() - i,
        {
            if self.versions[i] == key {
                assert(self.versions@[i as int] == key);
                return true;
            }
            i = i + 1;
        }
        false
    }
}

} // verus!
