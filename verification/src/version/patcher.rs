use vstd::prelude::*;

use crate::text::{decimal, push_decimal};
use vstd::string::StringExecFns;

verus! {

// ---------------------------------------------------------------------------
// Whether a patch must be fetched.
// ---------------------------------------------------------------------------
/// What is found at the path where a patch is kept.
#[derive(Debug, Clone, Copy, PartialEq, Eq, Structural)]
pub enum PatchFile {
    /// Nothing is there.
    Missing,
    /// Something other than a file is there.
    NotAFile,
    /// A file of the given size in bytes is there.
    File(u64),
}

/// Why the path of a patch cannot hold it.
#[derive(Debug, Clone, Copy, PartialEq, Eq, Structural)]
pub enum PatchFileError {
    NotAFile,
}

/// Whether the patch of `size` bytes must be fetched: where nothing is at its
/// path, or a file of another size (a partial download); a path that holds
/// something other than a file is an error.
pub fn should_fetch_patch(file: PatchFile, size: u64) -> (out: Result<bool, PatchFileError>)
    ensures
        match file {
            PatchFile::Missing => out == Ok::<bool, PatchFileError>(true),
            PatchFile::NotAFile => out == Err::<bool, PatchFileError>(PatchFileError::NotAFile),
            PatchFile::File(n) => out == Ok::<bool, PatchFileError>(n != size),
        },
{
    match file {
        PatchFile::Missing => Ok(true),
        PatchFile::NotAFile => Err(PatchFileError::NotAFile),
        PatchFile::File(n) => Ok(n != size),
    }
}

pub open spec fn missing_length_message(url: Seq<char>) -> Seq<char> {
    "no content-length supplied for "@ + url
}

pub open spec fn length_mismatch_message(expected: u64, got: u64) -> Seq<char> {
    "unexpected content-length: expected "@ + decimal(expected as nat) + ", got "@ + decimal(got as nat)
}

/// Checks the length that the server announces for a patch against the
/// patch's size: a response without a length, or with another one, is
/// refused.
pub fn check_content_length(content_length: Option<u64>, size: u64, url: &str) -> (out: Result<(), String>)
    ensures
        match content_length {
            None => out matches Err(m) && m@ == missing_length_message(url@),
            Some(n) => if n == size {
                out is Ok
            } else {
                out matches Err(m) && m@ == length_mismatch_message(size, n)
            },
        },
{
    match content_length {
        None => {
            let mut message = "no content-length supplied for ".to_owned();
            message.append(url);
            Err(message)
        },
        Some(n) => {
            if n == size {
                Ok(())
            } else {
                let mut message = "unexpected content-length: expected ".to_owned();
                push_decimal(&mut message, size);
                message.append(", got ");
                push_decimal(&mut message, n);
                Err(message)
            }
        },
    }
}

} // verus!
