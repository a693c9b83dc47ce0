use vstd::prelude::*;

pub mod auth;
pub mod error;
pub mod version;

verus! {

} // verus!
