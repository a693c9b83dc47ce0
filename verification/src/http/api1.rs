use vstd::prelude::*;

pub mod error;
pub mod extract;
pub mod filter;
pub mod read;
pub mod search;
pub mod sheet;
pub mod version;

verus! {

} // verus!
