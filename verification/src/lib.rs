use vstd::prelude::*;

pub mod asset;
pub mod claims;
pub mod data;
pub mod excel;
pub mod http;
pub mod language;
pub mod read;
pub mod read2;
pub mod schema;
pub mod search;
pub mod text;
pub mod texture;
pub mod version;

verus! {

} // verus!
