use vstd::prelude::*;

pub mod admin;
pub mod health;
pub mod api1;

verus! {

} // verus!
