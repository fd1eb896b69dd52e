use vstd::prelude::*;

pub mod delivery;
pub mod errors;
pub mod parser;
pub mod simple_sublist;

verus! {

} // verus!
