use vstd::prelude::*;

pub mod error;
pub mod optimality;
pub mod output;
pub mod parser;
pub mod round_trip;
pub mod solver;
pub mod validate;

verus! {

} // verus!
