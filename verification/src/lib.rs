use vstd::prelude::*;

pub mod executor;
pub mod input;
pub mod mumsh;
pub mod parse_line;
pub mod strutil;
pub mod types;

verus! {

} // verus!
