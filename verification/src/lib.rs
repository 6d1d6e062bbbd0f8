use vstd::prelude::*;

pub mod pairmap;
pub mod term;
pub mod machine;
pub mod tree;
pub mod text;
pub mod parser;
pub mod programs;
pub mod stdlib;

verus! {

} // verus!
