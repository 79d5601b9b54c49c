use vstd::prelude::*;

pub mod config;
pub mod control;
pub mod names;
pub mod probe;
pub mod registry;
pub mod selector;

verus! {

} // verus!
