use vstd::prelude::*;

pub mod builder;
pub mod flags;
pub mod ids;
pub mod scope;
pub mod symbol;

verus! {

} // verus!
