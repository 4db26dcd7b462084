use vstd::prelude::*;

pub mod laws;
pub mod node;
pub mod protocol;
pub mod storage;

verus! {

} // verus!
