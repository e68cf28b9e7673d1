//! Fixed-capacity containers: a double-ended ring-buffer queue and a vector, each holding at
//! most `N` elements, with their contents and invariants stated and proved.
use vstd::prelude::*;

pub mod stack_dequeue;
pub mod stack_vec;

verus! {

} // verus!
