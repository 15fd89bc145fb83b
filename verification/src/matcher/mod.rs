use vstd::prelude::*;

pub mod laws;
pub mod scrolling;

verus! {

/// A text expansion: typing `trigger` makes the engine type `replace` in its place.
#[derive(Debug, Clone)]
pub struct Match {
    pub trigger: String,
    pub replace: String,
}

} // verus!
