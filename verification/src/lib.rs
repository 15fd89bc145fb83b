use vstd::prelude::*;

pub mod clock;
pub mod config;
pub mod context;
pub mod event;
pub mod matcher;

verus! {

} // verus!
