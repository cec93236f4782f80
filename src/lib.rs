//! Line search over in-memory text, with the configuration that selects it.
use vstd::prelude::*;

pub mod config;
pub mod lines;
pub mod search;

verus! {

} // verus!
