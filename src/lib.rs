use vstd::prelude::*;

pub mod config;
pub mod engine;
pub mod laws;
pub mod lines;
pub mod progress;
pub mod seen;

verus! {

} // verus!
