//! Search candidate speedcubing algorithms for the last-layer cases that they
//! solve, alone or chained two at a time.
use vstd::prelude::*;

pub mod moves;
pub mod cube;
pub mod text;
pub mod alg;
pub mod enumerate;
pub mod search;
pub mod candidates;
pub mod optimize;
pub mod cli;
pub mod pieces;
pub mod json;

verus! {
} // verus!
