use vstd::prelude::*;

pub mod chance;
pub mod grid;
pub mod search;
pub mod game;
pub mod text;
pub mod ai;
pub mod sequence;
pub mod shield;
pub mod controls;
pub mod cli;
pub mod pacing;
pub mod session;
pub mod scenarios;
pub mod tensors;
pub mod http;
pub mod frame;

verus! {

} // verus!
