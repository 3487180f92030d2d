//! mkultra: the verified core of a small make-like build tool.
use vstd::prelude::*;

pub mod assoc;
pub mod cli;
pub mod dag;
pub mod executor;
pub mod expand;
pub mod functions;
pub mod graph;
pub mod parser;
pub mod text;
pub mod topo;
pub mod vars;

verus! {
} // verus!
