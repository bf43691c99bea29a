//! Static analysis of small concurrent programs: abstract event graphs,
//! critical cycles and the fence placements that break them.
use vstd::prelude::*;

pub mod aeg;
pub mod ast;
pub mod builder;
pub mod check;
pub mod critical_cycles;
pub mod dfs;
pub mod generator;
pub mod graph;
pub mod interpreter;
pub mod invariants;
pub mod parser;
pub mod printer;
pub mod simple_paths;

pub use aeg::{AbstractEventGraph, AegConfig, AegError, Architecture};
pub use builder::create_aeg;
pub use critical_cycles::{critical_cycles, CriticalCycle};
pub use dfs::ProgramOrderDfs;
pub use graph::{Aeg, AegEdge, Fence, Node};
pub use parser::{parse, ParseError, ToyParser};
pub use simple_paths::all_simple_po_paths;

verus! {

} // verus!
