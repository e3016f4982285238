//! phase-vm: a reversible register machine.
//!
//! Every instruction writes exactly one destination and leaves its sources
//! intact, so its inverse can be computed from the current state: rolling a
//! phase back needs no log and no snapshot. `set`/`mset` are the boundaries.
use vstd::prelude::*;

pub mod arena;
pub mod bits;
pub mod cap;
pub mod check;
pub mod cli;
pub mod dbg;
pub mod cipher;
pub mod ctl;
pub mod fnv;
pub mod inst;
pub mod lex;
pub mod machine;
pub mod opt;
pub mod patch;
pub mod phase_server;
pub mod pmath;
pub mod program;
pub mod report;
pub mod ring;
pub mod state;
pub mod synth;
pub mod text;
pub mod trials;

pub use inst::Inst;
pub use machine::{count_leaves, reverse_n, run_forward};
pub use program::{Node, Program};
pub use state::State;

verus! {
} // verus!
