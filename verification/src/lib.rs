//! Register allocation: a register file, liveness analysis over basic
//! blocks, interference graphs, Chaitin-style graph colouring and spill
//! slot management.

pub mod coloring;
pub mod interference;
pub mod liveness;
pub mod register;
pub mod spill;

pub use coloring::GraphColoring;
pub use interference::InterferenceGraph;
pub use liveness::{LivenessAnalysis, LiveRange};
pub use register::{Register, RegisterClass, RegisterFile};
pub use spill::SpillManager;
