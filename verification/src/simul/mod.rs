//! Evaluating a netlist: sweeps over its objects until nothing changes.

pub mod setup;
pub mod show;
pub mod engine;
pub mod feedforward;
pub mod gate;
pub mod laws;
pub mod model;
pub mod sound;
pub mod table;

pub use gate::evaluate_gate;
pub use table::TruthTable;
pub use sound::SimulationError;
pub use engine::{assignment, lookup_assigned, SObject, Simulation};
pub use setup::{TRUTH_TABLE_MAX_INPUTS, TRUTH_TABLE_MAX_SWEEPS};
