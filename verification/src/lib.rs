//! Analyses and transformations over the control-flow graphs of a small
//! three-address intermediate language.

pub mod ir;
pub mod store;
pub mod cfg;
pub mod builder;
pub mod exits;
pub mod lvn;
pub mod dataflow;
pub mod blocksets;
pub mod factset;
pub mod dominators;
pub mod reaching_definitions;
pub mod live_variables;
pub mod ssa;
pub mod dce;
pub mod loops;
pub mod names;
pub mod renaming;
pub mod text;
pub mod tokens;
