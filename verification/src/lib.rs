use vstd::prelude::*;

pub mod status;
pub mod execution_data;
pub mod node;
pub mod node_map;
pub mod processor_ordering;
pub mod execution_graph;
pub mod processor;
pub mod system;
pub mod parameters;

verus! {
} // verus!
