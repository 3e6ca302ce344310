//! A directed, acyclic audio DSP graph.
//!
//! Nodes are user types implementing [`Node`]; a [`Graph`] sums the inputs of each node,
//! renders it, blends the dry and wet signals and hands the result to every outgoing
//! connection, in one pass over a cached topological order.

pub mod alt_osc;
pub mod graph;
pub mod laws;
pub mod math;
pub mod node;
pub mod nodes;
pub mod pitch;
pub mod sample;
pub mod settings;
pub mod sound_stream_settings;
pub mod store;
pub mod topology;
pub mod waveform;

pub use graph::{Connection, EdgeIndex, Graph, NodeIndex, WouldCycle};
pub use node::Node;
pub use nodes::BasicNode;
pub use sample::{Amplitude, Sample, EQUILIBRIUM, UNITY};
