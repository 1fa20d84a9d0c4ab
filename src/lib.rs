//! A dataflow graph of signal-processing nodes: a node store with stable
//! handles, wiring between ports, and an execution schedule derived from the
//! wiring.

pub mod graph;
pub mod group;
pub mod node;
pub mod port;
pub mod schedule;
pub mod store;
pub mod voice;
