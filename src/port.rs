//! Handles, ports, edges and port descriptors.

use vstd::prelude::*;

verus! {

/// A stable handle for a node of a graph's store.
///
/// The value is the slot table's own encoding of a slot index (low half) and
/// the slot's generation (high half).
#[derive(Clone, Copy, PartialEq, Eq, Hash, Debug, Structural)]
pub struct NodeKey {
    pub id: u64,
}

/// Whether a port reads a value into a node or hands one out.
#[derive(Clone, Copy, PartialEq, Eq, Hash, Debug, Structural)]
pub enum PortKind {
    Input,
    Output,
}

/// One slot of one node.
#[derive(Clone, Copy, PartialEq, Eq, Hash, Debug, Structural)]
pub struct Port {
    pub node: NodeKey,
    pub port: usize,
    pub kind: PortKind,
}

/// A wire from an output port to an input port.
#[derive(Clone, Copy, PartialEq, Eq, Hash, Debug, Structural)]
pub struct Edge {
    pub from: Port,
    pub to: Port,
}

impl Port {
    pub open spec fn input_spec(node: NodeKey, port: usize) -> Port {
        Port { node, port, kind: PortKind::Input }
    }

    pub open spec fn output_spec(node: NodeKey, port: usize) -> Port {
        Port { node, port, kind: PortKind::Output }
    }

    /// The input port `port` of `node`.
    pub fn input(node: NodeKey, port: usize) -> (r: Port)
        ensures
            r == Port::input_spec(node, port),
    {
        Port { node, port, kind: PortKind::Input }
    }

    /// The output port `port` of `node`.
    pub fn output(node: NodeKey, port: usize) -> (r: Port)
        ensures
            r == Port::output_spec(node, port),
    {
        Port { node, port, kind: PortKind::Output }
    }
}

/// An input port of a node: its index and its name.
#[derive(Clone, PartialEq, Eq, Hash, Debug)]
pub struct InputId {
    pub port: usize,
    pub name: String,
}

/// An output port of a node: its index and its name.
#[derive(Clone, PartialEq, Eq, Hash, Debug)]
pub struct OutputId {
    pub port: usize,
    pub name: String,
}

impl InputId {
    pub open spec fn view_spec(&self) -> (usize, Seq<char>) {
        (self.port, self.name@)
    }

    pub fn new(port: usize, name: &str) -> (r: InputId)
        ensures
            r.port == port,
            r.name@ == name@,
    {
        InputId { port, name: name.to_owned() }
    }

    /// An independent duplicate.
    pub fn copy(&self) -> (r: InputId)
        ensures
            r.view_spec() == self.view_spec(),
    {
        InputId { port: self.port, name: self.name.clone() }
    }
}

impl OutputId {
    pub open spec fn view_spec(&self) -> (usize, Seq<char>) {
        (self.port, self.name@)
    }

    pub fn new(port: usize, name: &str) -> (r: OutputId)
        ensures
            r.port == port,
            r.name@ == name@,
    {
        OutputId { port, name: name.to_owned() }
    }

    /// An independent duplicate.
    pub fn copy(&self) -> (r: OutputId)
        ensures
            r.view_spec() == self.view_spec(),
    {
        OutputId { port: self.port, name: self.name.clone() }
    }
}

/// An input port that no edge feeds, with the port's name.
#[derive(Clone, PartialEq, Eq, Hash, Debug)]
pub struct UnconnectedInput {
    pub node_key: NodeKey,
    pub port_idx: usize,
    pub name: String,
}

/// An output port that feeds no edge, with the port's name.
#[derive(Clone, PartialEq, Eq, Hash, Debug)]
pub struct UnconnectedOutput {
    pub node_key: NodeKey,
    pub port_idx: usize,
    pub name: String,
}

impl UnconnectedInput {
    pub open spec fn view_spec(&self) -> (NodeKey, usize, Seq<char>) {
        (self.node_key, self.port_idx, self.name@)
    }

    /// An independent duplicate.
    pub fn copy(&self) -> (r: UnconnectedInput)
        ensures
            r.view_spec() == self.view_spec(),
    {
        UnconnectedInput { node_key: self.node_key, port_idx: self.port_idx, name: self.name.clone() }
    }
}

impl UnconnectedOutput {
    pub open spec fn view_spec(&self) -> (NodeKey, usize, Seq<char>) {
        (self.node_key, self.port_idx, self.name@)
    }

    /// An independent duplicate.
    pub fn copy(&self) -> (r: UnconnectedOutput)
        ensures
            r.view_spec() == self.view_spec(),
    {
        UnconnectedOutput { node_key: self.node_key, port_idx: self.port_idx, name: self.name.clone() }
    }
}

} // verus!
