//! What the graph knows of a node: its kind and its ports.

use vstd::prelude::*;
use crate::port::{InputId, OutputId};

verus! {

/// The name of a node's kind with its ordered input and output ports.
pub struct NodeInfo {
    pub kind: String,
    pub inputs: Vec<InputId>,
    pub outputs: Vec<OutputId>,
}

/// A node's description as plain values.
pub struct InfoView {
    pub kind: Seq<char>,
    pub inputs: Seq<(usize, Seq<char>)>,
    pub outputs: Seq<(usize, Seq<char>)>,
}

pub open spec fn inputs_view(v: Seq<InputId>) -> Seq<(usize, Seq<char>)> {
    v.map_values(|p: InputId| p.view_spec())
}

pub open spec fn outputs_view(v: Seq<OutputId>) -> Seq<(usize, Seq<char>)> {
    v.map_values(|p: OutputId| p.view_spec())
}

impl View for NodeInfo {
    type V = InfoView;

    open spec fn view(&self) -> InfoView {
        InfoView {
            kind: self.kind@,
            inputs: inputs_view(self.inputs@),
            outputs: outputs_view(self.outputs@),
        }
    }
}

/// Port `i` of a node is listed at position `i`.
pub open spec fn ports_numbered(ports: Seq<(usize, Seq<char>)>) -> bool {
    forall|i: int| 0 <= i < ports.len() ==> #[trigger] ports[i].0 == i
}

impl InfoView {
    pub open spec fn wf(self) -> bool {
        ports_numbered(self.inputs) && ports_numbered(self.outputs)
    }
}

impl NodeInfo {
    /// A node of kind `kind` whose ports are numbered from zero in the
    /// order given.
    pub fn new(kind: &str, inputs: &Vec<String>, outputs: &Vec<String>) -> (r: NodeInfo)
        ensures
            r@.wf(),
            r@.kind == kind@,
            r@.inputs.len() == inputs@.len(),
            r@.outputs.len() == outputs@.len(),
            forall|i: int| 0 <= i < inputs@.len() ==> #[trigger] r@.inputs[i].1 == inputs@[i]@,
            forall|i: int| 0 <= i < outputs@.len() ==> #[trigger] r@.outputs[i].1 == outputs@[i]@,
    {
        let mut ins: Vec<InputId> = Vec::new();
        let mut i: usize = 0;
        while i < inputs.len()
            invariant
                i <= inputs@.len(),
                ins@.len() == i,
                forall|j: int| 0 <= j < i ==> (#[trigger] ins@[j]).port == j && ins@[j].name@ == inputs@[j]@,
            decreases inputs@.len() - i,
        {
            ins.push(InputId { port: i, name: inputs[i].clone() });
            i = i + 1;
        }
        let mut outs: Vec<OutputId> = Vec::new();
        let mut i: usize = 0;
        while i < outputs.len()
            invariant
                i <= outputs@.len(),
                outs@.len() == i,
                forall|j: int| 0 <= j < i ==> (#[trigger] outs@[j]).port == j && outs@[j].name@ == outputs@[j]@,
            decreases outputs@.len() - i,
        {
            outs.push(OutputId { port: i, name: outputs[i].clone() });
            i = i + 1;
        }
        NodeInfo { kind: kind.to_owned(), inputs: ins, outputs: outs }
    }

    /// An independent duplicate.
    pub fn copy(&self) -> (r: NodeInfo)
        ensures
            r@ == self@,
    {
        let mut ins: Vec<InputId> = Vec::new();
        let mut i: usize = 0;
        while i < self.inputs.len()
            invariant
                i <= self.inputs@.len(),
                ins@.len() == i,
                forall|j: int| 0 <= j < i ==> (#[trigger] ins@[j]).view_spec() == self.inputs@[j].view_spec(),
            decreases self.inputs@.len() - i,
        {
            ins.push(self.inputs[i].copy());
            i = i + 1;
        }
        assert(inputs_view(ins@) =~= inputs_view(self.inputs@));
        let mut outs: Vec<OutputId> = Vec::new();
        let mut i: usize = 0;
        while i < self.outputs.len()
            invariant
                i <= self.outputs@.len(),
                outs@.len() == i,
                forall|j: int| 0 <= j < i ==> (#[trigger] outs@[j]).view_spec() == self.outputs@[j].view_spec(),
            decreases self.outputs@.len() - i,
        {
            outs.push(self.outputs[i].copy());
            i = i + 1;
        }
        assert(outputs_view(outs@) =~= outputs_view(self.outputs@));
        NodeInfo { kind: self.kind.clone(), inputs: ins, outputs: outs }
    }
}

} // verus!
