//! Cutting a set of nodes out of a graph into a nested graph behind one
//! composite node, and putting them back.

use vstd::prelude::*;
use crate::graph::{counterpart, edge_ok, edges_without, rename_edge, rename_port, Graph};
use crate::node::NodeInfo;
use crate::port::InputId;
use crate::port::{Edge, NodeKey, Port, PortKind, UnconnectedInput, UnconnectedOutput};

verus! {

/// A composite node's nested graph with its boundary: input `i` of the
/// composite node stands for the inner port `inputs[i]`, and output `i` for
/// the inner port `outputs[i]`.
pub struct Subgraph {
    pub subgraph: Graph,
    pub inputs: Vec<UnconnectedInput>,
    pub outputs: Vec<UnconnectedOutput>,
}

pub open spec fn input_name(infos: Map<u64, NodeInfo>, p: Port) -> Seq<char> {
    infos[p.node.id]@.inputs[p.port as int].1
}

pub open spec fn output_name(infos: Map<u64, NodeInfo>, p: Port) -> Seq<char> {
    infos[p.node.id]@.outputs[p.port as int].1
}

/// `sub` holds a copy of the nodes `sel` of `g` under the handles that `f`
/// gives them (listed in `keys`, in the order of `sel`), with the edges among
/// them renamed, and its boundary lists the renamed boundary ports of `sel`
/// with their names.
pub open spec fn extracted(g: Graph, sel: Seq<NodeKey>, sub: Subgraph, keys: Seq<NodeKey>, f: Map<u64, u64>) -> bool {
    let inner = sub.subgraph;
    let bins = boundary_inputs(g.edge_list(), sel);
    let bouts = boundary_outputs(g.edge_list(), sel);
    &&& keys.len() == sel.len()
    &&& forall|i: int| 0 <= i < sel.len() ==> #[trigger] keys[i] == (NodeKey { id: f[sel[i].id] })
    &&& forall|i: int| 0 <= i < sel.len() ==> inner.has(NodeKey { id: f[(#[trigger] sel[i]).id] })
        && inner.infos()[f[sel[i].id]]@ == g.infos()[sel[i].id]@
    &&& forall|id: u64| #[trigger] inner.infos().contains_key(id) ==> exists|i: int| 0 <= i < sel.len() && f[sel[i].id] == id
    &&& forall|i: int, j: int| 0 <= i < sel.len() && 0 <= j < sel.len() && #[trigger] f[sel[i].id] == #[trigger] f[sel[j].id] ==> i == j
    &&& inner.edge_list() == internal_edges(g.edge_list(), sel).map_values(|e: Edge| rename_edge(e, f))
    &&& sub.inputs@.len() == bins.len()
    &&& forall|i: int| 0 <= i < bins.len() ==> (#[trigger] sub.inputs@[i]).view_spec() == (
        NodeKey { id: f[bins[i].node.id] },
        bins[i].port,
        input_name(g.infos(), bins[i]),
    )
    &&& sub.outputs@.len() == bouts.len()
    &&& forall|i: int| 0 <= i < bouts.len() ==> (#[trigger] sub.outputs@[i]).view_spec() == (
        NodeKey { id: f[bouts[i].node.id] },
        bouts[i].port,
        output_name(g.infos(), bouts[i]),
    )
}

pub open spec fn is_internal(e: Edge, sel: Seq<NodeKey>) -> bool {
    sel.contains(e.from.node) && sel.contains(e.to.node)
}

pub open spec fn is_inbound(e: Edge, sel: Seq<NodeKey>) -> bool {
    sel.contains(e.to.node) && !sel.contains(e.from.node)
}

pub open spec fn is_outbound(e: Edge, sel: Seq<NodeKey>) -> bool {
    sel.contains(e.from.node) && !sel.contains(e.to.node)
}

/// The edges with both ends in `sel`, in order.
pub open spec fn internal_edges(es: Seq<Edge>, sel: Seq<NodeKey>) -> Seq<Edge>
    decreases es.len(),
{
    if es.len() == 0 {
        seq![]
    } else if is_internal(es.last(), sel) {
        internal_edges(es.drop_last(), sel).push(es.last())
    } else {
        internal_edges(es.drop_last(), sel)
    }
}

/// The input ports inside `sel` that an edge from outside feeds, each once,
/// in the order of the first such edge.
pub open spec fn boundary_inputs(es: Seq<Edge>, sel: Seq<NodeKey>) -> Seq<Port>
    decreases es.len(),
{
    if es.len() == 0 {
        seq![]
    } else {
        let r = boundary_inputs(es.drop_last(), sel);
        if is_inbound(es.last(), sel) && !r.contains(es.last().to) {
            r.push(es.last().to)
        } else {
            r
        }
    }
}

/// The output ports inside `sel` that feed an edge to outside, each once, in
/// the order of the first such edge.
pub open spec fn boundary_outputs(es: Seq<Edge>, sel: Seq<NodeKey>) -> Seq<Port>
    decreases es.len(),
{
    if es.len() == 0 {
        seq![]
    } else {
        let r = boundary_outputs(es.drop_last(), sel);
        if is_outbound(es.last(), sel) && !r.contains(es.last().from) {
            r.push(es.last().from)
        } else {
            r
        }
    }
}

/// The first position of `p` in `s`.
pub open spec fn first_pos(s: Seq<Port>, p: Port) -> int {
    choose|i: int| 0 <= i < s.len() && s[i] == p && forall|j: int| 0 <= j < i ==> s[j] != p
}

/// Each edge from outside into `sel`, redirected to the matching input of the
/// composite node `c`.
pub open spec fn rewired_in(es: Seq<Edge>, sel: Seq<NodeKey>, bins: Seq<Port>, c: NodeKey) -> Seq<Edge>
    decreases es.len(),
{
    if es.len() == 0 {
        seq![]
    } else if is_inbound(es.last(), sel) {
        rewired_in(es.drop_last(), sel, bins, c).push(
            Edge { from: es.last().from, to: Port::input_spec(c, first_pos(bins, es.last().to) as usize) },
        )
    } else {
        rewired_in(es.drop_last(), sel, bins, c)
    }
}

/// Each edge from `sel` to outside, redirected from the matching output of
/// the composite node `c`.
pub open spec fn rewired_out(es: Seq<Edge>, sel: Seq<NodeKey>, bouts: Seq<Port>, c: NodeKey) -> Seq<Edge>
    decreases es.len(),
{
    if es.len() == 0 {
        seq![]
    } else if is_outbound(es.last(), sel) {
        rewired_out(es.drop_last(), sel, bouts, c).push(
            Edge { from: Port::output_spec(c, first_pos(bouts, es.last().from) as usize), to: es.last().to },
        )
    } else {
        rewired_out(es.drop_last(), sel, bouts, c)
    }
}

/// The edges left after removing each node of `sel` in turn.
pub open spec fn strip(es: Seq<Edge>, sel: Seq<NodeKey>) -> Seq<Edge>
    decreases sel.len(),
{
    if sel.len() == 0 {
        es
    } else {
        edges_without(strip(es, sel.drop_last()), sel.last())
    }
}

/// The handles with the encodings `ids`.
fn keys_of(ids: &Vec<u64>) -> (r: Vec<NodeKey>)
    ensures
        r@.len() == ids@.len(),
        forall|j: int| 0 <= j < ids@.len() ==> #[trigger] r@[j] == (NodeKey { id: ids@[j] }),
{
    let mut r: Vec<NodeKey> = Vec::new();
    let mut i: usize = 0;
    while i < ids.len()
        invariant
            i <= ids@.len(),
            r@.len() == i,
            forall|j: int| 0 <= j < i ==> #[trigger] r@[j] == (NodeKey { id: ids@[j] }),
        decreases ids@.len() - i,
    {
        r.push(NodeKey { id: ids[i] });
        i = i + 1;
    }
    r
}

/// Whether `n` is listed in `sel`.
fn selected(sel: &Vec<NodeKey>, n: NodeKey) -> (r: bool)
    ensures
        r == sel@.contains(n),
{
    crate::schedule::key_listed(sel, n)
}

/// The first position of `p` in `s`, which holds it.
fn position(s: &Vec<Port>, p: Port) -> (r: usize)
    requires
        s@.contains(p),
    ensures
        r == first_pos(s@, p),
        r < s@.len(),
{
    let mut i: usize = 0;
    while i < s.len()
        invariant
            s@.contains(p),
            i <= s@.len(),
            forall|j: int| 0 <= j < i ==> s@[j] != p,
        decreases s@.len() - i,
    {
        if s[i] == p {
            proof {
                let w = first_pos(s@, p);
                assert(0 <= i < s@.len() && s@[i as int] == p && forall|j: int| 0 <= j < i ==> s@[j] != p);
                if w < i {
                    assert(s@[w] != p);
                } else if w > i {
                    assert(s@[i as int] != p);
                }
            }
            return i;
        }
        i = i + 1;
    }
    proof {
        let j = choose|j: int| 0 <= j < s@.len() && s@[j] == p;
    }
    0
}

/// Sort the edges `es` by how they meet `sel`: those inside it, and the
/// boundary ports that edges crossing into and out of it use.
fn classify(es: &Vec<Edge>, sel: &Vec<NodeKey>) -> (r: (Vec<Edge>, Vec<Port>, Vec<Port>))
    ensures
        r.0@ == internal_edges(es@, sel@),
        r.1@ == boundary_inputs(es@, sel@),
        r.2@ == boundary_outputs(es@, sel@),
{
    let mut internal: Vec<Edge> = Vec::new();
    let mut bins: Vec<Port> = Vec::new();
    let mut bouts: Vec<Port> = Vec::new();
    let mut k: usize = 0;
    while k < es.len()
        invariant
            k <= es@.len(),
            internal@ == internal_edges(es@.take(k as int), sel@),
            bins@ == boundary_inputs(es@.take(k as int), sel@),
            bouts@ == boundary_outputs(es@.take(k as int), sel@),
        decreases es@.len() - k,
    {
        assert(es@.take(k + 1).drop_last() == es@.take(k as int));
        let e = es[k];
        let from_in = selected(sel, e.from.node);
        let to_in = selected(sel, e.to.node);
        if from_in && to_in {
            internal.push(e);
        } else if to_in {
            if !crate::schedule::port_listed(&bins, e.to) {
                bins.push(e.to);
            }
        } else if from_in {
            if !crate::schedule::port_listed(&bouts, e.from) {
                bouts.push(e.from);
            }
        }
        k = k + 1;
    }
    assert(es@.take(k as int) == es@);
    (internal, bins, bouts)
}

/// The crossing edges of `es`, redirected to the composite node `c`.
fn rewire(es: &Vec<Edge>, sel: &Vec<NodeKey>, bins: &Vec<Port>, bouts: &Vec<Port>, c: NodeKey) -> (r: (Vec<Edge>, Vec<Edge>))
    requires
        bins@ == boundary_inputs(es@, sel@),
        bouts@ == boundary_outputs(es@, sel@),
    ensures
        r.0@ == rewired_in(es@, sel@, bins@, c),
        r.1@ == rewired_out(es@, sel@, bouts@, c),
{
    let mut rin: Vec<Edge> = Vec::new();
    let mut rout: Vec<Edge> = Vec::new();
    let mut k: usize = 0;
    while k < es.len()
        invariant
            bins@ == boundary_inputs(es@, sel@),
            bouts@ == boundary_outputs(es@, sel@),
            k <= es@.len(),
            rin@ == rewired_in(es@.take(k as int), sel@, bins@, c),
            rout@ == rewired_out(es@.take(k as int), sel@, bouts@, c),
        decreases es@.len() - k,
    {
        assert(es@.take(k + 1).drop_last() == es@.take(k as int));
        let e = es[k];
        let from_in = selected(sel, e.from.node);
        let to_in = selected(sel, e.to.node);
        if to_in && !from_in {
            proof { lemma_boundary_inputs_cover(es@, sel@, k as int); }
            let i = position(bins, e.to);
            rin.push(Edge { from: e.from, to: Port::input(c, i) });
        } else if from_in && !to_in {
            proof { lemma_boundary_outputs_cover(es@, sel@, k as int); }
            let i = position(bouts, e.from);
            rout.push(Edge { from: Port::output(c, i), to: e.to });
        }
        k = k + 1;
    }
    assert(es@.take(k as int) == es@);
    (rin, rout)
}

/// Every edge into `sel` from outside ends at a listed boundary input.
proof fn lemma_boundary_inputs_cover(es: Seq<Edge>, sel: Seq<NodeKey>, k: int)
    requires
        0 <= k < es.len(),
        is_inbound(es[k], sel),
    ensures
        boundary_inputs(es, sel).contains(es[k].to),
    decreases es.len(),
{
    let r = boundary_inputs(es.drop_last(), sel);
    if k == es.len() - 1 {
        if r.contains(es[k].to) {
            let j = choose|j: int| 0 <= j < r.len() && r[j] == es[k].to;
            assert(boundary_inputs(es, sel)[j] == es[k].to);
        } else {
            assert(boundary_inputs(es, sel)[r.len() as int] == es[k].to);
        }
    } else {
        assert(es.drop_last()[k] == es[k]);
        lemma_boundary_inputs_cover(es.drop_last(), sel, k);
        let j = choose|j: int| 0 <= j < r.len() && r[j] == es[k].to;
        assert(boundary_inputs(es, sel)[j] == es[k].to);
    }
}

/// Every edge from `sel` to outside starts at a listed boundary output.
proof fn lemma_boundary_outputs_cover(es: Seq<Edge>, sel: Seq<NodeKey>, k: int)
    requires
        0 <= k < es.len(),
        is_outbound(es[k], sel),
    ensures
        boundary_outputs(es, sel).contains(es[k].from),
    decreases es.len(),
{
    let r = boundary_outputs(es.drop_last(), sel);
    if k == es.len() - 1 {
        if r.contains(es[k].from) {
            let j = choose|j: int| 0 <= j < r.len() && r[j] == es[k].from;
            assert(boundary_outputs(es, sel)[j] == es[k].from);
        } else {
            assert(boundary_outputs(es, sel)[r.len() as int] == es[k].from);
        }
    } else {
        assert(es.drop_last()[k] == es[k]);
        lemma_boundary_outputs_cover(es.drop_last(), sel, k);
        let j = choose|j: int| 0 <= j < r.len() && r[j] == es[k].from;
        assert(boundary_outputs(es, sel)[j] == es[k].from);
    }
}

proof fn lemma_boundary_inputs_members(es: Seq<Edge>, sel: Seq<NodeKey>)
    ensures
        forall|i: int| 0 <= i < boundary_inputs(es, sel).len() ==> exists|k: int|
            0 <= k < es.len() && is_inbound(es[k], sel) && es[k].to == #[trigger] boundary_inputs(es, sel)[i],
    decreases es.len(),
{
    if es.len() > 0 {
        lemma_boundary_inputs_members(es.drop_last(), sel);
        let r = boundary_inputs(es, sel);
        let p = boundary_inputs(es.drop_last(), sel);
        assert forall|i: int| 0 <= i < r.len() implies exists|k: int|
            0 <= k < es.len() && is_inbound(es[k], sel) && es[k].to == #[trigger] r[i] by {
            if i < p.len() {
                let k = choose|k: int| 0 <= k < es.drop_last().len() && is_inbound(es.drop_last()[k], sel) && es.drop_last()[k].to == p[i];
                assert(es[k] == es.drop_last()[k]);
            } else {
                assert(es[es.len() - 1].to == r[i]);
            }
        }
    }
}

proof fn lemma_boundary_outputs_members(es: Seq<Edge>, sel: Seq<NodeKey>)
    ensures
        forall|i: int| 0 <= i < boundary_outputs(es, sel).len() ==> exists|k: int|
            0 <= k < es.len() && is_outbound(es[k], sel) && es[k].from == #[trigger] boundary_outputs(es, sel)[i],
    decreases es.len(),
{
    if es.len() > 0 {
        lemma_boundary_outputs_members(es.drop_last(), sel);
        let r = boundary_outputs(es, sel);
        let p = boundary_outputs(es.drop_last(), sel);
        assert forall|i: int| 0 <= i < r.len() implies exists|k: int|
            0 <= k < es.len() && is_outbound(es[k], sel) && es[k].from == #[trigger] r[i] by {
            if i < p.len() {
                let k = choose|k: int| 0 <= k < es.drop_last().len() && is_outbound(es.drop_last()[k], sel) && es.drop_last()[k].from == p[i];
                assert(es[k] == es.drop_last()[k]);
            } else {
                assert(es[es.len() - 1].from == r[i]);
            }
        }
    }
}

proof fn lemma_internal_members(es: Seq<Edge>, sel: Seq<NodeKey>)
    ensures
        forall|t: int| 0 <= t < internal_edges(es, sel).len() ==> is_internal(#[trigger] internal_edges(es, sel)[t], sel)
            && es.contains(internal_edges(es, sel)[t]),
    decreases es.len(),
{
    if es.len() > 0 {
        lemma_internal_members(es.drop_last(), sel);
        let r = internal_edges(es, sel);
        let p = internal_edges(es.drop_last(), sel);
        assert forall|t: int| 0 <= t < r.len() implies is_internal(#[trigger] r[t], sel) && es.contains(r[t]) by {
            if t < p.len() {
                let k = choose|k: int| 0 <= k < es.drop_last().len() && es.drop_last()[k] == p[t];
                assert(es[k] == r[t]);
            } else {
                assert(es[es.len() - 1] == r[t]);
            }
        }
    }
}

proof fn lemma_rewired_in_members(es: Seq<Edge>, sel: Seq<NodeKey>, bins: Seq<Port>, c: NodeKey)
    ensures
        forall|t: int| 0 <= t < rewired_in(es, sel, bins, c).len() ==> exists|k: int|
            0 <= k < es.len() && is_inbound(es[k], sel) && #[trigger] rewired_in(es, sel, bins, c)[t] == (Edge {
                from: es[k].from,
                to: Port::input_spec(c, first_pos(bins, es[k].to) as usize),
            }),
    decreases es.len(),
{
    if es.len() > 0 {
        lemma_rewired_in_members(es.drop_last(), sel, bins, c);
        let r = rewired_in(es, sel, bins, c);
        let p = rewired_in(es.drop_last(), sel, bins, c);
        assert forall|t: int| 0 <= t < r.len() implies exists|k: int|
            0 <= k < es.len() && is_inbound(es[k], sel) && #[trigger] r[t] == (Edge {
                from: es[k].from,
                to: Port::input_spec(c, first_pos(bins, es[k].to) as usize),
            }) by {
            if t < p.len() {
                let k = choose|k: int| 0 <= k < es.drop_last().len() && is_inbound(es.drop_last()[k], sel) && p[t] == (Edge {
                    from: es.drop_last()[k].from,
                    to: Port::input_spec(c, first_pos(bins, es.drop_last()[k].to) as usize),
                });
                assert(es[k] == es.drop_last()[k]);
            } else {
                assert(r[t] == (Edge {
                    from: es[es.len() - 1].from,
                    to: Port::input_spec(c, first_pos(bins, es[es.len() - 1].to) as usize),
                }));
            }
        }
    }
}

proof fn lemma_rewired_out_members(es: Seq<Edge>, sel: Seq<NodeKey>, bouts: Seq<Port>, c: NodeKey)
    ensures
        forall|t: int| 0 <= t < rewired_out(es, sel, bouts, c).len() ==> exists|k: int|
            0 <= k < es.len() && is_outbound(es[k], sel) && #[trigger] rewired_out(es, sel, bouts, c)[t] == (Edge {
                from: Port::output_spec(c, first_pos(bouts, es[k].from) as usize),
                to: es[k].to,
            }),
    decreases es.len(),
{
    if es.len() > 0 {
        lemma_rewired_out_members(es.drop_last(), sel, bouts, c);
        let r = rewired_out(es, sel, bouts, c);
        let p = rewired_out(es.drop_last(), sel, bouts, c);
        assert forall|t: int| 0 <= t < r.len() implies exists|k: int|
            0 <= k < es.len() && is_outbound(es[k], sel) && #[trigger] r[t] == (Edge {
                from: Port::output_spec(c, first_pos(bouts, es[k].from) as usize),
                to: es[k].to,
            }) by {
            if t < p.len() {
                let k = choose|k: int| 0 <= k < es.drop_last().len() && is_outbound(es.drop_last()[k], sel) && p[t] == (Edge {
                    from: Port::output_spec(c, first_pos(bouts, es.drop_last()[k].from) as usize),
                    to: es.drop_last()[k].to,
                });
                assert(es[k] == es.drop_last()[k]);
            } else {
                assert(r[t] == (Edge {
                    from: Port::output_spec(c, first_pos(bouts, es[es.len() - 1].from) as usize),
                    to: es[es.len() - 1].to,
                }));
            }
        }
    }
}

/// The first position of a listed port is a position that holds it, with no
/// earlier one.
proof fn lemma_first_pos(s: Seq<Port>, p: Port)
    requires
        s.contains(p),
    ensures
        0 <= first_pos(s, p) < s.len(),
        s[first_pos(s, p)] == p,
        forall|j: int| 0 <= j < first_pos(s, p) ==> s[j] != p,
    decreases s.len(),
{
    if s.drop_last().contains(p) {
        lemma_first_pos(s.drop_last(), p);
        let w = first_pos(s.drop_last(), p);
        assert(s[w] == p && forall|j: int| 0 <= j < w ==> s[j] != p) by {
            assert forall|j: int| 0 <= j < w implies s[j] != p by {
                assert(s[j] == s.drop_last()[j]);
            }
        }
    } else {
        let w = s.len() - 1;
        let j0 = choose|j: int| 0 <= j < s.len() && s[j] == p;
        if j0 < w {
            assert(s.drop_last()[j0] == p);
        }
        assert forall|j: int| 0 <= j < w implies s[j] != p by {
            if s[j] == p {
                assert(s.drop_last()[j] == p);
            }
        }
    }
}

/// After the nodes `sel` are gone and the composite node `c` is stored with
/// one port per boundary port, every redirected edge is a valid edge.
proof fn lemma_rewired_ok(es: Seq<Edge>, sel: Seq<NodeKey>, infos0: Map<u64, NodeInfo>, fin: Map<u64, NodeInfo>, c: NodeKey)
    requires
        forall|k: int| 0 <= k < es.len() ==> edge_ok(infos0, #[trigger] es[k]),
        !infos0.contains_key(c.id),
        fin.contains_key(c.id),
        fin[c.id]@.inputs.len() == boundary_inputs(es, sel).len(),
        fin[c.id]@.outputs.len() == boundary_outputs(es, sel).len(),
        forall|id: u64| #[trigger] infos0.contains_key(id) && !sel.contains(NodeKey { id }) ==> fin.contains_key(id) && fin[id] == infos0[id],
    ensures
        forall|u: int| 0 <= u < rewired_in(es, sel, boundary_inputs(es, sel), c).len()
            ==> edge_ok(fin, #[trigger] rewired_in(es, sel, boundary_inputs(es, sel), c)[u]),
        forall|u: int| 0 <= u < rewired_out(es, sel, boundary_outputs(es, sel), c).len()
            ==> edge_ok(fin, #[trigger] rewired_out(es, sel, boundary_outputs(es, sel), c)[u]),
{
    let bins = boundary_inputs(es, sel);
    let bouts = boundary_outputs(es, sel);
    let rin = rewired_in(es, sel, bins, c);
    let rout = rewired_out(es, sel, bouts, c);
    lemma_rewired_in_members(es, sel, bins, c);
    lemma_rewired_out_members(es, sel, bouts, c);
    assert forall|u: int| 0 <= u < rin.len() implies edge_ok(fin, #[trigger] rin[u]) by {
        let k = choose|k: int| 0 <= k < es.len() && is_inbound(es[k], sel) && rin[u] == (Edge {
            from: es[k].from,
            to: Port::input_spec(c, first_pos(bins, es[k].to) as usize),
        });
        assert(edge_ok(infos0, es[k]));
        lemma_boundary_inputs_cover(es, sel, k);
        lemma_first_pos(bins, es[k].to);
        assert(infos0.contains_key(es[k].from.node.id));
        assert(fin.contains_key(es[k].from.node.id));
    }
    assert forall|u: int| 0 <= u < rout.len() implies edge_ok(fin, #[trigger] rout[u]) by {
        let k = choose|k: int| 0 <= k < es.len() && is_outbound(es[k], sel) && rout[u] == (Edge {
            from: Port::output_spec(c, first_pos(bouts, es[k].from) as usize),
            to: es[k].to,
        });
        assert(edge_ok(infos0, es[k]));
        lemma_boundary_outputs_cover(es, sel, k);
        lemma_first_pos(bouts, es[k].from);
        assert(infos0.contains_key(es[k].to.node.id));
        assert(fin.contains_key(es[k].to.node.id));
    }
}

/// The composite node made for the boundary of `sel` in `g`: one input per
/// boundary input and one output per boundary output, named after them.
pub open spec fn composite_ok(info: crate::node::InfoView, g: Graph, sel: Seq<NodeKey>) -> bool {
    let bins = boundary_inputs(g.edge_list(), sel);
    let bouts = boundary_outputs(g.edge_list(), sel);
    &&& info.wf()
    &&& info.inputs.len() == bins.len()
    &&& info.outputs.len() == bouts.len()
    &&& forall|i: int| 0 <= i < bins.len() ==> (#[trigger] info.inputs[i]).1 == input_name(g.infos(), bins[i])
    &&& forall|i: int| 0 <= i < bouts.len() ==> (#[trigger] info.outputs[i]).1 == output_name(g.infos(), bouts[i])
}

impl Graph {
    /// Wire each edge of `es` in turn.
    fn connect_all(&mut self, es: &Vec<Edge>)
        requires
            old(self).wf(),
            forall|k: int| 0 <= k < es@.len() ==> edge_ok(old(self).infos(), #[trigger] es@[k]),
        ensures
            final(self).wf(),
            final(self).infos() == old(self).infos(),
            final(self).edge_list() == old(self).edge_list() + es@,
    {
        let ghost base = self.edge_list();
        let ghost infos = self.infos();
        let mut t: usize = 0;
        while t < es.len()
            invariant
                self.wf(),
                self.infos() == infos,
                forall|k: int| 0 <= k < es@.len() ==> edge_ok(infos, #[trigger] es@[k]),
                t <= es@.len(),
                self.edge_list() == base + es@.take(t as int),
            decreases es@.len() - t,
        {
            let e = es[t];
            assert(edge_ok(infos, es@[t as int]));
            let ghost before = self.edge_list();
            let _ = self.connect(e.from, e.to);
            assert(base + es@.take(t + 1) =~= before.push(e));
            t = t + 1;
        }
        assert(es@.take(t as int) == es@);
    }

    /// Remove each node of `sel` in turn.
    fn detach_all(&mut self, sel: &Vec<NodeKey>)
        requires
            old(self).wf(),
        ensures
            final(self).wf(),
            final(self).edge_list() == strip(old(self).edge_list(), sel@),
            forall|id: u64| #[trigger] final(self).infos().contains_key(id) <==> (old(self).infos().contains_key(id)
                && !sel@.contains(NodeKey { id })),
            forall|id: u64| #[trigger] final(self).infos().contains_key(id) ==> final(self).infos()[id] == old(self).infos()[id],
    {
        let ghost es = self.edge_list();
        let ghost mid = self.infos();
        let mut i: usize = 0;
        while i < sel.len()
            invariant
                self.wf(),
                i <= sel@.len(),
                self.edge_list() == strip(es, sel@.take(i as int)),
                forall|id: u64| #[trigger] self.infos().contains_key(id) <==> (mid.contains_key(id) && !sel@.take(i as int).contains(NodeKey { id })),
                forall|id: u64| #[trigger] self.infos().contains_key(id) ==> self.infos()[id] == mid[id],
            decreases sel@.len() - i,
        {
            self.remove(sel[i]);
            proof {
                assert(sel@.take(i + 1).drop_last() == sel@.take(i as int));
                assert forall|id: u64| #[trigger] self.infos().contains_key(id) <==> (mid.contains_key(id) && !sel@.take(i + 1).contains(NodeKey { id })) by {
                    if sel@.take(i + 1).contains(NodeKey { id }) && !sel@.take(i as int).contains(NodeKey { id }) {
                        let j = choose|j: int| 0 <= j < i + 1 && #[trigger] sel@.take(i + 1)[j] == NodeKey { id };
                        if j < i {
                            assert(sel@.take(i as int)[j] == NodeKey { id });
                        }
                    }
                    if sel@.take(i as int).contains(NodeKey { id }) {
                        let j = choose|j: int| 0 <= j < i && #[trigger] sel@.take(i as int)[j] == NodeKey { id };
                        assert(sel@.take(i + 1)[j] == NodeKey { id });
                    }
                    if id == sel@[i as int].id {
                        assert(sel@.take(i + 1)[i as int] == NodeKey { id });
                    }
                }
            }
            i = i + 1;
        }
        assert(sel@.take(i as int) == sel@);
    }

    /// Copy the nodes `sel` and the edges `internal` among them into a nested
    /// graph, with the boundary ports `bins` and `bouts` renamed and named.
    #[verifier::rlimit(40)]
    fn extract(&self, sel: &Vec<NodeKey>, internal: &Vec<Edge>, bins: &Vec<Port>, bouts: &Vec<Port>) -> (r: (
        Subgraph,
        Vec<String>,
        Vec<String>,
        Vec<NodeKey>,
    ))
        requires
            self.wf(),
            sel@.no_duplicates(),
            forall|i: int| 0 <= i < sel@.len() ==> self.has(#[trigger] sel@[i]),
            internal@ == internal_edges(self.edge_list(), sel@),
            bins@ == boundary_inputs(self.edge_list(), sel@),
            bouts@ == boundary_outputs(self.edge_list(), sel@),
        ensures
            r.0.subgraph.wf(),
            exists|f: Map<u64, u64>| extracted(*self, sel@, r.0, r.3@, f),
            r.1@.len() == bins@.len(),
            r.2@.len() == bouts@.len(),
            forall|j: int| 0 <= j < bins@.len() ==> (#[trigger] r.1@[j])@ == input_name(self.infos(), bins@[j]),
            forall|j: int| 0 <= j < bouts@.len() ==> (#[trigger] r.2@[j])@ == output_name(self.infos(), bouts@[j]),
    {
        let ghost g0 = *self;
        let ghost es = self.edge_list();
        let ghost infos0 = self.infos();
        proof {
            let ids = sel@.map_values(|k: NodeKey| k.id);
            assert(ids.no_duplicates());
            ids.unique_seq_to_set();
            assert(ids.to_set().subset_of(infos0.dom())) by {
                assert forall|id: u64| ids.to_set().contains(id) implies infos0.dom().contains(id) by {
                    let j = choose|j: int| 0 <= j < ids.len() && ids[j] == id;
                    assert(sel@[j].id == id);
                }
            }
            vstd::set_lib::lemma_len_subset(ids.to_set(), infos0.dom());
            lemma_internal_members(es, sel@);
            lemma_boundary_inputs_members(es, sel@);
            lemma_boundary_outputs_members(es, sel@);
        }
        let mut inner = Graph::new();
        let mut old_ids: Vec<u64> = Vec::new();
        let mut new_ids: Vec<u64> = Vec::new();
        let ghost mut f: Map<u64, u64> = Map::empty();
        let mut i: usize = 0;
        while i < sel.len()
            invariant
                *self == g0,
                self.wf(),
                infos0 == self.infos(),
                es == self.edge_list(),
                sel@.no_duplicates(),
                forall|j: int| 0 <= j < sel@.len() ==> infos0.contains_key((#[trigger] sel@[j]).id),
                sel@.len() <= 4294967294,
                i <= sel@.len(),
                inner.wf(),
                inner.infos().dom().len() == i,
                inner.edge_list() == Seq::<Edge>::empty(),
                old_ids@.len() == i,
                new_ids@.len() == i,
                forall|j: int| 0 <= j < i ==> #[trigger] old_ids@[j] == sel@[j].id,
                forall|j: int| 0 <= j < i ==> f[(#[trigger] sel@[j]).id] == new_ids@[j],
                forall|id: u64| #[trigger] inner.infos().contains_key(id) <==> new_ids@.contains(id),
                forall|j: int| 0 <= j < i ==> #[trigger] inner.infos()[new_ids@[j]]@ == infos0[sel@[j].id]@,
                forall|a: int, b: int| 0 <= a < b < i ==> #[trigger] new_ids@[a] != #[trigger] new_ids@[b],
            decreases sel@.len() - i,
        {
            let s = sel[i];
            let info = self.get_node(s).unwrap().copy();
            let ghost before = inner.infos();
            let ghost ni = new_ids@;
            let k = inner.add(info);
            proof {
                f = f.insert(s.id, k.id);
            }
            old_ids.push(s.id);
            new_ids.push(k.id);
            proof {
                assert(new_ids@ == ni.push(k.id));
                assert forall|j: int| 0 <= j < i + 1 implies f[(#[trigger] sel@[j]).id] == new_ids@[j] by {
                    if j < i {
                        assert(sel@[j] != sel@[i as int]);
                    }
                }
                assert forall|id: u64| #[trigger] inner.infos().contains_key(id) <==> new_ids@.contains(id) by {
                    if id == k.id {
                        assert(new_ids@[i as int] == id);
                    } else {
                        if ni.contains(id) {
                            let j = choose|j: int| 0 <= j < ni.len() && ni[j] == id;
                            assert(new_ids@[j] == id);
                        }
                        if new_ids@.contains(id) {
                            let j = choose|j: int| 0 <= j < new_ids@.len() && new_ids@[j] == id;
                            assert(ni[j] == id);
                        }
                    }
                }
                assert forall|j: int| 0 <= j < i + 1 implies #[trigger] inner.infos()[new_ids@[j]]@ == infos0[sel@[j].id]@ by {
                    if j < i {
                        assert(ni.contains(ni[j]));
                        assert(new_ids@[j] != k.id);
                    }
                }
                assert forall|a: int, b: int| 0 <= a < b < i + 1 implies #[trigger] new_ids@[a] != #[trigger] new_ids@[b] by {
                    if b == i {
                        assert(ni.contains(ni[a]));
                        assert(before.contains_key(new_ids@[a]));
                    }
                }
            }
            i = i + 1;
        }
        let ghost inner_infos = inner.infos();
        let mut t: usize = 0;
        while t < internal.len()
            invariant
                *self == g0,
                self.wf(),
                infos0 == self.infos(),
                es == self.edge_list(),
                internal@ == internal_edges(es, sel@),
                forall|u: int| 0 <= u < internal@.len() ==> is_internal(#[trigger] internal@[u], sel@) && es.contains(internal@[u]),
                inner.wf(),
                inner.infos() == inner_infos,
                old_ids@.len() == sel@.len(),
                new_ids@.len() == sel@.len(),
                forall|j: int| 0 <= j < sel@.len() ==> #[trigger] old_ids@[j] == sel@[j].id,
                forall|j: int| 0 <= j < sel@.len() ==> f[(#[trigger] sel@[j]).id] == new_ids@[j],
                sel@.no_duplicates(),
                forall|j: int| 0 <= j < sel@.len() ==> #[trigger] inner_infos[new_ids@[j]]@ == infos0[sel@[j].id]@,
                forall|j: int| 0 <= j < sel@.len() ==> inner_infos.contains_key(#[trigger] new_ids@[j]),
                forall|a: int, b: int| 0 <= a < b < sel@.len() ==> #[trigger] new_ids@[a] != #[trigger] new_ids@[b],
                t <= internal@.len(),
                inner.edge_list() == internal@.take(t as int).map_values(|e: Edge| rename_edge(e, f)),
            decreases internal@.len() - t,
        {
            let e = internal[t];
            let ghost ja = choose|j: int| 0 <= j < sel@.len() && sel@[j] == e.from.node;
            let ghost jb = choose|j: int| 0 <= j < sel@.len() && sel@[j] == e.to.node;
            proof {
                assert(is_internal(internal@[t as int], sel@));
                assert(old_ids@[ja] == e.from.node.id);
                assert(old_ids@[jb] == e.to.node.id);
                assert forall|a: int, b: int| 0 <= a < sel@.len() && 0 <= b < sel@.len() && old_ids@[a] == old_ids@[b] implies a == b by {
                    assert(sel@[a].id == sel@[b].id);
                    assert(sel@[a] == sel@[b]);
                }
            }
            let from_id = counterpart(&old_ids, &new_ids, e.from.node.id);
            let to_id = counterpart(&old_ids, &new_ids, e.to.node.id);
            let from = Port { node: NodeKey { id: from_id }, port: e.from.port, kind: e.from.kind };
            let to = Port { node: NodeKey { id: to_id }, port: e.to.port, kind: e.to.kind };
            proof {
                assert(from_id == new_ids@[ja]);
                assert(to_id == new_ids@[jb]);
                let k = choose|k: int| 0 <= k < es.len() && es[k] == e;
                assert(edge_ok(infos0, es[k]));
                assert(ja != jb);
                assert(from_id != to_id) by {
                    if ja < jb {
                        assert(new_ids@[ja] != new_ids@[jb]);
                    } else {
                        assert(new_ids@[jb] != new_ids@[ja]);
                    }
                }
                assert(from == rename_port(e.from, f));
                assert(to == rename_port(e.to, f));
            }
            let ghost before = inner.edge_list();
            let _ = inner.connect(from, to);
            proof {
                assert(internal@.take(t + 1).map_values(|e: Edge| rename_edge(e, f))
                    =~= before.push(rename_edge(e, f)));
            }
            t = t + 1;
        }
        proof {
            assert(internal@.take(t as int) == internal@);
        }
        let mut in_desc: Vec<UnconnectedInput> = Vec::new();
        let mut in_names: Vec<String> = Vec::new();
        let mut b: usize = 0;
        while b < bins.len()
            invariant
                *self == g0,
                self.wf(),
                infos0 == self.infos(),
                es == self.edge_list(),
                bins@ == boundary_inputs(es, sel@),
                forall|i: int| 0 <= i < bins@.len() ==> exists|k: int|
                    0 <= k < es.len() && is_inbound(es[k], sel@) && es[k].to == #[trigger] bins@[i],
                old_ids@.len() == sel@.len(),
                new_ids@.len() == sel@.len(),
                forall|j: int| 0 <= j < sel@.len() ==> #[trigger] old_ids@[j] == sel@[j].id,
                forall|j: int| 0 <= j < sel@.len() ==> f[(#[trigger] sel@[j]).id] == new_ids@[j],
                sel@.no_duplicates(),
                b <= bins@.len(),
                in_desc@.len() == b,
                in_names@.len() == b,
                forall|j: int| 0 <= j < b ==> (#[trigger] in_desc@[j]).view_spec() == (
                    NodeKey { id: f[bins@[j].node.id] },
                    bins@[j].port,
                    input_name(infos0, bins@[j]),
                ),
                forall|j: int| 0 <= j < b ==> (#[trigger] in_names@[j])@ == input_name(infos0, bins@[j]),
            decreases bins@.len() - b,
        {
            let p = bins[b];
            let ghost k = choose|k: int| 0 <= k < es.len() && is_inbound(es[k], sel@) && es[k].to == bins@[b as int];
            let ghost j = choose|j: int| 0 <= j < sel@.len() && sel@[j] == p.node;
            proof {
                assert(edge_ok(infos0, es[k]));
                assert(old_ids@[j] == p.node.id);
                assert forall|a: int, c: int| 0 <= a < sel@.len() && 0 <= c < sel@.len() && old_ids@[a] == old_ids@[c] implies a == c by {
                    assert(sel@[a] == sel@[c]);
                }
            }
            let info = self.get_node(p.node).unwrap();
            let name = info.inputs[p.port].name.clone();
            let id = counterpart(&old_ids, &new_ids, p.node.id);
            proof {
                assert(info.inputs@[p.port as int].name@ == crate::node::inputs_view(info.inputs@)[p.port as int].1);
                assert(id == new_ids@[j]);
            }
            in_names.push(name.clone());
            in_desc.push(UnconnectedInput { node_key: NodeKey { id }, port_idx: p.port, name });
            b = b + 1;
        }
        let mut out_desc: Vec<UnconnectedOutput> = Vec::new();
        let mut out_names: Vec<String> = Vec::new();
        let mut b: usize = 0;
        while b < bouts.len()
            invariant
                *self == g0,
                self.wf(),
                infos0 == self.infos(),
                es == self.edge_list(),
                bouts@ == boundary_outputs(es, sel@),
                forall|i: int| 0 <= i < bouts@.len() ==> exists|k: int|
                    0 <= k < es.len() && is_outbound(es[k], sel@) && es[k].from == #[trigger] bouts@[i],
                old_ids@.len() == sel@.len(),
                new_ids@.len() == sel@.len(),
                forall|j: int| 0 <= j < sel@.len() ==> #[trigger] old_ids@[j] == sel@[j].id,
                forall|j: int| 0 <= j < sel@.len() ==> f[(#[trigger] sel@[j]).id] == new_ids@[j],
                sel@.no_duplicates(),
                b <= bouts@.len(),
                out_desc@.len() == b,
                out_names@.len() == b,
                forall|j: int| 0 <= j < b ==> (#[trigger] out_desc@[j]).view_spec() == (
                    NodeKey { id: f[bouts@[j].node.id] },
                    bouts@[j].port,
                    output_name(infos0, bouts@[j]),
                ),
                forall|j: int| 0 <= j < b ==> (#[trigger] out_names@[j])@ == output_name(infos0, bouts@[j]),
            decreases bouts@.len() - b,
        {
            let p = bouts[b];
            let ghost k = choose|k: int| 0 <= k < es.len() && is_outbound(es[k], sel@) && es[k].from == bouts@[b as int];
            let ghost j = choose|j: int| 0 <= j < sel@.len() && sel@[j] == p.node;
            proof {
                assert(edge_ok(infos0, es[k]));
                assert(old_ids@[j] == p.node.id);
                assert forall|a: int, c: int| 0 <= a < sel@.len() && 0 <= c < sel@.len() && old_ids@[a] == old_ids@[c] implies a == c by {
                    assert(sel@[a] == sel@[c]);
                }
            }
            let info = self.get_node(p.node).unwrap();
            let name = info.outputs[p.port].name.clone();
            let id = counterpart(&old_ids, &new_ids, p.node.id);
            proof {
                assert(info.outputs@[p.port as int].name@ == crate::node::outputs_view(info.outputs@)[p.port as int].1);
                assert(id == new_ids@[j]);
            }
            out_names.push(name.clone());
            out_desc.push(UnconnectedOutput { node_key: NodeKey { id }, port_idx: p.port, name });
            b = b + 1;
        }
        let added = keys_of(&new_ids);
        let sub = Subgraph { subgraph: inner, inputs: in_desc, outputs: out_desc };
        proof {
            assert(extracted(g0, sel@, sub, added@, f)) by {
                assert forall|i: int| 0 <= i < sel@.len() implies sub.subgraph.has(NodeKey { id: f[(#[trigger] sel@[i]).id] })
                    && sub.subgraph.infos()[f[sel@[i].id]]@ == g0.infos()[sel@[i].id]@ by {
                    assert(new_ids@.contains(new_ids@[i]));
                }
                assert forall|id: u64| #[trigger] sub.subgraph.infos().contains_key(id) implies exists|i: int|
                    0 <= i < sel@.len() && f[sel@[i].id] == id by {
                    let j = choose|j: int| 0 <= j < new_ids@.len() && new_ids@[j] == id;
                    assert(f[sel@[j].id] == id);
                }
                assert forall|i: int, j: int| 0 <= i < sel@.len() && 0 <= j < sel@.len() && #[trigger] f[sel@[i].id]
                    == #[trigger] f[sel@[j].id] implies i == j by {
                    if i < j {
                        assert(new_ids@[i] != new_ids@[j]);
                    } else if j < i {
                        assert(new_ids@[j] != new_ids@[i]);
                    }
                }
                assert forall|i: int| 0 <= i < sel@.len() implies #[trigger] added@[i] == (NodeKey { id: f[sel@[i].id] }) by {
                    assert(added@[i] == (NodeKey { id: new_ids@[i] }));
                }
            }
            assert(exists|f2: Map<u64, u64>| extracted(*self, sel@, sub, added@, f2));
        }
        let res = (sub, in_names, out_names, added);
        assert(res.3@ == added@);
        assert(res.0 == sub);
        assert(exists|f2: Map<u64, u64>| extracted(*self, sel@, res.0, res.3@, f2));
        res
    }

    /// Cut the nodes `sel` out into a nested graph behind one new composite
    /// node. Every edge that crossed into or out of `sel` is reattached to the
    /// composite node's input or output for the boundary port it used; the
    /// nested graph holds copies of the nodes of `sel` and the edges among
    /// them. Returns the composite node's handle, its nested graph, and the
    /// nested handles of the nodes of `sel`, in the order of `sel`.
    #[verifier::rlimit(40)]
    pub fn group(&mut self, sel: &Vec<NodeKey>) -> (r: (NodeKey, Subgraph, Vec<NodeKey>))
        requires
            old(self).wf(),
            sel@.no_duplicates(),
            forall|i: int| 0 <= i < sel@.len() ==> old(self).has(#[trigger] sel@[i]),
            old(self).infos().dom().len() < 4294967294,
        ensures
            final(self).wf(),
            !old(self).has(r.0),
            forall|id: u64| #[trigger] final(self).infos().contains_key(id) <==> (id == r.0.id || (old(self).infos().contains_key(id)
                && !sel@.contains(NodeKey { id }))),
            forall|id: u64| old(self).infos().contains_key(id) && !sel@.contains(NodeKey { id })
                ==> #[trigger] final(self).infos()[id] == old(self).infos()[id],
            composite_ok(final(self).infos()[r.0.id]@, *old(self), sel@),
            final(self).edge_list() == strip(old(self).edge_list(), sel@) + rewired_in(
                old(self).edge_list(),
                sel@,
                boundary_inputs(old(self).edge_list(), sel@),
                r.0,
            ) + rewired_out(old(self).edge_list(), sel@, boundary_outputs(old(self).edge_list(), sel@), r.0),
            r.1.subgraph.wf(),
            exists|f: Map<u64, u64>| extracted(*old(self), sel@, r.1, r.2@, f),
    {
        let ghost g0 = *self;
        let ghost es = self.edge_list();
        let ghost infos0 = self.infos();
        let (internal, bins, bouts) = classify(self.edges(), sel);
        let (sub, in_names, out_names, inner_keys) = self.extract(sel, &internal, &bins, &bouts);
        let comp = NodeInfo::new("Subgraph", &in_names, &out_names);
        let ghost cv = comp@;
        assert(composite_ok(cv, g0, sel@));
        let ghost sub_ok = exists|f: Map<u64, u64>| extracted(g0, sel@, sub, inner_keys@, f);
        assert(sub_ok);
        let c = self.add(comp);
        let ghost mid = self.infos();
        let (rin, rout) = rewire(self.edges(), sel, &bins, &bouts, c);
        self.detach_all(sel);
        let ghost fin = self.infos();
        proof {
            assert(fin.contains_key(c.id)) by {
                if sel@.contains(c) {
                    let j = choose|j: int| 0 <= j < sel@.len() && sel@[j] == c;
                }
            }
            assert(fin[c.id]@ == cv);
            assert forall|id: u64| #[trigger] infos0.contains_key(id) && !sel@.contains(NodeKey { id })
                implies fin.contains_key(id) && fin[id] == infos0[id] by {
                assert(mid.contains_key(id));
            }
            assert(forall|k: int| 0 <= k < es.len() ==> edge_ok(infos0, #[trigger] es[k]));
            lemma_rewired_ok(es, sel@, infos0, fin, c);
        }
        self.connect_all(&rin);
        self.connect_all(&rout);
        proof {
        }
        assert(sub_ok);
        let res = (c, sub, inner_keys);
        assert(res.1 == sub);
        assert(res.2@ == inner_keys@);
        assert(exists|f2: Map<u64, u64>| extracted(g0, sel@, res.1, res.2@, f2));
        res
    }
}

/// The edges of `es` that touch the composite node `c`, each moved from the
/// composite's port to the inner port that it stands for in `sub`, under the
/// inner handles' new names `f`.
pub open spec fn reattached(es: Seq<Edge>, c: NodeKey, sub: Subgraph, f: Map<u64, u64>) -> Seq<Edge>
    decreases es.len(),
{
    if es.len() == 0 {
        seq![]
    } else {
        let r = reattached(es.drop_last(), c, sub, f);
        let e = es.last();
        if e.to.node == c {
            let u = sub.inputs@[e.to.port as int];
            r.push(Edge { from: e.from, to: Port::input_spec(NodeKey { id: f[u.node_key.id] }, u.port_idx) })
        } else if e.from.node == c {
            let u = sub.outputs@[e.from.port as int];
            r.push(Edge { from: Port::output_spec(NodeKey { id: f[u.node_key.id] }, u.port_idx), to: e.to })
        } else {
            r
        }
    }
}

/// Each reattached edge keeps the far end of an edge that touched `c`.
proof fn lemma_reattached_members(es: Seq<Edge>, c: NodeKey, sub: Subgraph, f: Map<u64, u64>)
    ensures
        forall|t: int| 0 <= t < reattached(es, c, sub, f).len() ==> exists|k: int|
            0 <= k < es.len() && ((es[k].to.node == c && #[trigger] reattached(es, c, sub, f)[t] == (Edge {
                from: es[k].from,
                to: Port::input_spec(NodeKey { id: f[sub.inputs@[es[k].to.port as int].node_key.id] }, sub.inputs@[es[k].to.port as int].port_idx),
            })) || (es[k].to.node != c && es[k].from.node == c && reattached(es, c, sub, f)[t] == (Edge {
                from: Port::output_spec(NodeKey { id: f[sub.outputs@[es[k].from.port as int].node_key.id] }, sub.outputs@[es[k].from.port as int].port_idx),
                to: es[k].to,
            }))),
    decreases es.len(),
{
    if es.len() > 0 {
        lemma_reattached_members(es.drop_last(), c, sub, f);
        let r = reattached(es, c, sub, f);
        let p = reattached(es.drop_last(), c, sub, f);
        assert forall|t: int| 0 <= t < r.len() implies exists|k: int|
            0 <= k < es.len() && ((es[k].to.node == c && #[trigger] r[t] == (Edge {
                from: es[k].from,
                to: Port::input_spec(NodeKey { id: f[sub.inputs@[es[k].to.port as int].node_key.id] }, sub.inputs@[es[k].to.port as int].port_idx),
            })) || (es[k].to.node != c && es[k].from.node == c && r[t] == (Edge {
                from: Port::output_spec(NodeKey { id: f[sub.outputs@[es[k].from.port as int].node_key.id] }, sub.outputs@[es[k].from.port as int].port_idx),
                to: es[k].to,
            }))) by {
            if t < p.len() {
                assert(r[t] == p[t]);
                let k = choose|k: int|
                    0 <= k < es.drop_last().len() && ((es.drop_last()[k].to.node == c && p[t] == (Edge {
                        from: es.drop_last()[k].from,
                        to: Port::input_spec(NodeKey { id: f[sub.inputs@[es.drop_last()[k].to.port as int].node_key.id] }, sub.inputs@[es.drop_last()[k].to.port as int].port_idx),
                    })) || (es.drop_last()[k].to.node != c && es.drop_last()[k].from.node == c && p[t] == (Edge {
                        from: Port::output_spec(NodeKey { id: f[sub.outputs@[es.drop_last()[k].from.port as int].node_key.id] }, sub.outputs@[es.drop_last()[k].from.port as int].port_idx),
                        to: es.drop_last()[k].to,
                    })));
                assert(es[k] == es.drop_last()[k]);
            } else {
                let k = es.len() - 1;
                assert(es[k] == es.last());
            }
        }
    }
}

impl Graph {
    /// Put the nodes of the composite node `c`, whose nested graph and
    /// boundary are `sub`, back into this graph: each inner node is stored
    /// anew, the inner edges follow, every edge at a port of `c` is moved to
    /// the inner port that the port stands for, and `c` is removed. Returns
    /// the new handles of the inner nodes, in the nested store's order.
    #[verifier::rlimit(40)]
    pub fn ungroup(&mut self, c: NodeKey, sub: &Subgraph) -> (r: Vec<NodeKey>)
        requires
            old(self).wf(),
            old(self).has(c),
            sub.subgraph.wf(),
            old(self).infos()[c.id]@.inputs.len() == sub.inputs@.len(),
            old(self).infos()[c.id]@.outputs.len() == sub.outputs@.len(),
            forall|i: int| 0 <= i < sub.inputs@.len() ==> sub.subgraph.has((#[trigger] sub.inputs@[i]).node_key)
                && sub.inputs@[i].port_idx < sub.subgraph.infos()[sub.inputs@[i].node_key.id]@.inputs.len(),
            forall|i: int| 0 <= i < sub.outputs@.len() ==> sub.subgraph.has((#[trigger] sub.outputs@[i]).node_key)
                && sub.outputs@[i].port_idx < sub.subgraph.infos()[sub.outputs@[i].node_key.id]@.outputs.len(),
            old(self).infos().dom().len() + sub.subgraph.infos().dom().len() <= 4294967294,
        ensures
            final(self).wf(),
            r@.len() == sub.subgraph.keys().len(),
            forall|j: int| 0 <= j < r@.len() ==> !old(self).has(#[trigger] r@[j]),
            forall|id: u64| #[trigger] final(self).infos().contains_key(id) <==> ((old(self).infos().contains_key(id) && id != c.id)
                || exists|j: int| 0 <= j < r@.len() && r@[j].id == id),
            forall|id: u64| old(self).infos().contains_key(id) && id != c.id ==> #[trigger] final(self).infos()[id] == old(self).infos()[id],
            exists|f: Map<u64, u64>| {
                &&& forall|j: int| 0 <= j < r@.len() ==> (#[trigger] r@[j]).id == f[sub.subgraph.keys()[j].id]
                    && final(self).infos()[r@[j].id]@ == sub.subgraph.infos()[sub.subgraph.keys()[j].id]@
                &&& final(self).edge_list() == edges_without(
                    old(self).edge_list() + sub.subgraph.edge_list().map_values(|e: Edge| rename_edge(e, f)),
                    c,
                ) + reattached(old(self).edge_list(), c, *sub, f)
            },
    {
        let ghost g0 = *self;
        let ghost es = self.edge_list();
        let ghost infos0 = self.infos();
        let inner = &sub.subgraph;
        let ghost iinfos = inner.infos();
        let keys = inner.node_keys();
        proof {
            let ids = keys@.map_values(|k: NodeKey| k.id);
            assert(ids.no_duplicates());
            ids.unique_seq_to_set();
            assert(ids.to_set().subset_of(iinfos.dom())) by {
                assert forall|id: u64| ids.to_set().contains(id) implies iinfos.dom().contains(id) by {
                    let j = choose|j: int| 0 <= j < ids.len() && ids[j] == id;
                    assert(keys@[j].id == id);
                }
            }
            vstd::set_lib::lemma_len_subset(ids.to_set(), iinfos.dom());
        }
        let mut old_ids: Vec<u64> = Vec::new();
        let mut new_ids: Vec<u64> = Vec::new();
        let mut added: Vec<NodeKey> = Vec::new();
        let ghost mut f: Map<u64, u64> = Map::empty();
        let mut i: usize = 0;
        while i < keys.len()
            invariant
                self.wf(),
                inner.wf(),
                iinfos == inner.infos(),
                keys@ == inner.keys(),
                es == self.edge_list(),
                infos0.dom().len() + keys@.len() <= 4294967294,
                i <= keys@.len(),
                old_ids@.len() == i,
                new_ids@.len() == i,
                added@.len() == i,
                forall|j: int| 0 <= j < i ==> #[trigger] old_ids@[j] == keys@[j].id,
                forall|j: int| 0 <= j < i ==> (#[trigger] added@[j]).id == new_ids@[j],
                forall|j: int| 0 <= j < i ==> f[(#[trigger] keys@[j]).id] == new_ids@[j],
                self.infos().dom().len() == infos0.dom().len() + i,
                forall|id: u64| #[trigger] self.infos().contains_key(id) <==> (infos0.contains_key(id) || new_ids@.contains(id)),
                forall|id: u64| #[trigger] infos0.contains_key(id) ==> self.infos()[id] == infos0[id],
                forall|j: int| 0 <= j < i ==> !infos0.contains_key(#[trigger] new_ids@[j]),
                forall|j: int| 0 <= j < i ==> #[trigger] self.infos()[new_ids@[j]]@ == iinfos[keys@[j].id]@,
                forall|a: int, b: int| 0 <= a < b < i ==> #[trigger] new_ids@[a] != #[trigger] new_ids@[b],
            decreases keys@.len() - i,
        {
            let k = keys[i];
            let info = inner.get_node(k).unwrap().copy();
            let ghost before = self.infos();
            let ghost ni = new_ids@;
            let k2 = self.add(info);
            proof {
                f = f.insert(k.id, k2.id);
            }
            old_ids.push(k.id);
            new_ids.push(k2.id);
            added.push(k2);
            proof {
                assert(new_ids@ == ni.push(k2.id));
                assert forall|j: int| 0 <= j < i + 1 implies f[(#[trigger] keys@[j]).id] == new_ids@[j] by {
                    if j < i {
                        assert(keys@[j].id != keys@[i as int].id);
                    }
                }
                assert forall|id: u64| #[trigger] self.infos().contains_key(id) <==> (infos0.contains_key(id) || new_ids@.contains(id)) by {
                    if id == k2.id {
                        assert(new_ids@[i as int] == id);
                    } else {
                        if ni.contains(id) {
                            let j = choose|j: int| 0 <= j < ni.len() && ni[j] == id;
                            assert(new_ids@[j] == id);
                        }
                        if new_ids@.contains(id) {
                            let j = choose|j: int| 0 <= j < new_ids@.len() && new_ids@[j] == id;
                            assert(ni[j] == id);
                        }
                    }
                }
                assert forall|j: int| 0 <= j < i + 1 implies !infos0.contains_key(#[trigger] new_ids@[j]) by {}
                assert forall|j: int| 0 <= j < i + 1 implies #[trigger] self.infos()[new_ids@[j]]@ == iinfos[keys@[j].id]@ by {
                    if j < i {
                        assert(ni.contains(ni[j]));
                        assert(new_ids@[j] != k2.id);
                    }
                }
                assert forall|a: int, b: int| 0 <= a < b < i + 1 implies #[trigger] new_ids@[a] != #[trigger] new_ids@[b] by {
                    if b == i {
                        assert(ni.contains(ni[a]));
                        assert(before.contains_key(new_ids@[a]));
                    }
                }
            }
            i = i + 1;
        }
        let ghost infos1 = self.infos();
        proof {
            assert forall|id: u64| #[trigger] iinfos.contains_key(id) implies old_ids@.contains(id) by {
                assert(inner.keys().contains(NodeKey { id }));
                let j = choose|j: int| 0 <= j < keys@.len() && keys@[j] == NodeKey { id };
                assert(old_ids@[j] == id);
            }
            assert forall|a: int, b: int| 0 <= a < keys@.len() && 0 <= b < keys@.len() && old_ids@[a] == old_ids@[b] implies a == b by {
                assert(keys@[a] == keys@[b]);
            }
        }
        let mut pending: Vec<Edge> = Vec::new();
        let mut k: usize = 0;
        while k < self.edges().len()
            invariant
                self.wf(),
                es == self.edge_list(),
                infos1 == self.infos(),
                infos0.contains_key(c.id),
                infos0[c.id]@.inputs.len() == sub.inputs@.len(),
                infos0[c.id]@.outputs.len() == sub.outputs@.len(),
                forall|id: u64| #[trigger] infos0.contains_key(id) ==> infos1[id] == infos0[id],
                forall|i: int| 0 <= i < sub.inputs@.len() ==> inner.has((#[trigger] sub.inputs@[i]).node_key),
                forall|i: int| 0 <= i < sub.outputs@.len() ==> inner.has((#[trigger] sub.outputs@[i]).node_key),
                iinfos == inner.infos(),
                forall|id: u64| #[trigger] iinfos.contains_key(id) ==> old_ids@.contains(id),
                old_ids@.len() == keys@.len(),
                new_ids@.len() == keys@.len(),
                forall|j: int| 0 <= j < keys@.len() ==> #[trigger] old_ids@[j] == keys@[j].id,
                forall|j: int| 0 <= j < keys@.len() ==> f[(#[trigger] keys@[j]).id] == new_ids@[j],
                forall|a: int, b: int| 0 <= a < keys@.len() && 0 <= b < keys@.len() && old_ids@[a] == old_ids@[b] ==> a == b,
                k <= es.len(),
                pending@ == reattached(es.take(k as int), c, *sub, f),
            decreases es.len() - k,
        {
            assert(es.take(k + 1).drop_last() == es.take(k as int));
            let e = self.edges()[k];
            proof {
                assert(edge_ok(infos1, es[k as int]));
            }
            if e.to.node == c {
                let u = &sub.inputs[e.to.port];
                let id = counterpart(&old_ids, &new_ids, u.node_key.id);
                proof {
                    let j = choose|j: int| 0 <= j < old_ids@.len() && old_ids@[j] == u.node_key.id && new_ids@[j] == id;
                    assert(f[keys@[j].id] == id);
                }
                pending.push(Edge { from: e.from, to: Port::input(NodeKey { id }, u.port_idx) });
            } else if e.from.node == c {
                let u = &sub.outputs[e.from.port];
                let id = counterpart(&old_ids, &new_ids, u.node_key.id);
                proof {
                    let j = choose|j: int| 0 <= j < old_ids@.len() && old_ids@[j] == u.node_key.id && new_ids@[j] == id;
                    assert(f[keys@[j].id] == id);
                }
                pending.push(Edge { from: Port::output(NodeKey { id }, u.port_idx), to: e.to });
            }
            k = k + 1;
        }
        proof {
            assert(es.take(k as int) == es);
        }
        let ies = inner.edges();
        let mut t: usize = 0;
        while t < ies.len()
            invariant
                self.wf(),
                infos1 == self.infos(),
                inner.wf(),
                iinfos == inner.infos(),
                ies@ == inner.edge_list(),
                forall|id: u64| #[trigger] iinfos.contains_key(id) ==> old_ids@.contains(id),
                old_ids@.len() == keys@.len(),
                new_ids@.len() == keys@.len(),
                forall|j: int| 0 <= j < keys@.len() ==> #[trigger] old_ids@[j] == keys@[j].id,
                forall|j: int| 0 <= j < keys@.len() ==> f[(#[trigger] keys@[j]).id] == new_ids@[j],
                forall|a: int, b: int| 0 <= a < keys@.len() && 0 <= b < keys@.len() && old_ids@[a] == old_ids@[b] ==> a == b,
                forall|j: int| 0 <= j < keys@.len() ==> #[trigger] infos1[new_ids@[j]]@ == iinfos[keys@[j].id]@,
                forall|j: int| 0 <= j < keys@.len() ==> infos1.contains_key(#[trigger] new_ids@[j]),
                forall|a: int, b: int| 0 <= a < b < keys@.len() ==> #[trigger] new_ids@[a] != #[trigger] new_ids@[b],
                t <= ies@.len(),
                self.edge_list() == es + ies@.take(t as int).map_values(|e: Edge| rename_edge(e, f)),
            decreases ies@.len() - t,
        {
            let e = ies[t];
            proof {
                assert(edge_ok(iinfos, ies@[t as int]));
                assert(old_ids@.contains(e.from.node.id));
                assert(old_ids@.contains(e.to.node.id));
            }
            let from_id = counterpart(&old_ids, &new_ids, e.from.node.id);
            let to_id = counterpart(&old_ids, &new_ids, e.to.node.id);
            let from = Port { node: NodeKey { id: from_id }, port: e.from.port, kind: e.from.kind };
            let to = Port { node: NodeKey { id: to_id }, port: e.to.port, kind: e.to.kind };
            proof {
                let ja = choose|j: int| 0 <= j < old_ids@.len() && old_ids@[j] == e.from.node.id && new_ids@[j] == from_id;
                let jb = choose|j: int| 0 <= j < old_ids@.len() && old_ids@[j] == e.to.node.id && new_ids@[j] == to_id;
                assert(f[keys@[ja].id] == from_id);
                assert(f[keys@[jb].id] == to_id);
                assert(ja != jb);
                assert(from_id != to_id) by {
                    if ja < jb {
                        assert(new_ids@[ja] != new_ids@[jb]);
                    } else {
                        assert(new_ids@[jb] != new_ids@[ja]);
                    }
                }
                assert(from == rename_port(e.from, f));
                assert(to == rename_port(e.to, f));
            }
            let ghost before = self.edge_list();
            let _ = self.connect(from, to);
            proof {
                assert(ies@.take(t + 1).map_values(|e: Edge| rename_edge(e, f))
                    =~= ies@.take(t as int).map_values(|e: Edge| rename_edge(e, f)).push(rename_edge(e, f)));
                assert(self.edge_list() =~= es + ies@.take(t + 1).map_values(|e: Edge| rename_edge(e, f)));
            }
            t = t + 1;
        }
        proof {
            assert(ies@.take(t as int) == ies@);
        }
        self.remove(c);
        let ghost fin = self.infos();
        let ghost base = self.edge_list();
        proof {
            lemma_reattached_members(es, c, *sub, f);
        }
        let mut t: usize = 0;
        while t < pending.len()
            invariant
                self.wf(),
                fin == self.infos(),
                fin == infos1.remove(c.id),
                infos0.contains_key(c.id),
                infos0[c.id]@.inputs.len() == sub.inputs@.len(),
                infos0[c.id]@.outputs.len() == sub.outputs@.len(),
                forall|id: u64| #[trigger] infos0.contains_key(id) ==> infos1[id] == infos0[id],
                forall|id: u64| #[trigger] infos1.contains_key(id) <==> (infos0.contains_key(id) || new_ids@.contains(id)),
                forall|j: int| 0 <= j < keys@.len() ==> !infos0.contains_key(#[trigger] new_ids@[j]),
                forall|i: int| 0 <= i < sub.inputs@.len() ==> inner.has((#[trigger] sub.inputs@[i]).node_key)
                    && sub.inputs@[i].port_idx < inner.infos()[sub.inputs@[i].node_key.id]@.inputs.len(),
                forall|i: int| 0 <= i < sub.outputs@.len() ==> inner.has((#[trigger] sub.outputs@[i]).node_key)
                    && sub.outputs@[i].port_idx < inner.infos()[sub.outputs@[i].node_key.id]@.outputs.len(),
                iinfos == inner.infos(),
                forall|id: u64| #[trigger] iinfos.contains_key(id) ==> old_ids@.contains(id),
                old_ids@.len() == keys@.len(),
                new_ids@.len() == keys@.len(),
                forall|j: int| 0 <= j < keys@.len() ==> #[trigger] old_ids@[j] == keys@[j].id,
                forall|j: int| 0 <= j < keys@.len() ==> f[(#[trigger] keys@[j]).id] == new_ids@[j],
                forall|j: int| 0 <= j < keys@.len() ==> #[trigger] infos1[new_ids@[j]]@ == iinfos[keys@[j].id]@,
                forall|j: int| 0 <= j < keys@.len() ==> infos1.contains_key(#[trigger] new_ids@[j]),
                forall|k: int| 0 <= k < es.len() ==> edge_ok(infos0, #[trigger] es[k]),
                pending@ == reattached(es, c, *sub, f),
                forall|u: int| 0 <= u < pending@.len() ==> exists|k: int|
                    0 <= k < es.len() && ((es[k].to.node == c && #[trigger] pending@[u] == (Edge {
                        from: es[k].from,
                        to: Port::input_spec(NodeKey { id: f[sub.inputs@[es[k].to.port as int].node_key.id] }, sub.inputs@[es[k].to.port as int].port_idx),
                    })) || (es[k].to.node != c && es[k].from.node == c && pending@[u] == (Edge {
                        from: Port::output_spec(NodeKey { id: f[sub.outputs@[es[k].from.port as int].node_key.id] }, sub.outputs@[es[k].from.port as int].port_idx),
                        to: es[k].to,
                    }))),
                t <= pending@.len(),
                self.edge_list() == base + pending@.take(t as int),
            decreases pending@.len() - t,
        {
            let e = pending[t];
            proof {
                let k = choose|k: int|
                    0 <= k < es.len() && ((es[k].to.node == c && pending@[t as int] == (Edge {
                        from: es[k].from,
                        to: Port::input_spec(NodeKey { id: f[sub.inputs@[es[k].to.port as int].node_key.id] }, sub.inputs@[es[k].to.port as int].port_idx),
                    })) || (es[k].to.node != c && es[k].from.node == c && pending@[t as int] == (Edge {
                        from: Port::output_spec(NodeKey { id: f[sub.outputs@[es[k].from.port as int].node_key.id] }, sub.outputs@[es[k].from.port as int].port_idx),
                        to: es[k].to,
                    })));
                assert(edge_ok(infos0, es[k]));
                if es[k].to.node == c {
                    let u = sub.inputs@[es[k].to.port as int];
                    assert(old_ids@.contains(u.node_key.id));
                    let j = choose|j: int| 0 <= j < old_ids@.len() && old_ids@[j] == u.node_key.id;
                    assert(keys@[j].id == u.node_key.id);
                    assert(infos1.contains_key(new_ids@[j]));
                    assert(es[k].from.node.id != new_ids@[j]);
                } else {
                    let u = sub.outputs@[es[k].from.port as int];
                    assert(old_ids@.contains(u.node_key.id));
                    let j = choose|j: int| 0 <= j < old_ids@.len() && old_ids@[j] == u.node_key.id;
                    assert(keys@[j].id == u.node_key.id);
                    assert(infos1.contains_key(new_ids@[j]));
                    assert(es[k].to.node.id != new_ids@[j]);
                }
            }
            let ghost before = self.edge_list();
            let _ = self.connect(e.from, e.to);
            proof {
                assert(pending@.take(t + 1) =~= pending@.take(t as int).push(e));
                assert(before + pending@.take(t + 1) =~= (before + pending@.take(t as int)).push(e)) by {
                    assert(before == base + pending@.take(t as int));
                }
            }
            t = t + 1;
        }
        proof {
            assert(pending@.take(t as int) == pending@);
            assert forall|id: u64| #[trigger] self.infos().contains_key(id) <==> ((infos0.contains_key(id) && id != c.id)
                || exists|j: int| 0 <= j < added@.len() && added@[j].id == id) by {
                if new_ids@.contains(id) {
                    let j = choose|j: int| 0 <= j < new_ids@.len() && new_ids@[j] == id;
                    assert(added@[j].id == id);
                }
                if exists|j: int| 0 <= j < added@.len() && added@[j].id == id {
                    let j = choose|j: int| 0 <= j < added@.len() && added@[j].id == id;
                    assert(new_ids@[j] == id);
                    assert(id != c.id);
                }
            }
            assert forall|j: int| 0 <= j < added@.len() implies (#[trigger] added@[j]).id == f[inner.keys()[j].id]
                && self.infos()[added@[j].id]@ == iinfos[inner.keys()[j].id]@ by {
                assert(new_ids@[j] != c.id);
            }
        }
        added
    }
}

} // verus!
