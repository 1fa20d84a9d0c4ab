//! The graph: a node store, the wiring between ports, and the execution
//! schedule recomputed after every change of either.

use vstd::prelude::*;
use crate::node::NodeInfo;
use crate::port::{Edge, NodeKey, Port, PortKind, UnconnectedInput, UnconnectedOutput};
use crate::schedule::{
    avoids, clear_next, edges_entering, fed_once, feeds, sealed, edges_leaving, initial_frontier, inputs_ready, key_listed, round,
    lemma_rounds_ignore_next, rounds, schedule, spread_into, Sched,
};
use crate::store::{
    is_key_encoding, key_wf, no_entries, slot_contents, slot_order, store_clear, store_get,
    store_insert, store_keys, store_new, store_remove, NodeStore,
};

verus! {

/// One move of a tick: step a node, or carry an output value along an edge.
#[derive(Clone, Copy, PartialEq, Eq, Debug, Structural)]
pub enum Action {
    Step(NodeKey),
    Carry(Edge),
}

/// A tick over the schedule `order` with outgoing edge lists `outs`: each
/// node in turn is stepped and then its outputs are carried along its edges.
pub open spec fn plan_of(order: Seq<NodeKey>, outs: Seq<Seq<Edge>>) -> Seq<Action>
    decreases order.len(),
{
    if order.len() == 0 || outs.len() == 0 {
        seq![]
    } else {
        plan_of(order.drop_last(), outs.drop_last()) + seq![Action::Step(order.last())] + outs.last().map_values(
            |e: Edge| Action::Carry(e),
        )
    }
}

/// A request that the graph turns down, leaving itself as it was.
#[derive(Clone, Copy, PartialEq, Eq, Debug, Structural)]
pub enum GraphError {
    /// An edge from a node to itself was asked for.
    SelfLoop,
}

/// A dataflow graph of nodes and the schedule derived from its wiring.
pub struct Graph {
    nodes: NodeStore,
    edges: Vec<Edge>,
    node_order: Vec<NodeKey>,
    node_outputs: Vec<Vec<Edge>>,
    node_inputs: Vec<Vec<Edge>>,
    output_node: Option<NodeKey>,
}

pub open spec fn edge_views(v: Seq<Vec<Edge>>) -> Seq<Seq<Edge>> {
    v.map_values(|es: Vec<Edge>| es@)
}

pub open spec fn sched_of(
    order: Seq<NodeKey>,
    outs: Seq<Vec<Edge>>,
    ins: Seq<Vec<Edge>>,
    resolved: Seq<Port>,
    next: Seq<NodeKey>,
) -> Sched {
    Sched { order, outs: edge_views(outs), ins: edge_views(ins), resolved, next }
}

/// An edge runs from a declared output of a stored node to a declared input
/// of another stored node.
pub open spec fn edge_ok(infos: Map<u64, NodeInfo>, e: Edge) -> bool {
    e.from.node != e.to.node && ports_ok(infos, e)
}

/// The edge's ends are a declared output and a declared input of stored
/// nodes.
pub open spec fn ports_ok(infos: Map<u64, NodeInfo>, e: Edge) -> bool {
    &&& e.from.kind == PortKind::Output
    &&& e.to.kind == PortKind::Input
    &&& infos.contains_key(e.from.node.id)
    &&& infos.contains_key(e.to.node.id)
    &&& e.from.port < infos[e.from.node.id]@.outputs.len()
    &&& e.to.port < infos[e.to.node.id]@.inputs.len()
}

/// The last edge of `es` that ends at `p`.
pub open spec fn last_edge_to(es: Seq<Edge>, p: Port) -> Option<Edge>
    decreases es.len(),
{
    if es.len() == 0 {
        None
    } else if es.last().to == p {
        Some(es.last())
    } else {
        last_edge_to(es.drop_last(), p)
    }
}

/// An edge touches node `h` at one of its ends.
pub open spec fn touches(e: Edge, h: NodeKey) -> bool {
    e.from.node == h || e.to.node == h
}

/// The edges of `es` that do not touch `h`, in order.
pub open spec fn edges_without(es: Seq<Edge>, h: NodeKey) -> Seq<Edge>
    decreases es.len(),
{
    if es.len() == 0 {
        seq![]
    } else if touches(es.last(), h) {
        edges_without(es.drop_last(), h)
    } else {
        edges_without(es.drop_last(), h).push(es.last())
    }
}

/// The edges `new_es` are `old_es` without the first occurrence of `target`,
/// if it occurs.
pub open spec fn without_first_edge(old_es: Seq<Edge>, new_es: Seq<Edge>, target: Edge) -> bool {
    if old_es.contains(target) {
        exists|i: int|
            0 <= i < old_es.len() && old_es[i] == target && (forall|j: int| 0 <= j < i ==> #[trigger] old_es[j] != target)
                && new_es == old_es.remove(i)
    } else {
        new_es == old_es
    }
}

/// The edges `new_es` are `old_es` without the first edge that ends at `p`,
/// if one does.
pub open spec fn without_first_into(old_es: Seq<Edge>, new_es: Seq<Edge>, p: Port) -> bool {
    if feeds(old_es, p) {
        exists|i: int|
            0 <= i < old_es.len() && old_es[i].to == p && (forall|j: int| 0 <= j < i ==> (#[trigger] old_es[j]).to != p)
                && new_es == old_es.remove(i)
    } else {
        new_es == old_es
    }
}

proof fn lemma_edges_without_members(es: Seq<Edge>, h: NodeKey)
    ensures
        forall|t: int|
            0 <= t < edges_without(es, h).len() ==> !touches(#[trigger] edges_without(es, h)[t], h) && es.contains(
                edges_without(es, h)[t],
            ),
    decreases es.len(),
{
    if es.len() > 0 {
        lemma_edges_without_members(es.drop_last(), h);
        let r = edges_without(es, h);
        assert forall|t: int| 0 <= t < r.len() implies !touches(#[trigger] r[t], h) && es.contains(r[t]) by {
            if t < edges_without(es.drop_last(), h).len() {
                let k = choose|k: int| 0 <= k < es.drop_last().len() && es.drop_last()[k] == r[t];
                assert(es[k] == r[t]);
            } else {
                assert(es[es.len() - 1] == r[t]);
            }
        }
    }
}

/// Some edge ends at input `port` of `k`.
pub open spec fn input_used(edges: Seq<Edge>, k: NodeKey, port: usize) -> bool {
    exists|j: int| 0 <= j < edges.len() && (#[trigger] edges[j]).to.node == k && edges[j].to.port == port
}

/// Some edge starts at output `port` of `k`.
pub open spec fn output_used(edges: Seq<Edge>, k: NodeKey, port: usize) -> bool {
    exists|j: int| 0 <= j < edges.len() && (#[trigger] edges[j]).from.node == k && edges[j].from.port == port
}

/// The input ports among `ports` of node `k` that no edge feeds, in order.
pub open spec fn free_inputs(ports: Seq<(usize, Seq<char>)>, edges: Seq<Edge>, k: NodeKey) -> Seq<(NodeKey, usize, Seq<char>)>
    decreases ports.len(),
{
    if ports.len() == 0 {
        seq![]
    } else if input_used(edges, k, ports.last().0) {
        free_inputs(ports.drop_last(), edges, k)
    } else {
        free_inputs(ports.drop_last(), edges, k).push((k, ports.last().0, ports.last().1))
    }
}

/// The output ports among `ports` of node `k` that feed no edge, in order.
pub open spec fn free_outputs(ports: Seq<(usize, Seq<char>)>, edges: Seq<Edge>, k: NodeKey) -> Seq<(NodeKey, usize, Seq<char>)>
    decreases ports.len(),
{
    if ports.len() == 0 {
        seq![]
    } else if output_used(edges, k, ports.last().0) {
        free_outputs(ports.drop_last(), edges, k)
    } else {
        free_outputs(ports.drop_last(), edges, k).push((k, ports.last().0, ports.last().1))
    }
}

/// The unfed inputs of the nodes `keys`, node after node.
pub open spec fn all_free_inputs(keys: Seq<NodeKey>, infos: Map<u64, NodeInfo>, edges: Seq<Edge>) -> Seq<(NodeKey, usize, Seq<char>)>
    decreases keys.len(),
{
    if keys.len() == 0 {
        seq![]
    } else {
        all_free_inputs(keys.drop_last(), infos, edges) + free_inputs(infos[keys.last().id]@.inputs, edges, keys.last())
    }
}

/// The unused outputs of the nodes `keys`, node after node.
pub open spec fn all_free_outputs(keys: Seq<NodeKey>, infos: Map<u64, NodeInfo>, edges: Seq<Edge>) -> Seq<(NodeKey, usize, Seq<char>)>
    decreases keys.len(),
{
    if keys.len() == 0 {
        seq![]
    } else {
        all_free_outputs(keys.drop_last(), infos, edges) + free_outputs(infos[keys.last().id]@.outputs, edges, keys.last())
    }
}

pub open spec fn uin_views(v: Seq<UnconnectedInput>) -> Seq<(NodeKey, usize, Seq<char>)> {
    v.map_values(|u: UnconnectedInput| u.view_spec())
}

pub open spec fn uout_views(v: Seq<UnconnectedOutput>) -> Seq<(NodeKey, usize, Seq<char>)> {
    v.map_values(|u: UnconnectedOutput| u.view_spec())
}

/// Whether an edge of `edges` ends at input `port` of `k`.
fn input_in_use(edges: &Vec<Edge>, k: NodeKey, port: usize) -> (r: bool)
    ensures
        r == input_used(edges@, k, port),
{
    let mut j: usize = 0;
    while j < edges.len()
        invariant
            j <= edges@.len(),
            forall|i: int| 0 <= i < j ==> !((#[trigger] edges@[i]).to.node == k && edges@[i].to.port == port),
        decreases edges@.len() - j,
    {
        if edges[j].to.node == k && edges[j].to.port == port {
            return true;
        }
        j = j + 1;
    }
    false
}

/// Whether an edge of `edges` starts at output `port` of `k`.
fn output_in_use(edges: &Vec<Edge>, k: NodeKey, port: usize) -> (r: bool)
    ensures
        r == output_used(edges@, k, port),
{
    let mut j: usize = 0;
    while j < edges.len()
        invariant
            j <= edges@.len(),
            forall|i: int| 0 <= i < j ==> !((#[trigger] edges@[i]).from.node == k && edges@[i].from.port == port),
        decreases edges@.len() - j,
    {
        if edges[j].from.node == k && edges[j].from.port == port {
            return true;
        }
        j = j + 1;
    }
    false
}

pub open spec fn rename_port(p: Port, f: Map<u64, u64>) -> Port {
    Port { node: NodeKey { id: f[p.node.id] }, port: p.port, kind: p.kind }
}

pub open spec fn rename_edge(e: Edge, f: Map<u64, u64>) -> Edge {
    Edge { from: rename_port(e.from, f), to: rename_port(e.to, f) }
}

/// `f` maps the handles of `g` one to one onto the handles of `r`; each node
/// of `r` is described as its counterpart in `g`, each edge of `r` is the
/// renamed edge of `g` at the same place, and the designated output is the
/// renamed one.
pub open spec fn renamed(g: Graph, r: Graph, f: Map<u64, u64>) -> bool {
    &&& f.dom() == g.infos().dom()
    &&& forall|id: u64| #[trigger] g.infos().contains_key(id) ==> r.infos().contains_key(f[id]) && r.infos()[f[id]]@ == g.infos()[id]@
    &&& forall|id: u64| #[trigger] r.infos().contains_key(id) ==> exists|id0: u64| g.infos().contains_key(id0) && f[id0] == id
    &&& forall|a: u64, b: u64| g.infos().contains_key(a) && g.infos().contains_key(b) && #[trigger] f[a] == #[trigger] f[b] ==> a == b
    &&& r.edge_list().len() == g.edge_list().len()
    &&& forall|k: int| 0 <= k < g.edge_list().len() ==> r.edge_list()[k] == rename_edge(#[trigger] g.edge_list()[k], f)
    &&& r.output() == (match g.output() { Some(o) => Some(NodeKey { id: f[o.id] }), None => None })
}

/// The position in `old_ids` of `id` gives its counterpart in `new_ids`.
pub(crate) fn counterpart(old_ids: &Vec<u64>, new_ids: &Vec<u64>, id: u64) -> (r: u64)
    requires
        old_ids@.len() == new_ids@.len(),
        old_ids@.contains(id),
    ensures
        exists|i: int| 0 <= i < old_ids@.len() && old_ids@[i] == id && new_ids@[i] == r,
{
    let mut i: usize = 0;
    while i < old_ids.len()
        invariant
            old_ids@.len() == new_ids@.len(),
            old_ids@.contains(id),
            i <= old_ids@.len(),
            forall|j: int| 0 <= j < i ==> old_ids@[j] != id,
        decreases old_ids@.len() - i,
    {
        if old_ids[i] == id {
            return new_ids[i];
        }
        i = i + 1;
    }
    0
}

impl Graph {
    /// The stored node descriptions, by handle.
    pub closed spec fn infos(&self) -> Map<u64, NodeInfo> {
        slot_contents(self.nodes)
    }

    /// The handles in the store's enumeration order.
    pub closed spec fn keys(&self) -> Seq<NodeKey> {
        slot_order(self.nodes).map_values(|id: u64| NodeKey { id })
    }

    pub closed spec fn edge_list(&self) -> Seq<Edge> {
        self.edges@
    }

    pub closed spec fn order(&self) -> Seq<NodeKey> {
        self.node_order@
    }

    pub closed spec fn outs(&self) -> Seq<Seq<Edge>> {
        edge_views(self.node_outputs@)
    }

    pub closed spec fn ins(&self) -> Seq<Seq<Edge>> {
        edge_views(self.node_inputs@)
    }

    pub closed spec fn output(&self) -> Option<NodeKey> {
        self.output_node
    }

    pub open spec fn has(&self, k: NodeKey) -> bool {
        self.infos().contains_key(k.id)
    }

    /// The store, the edges and the designated output agree with each other.
    pub open spec fn structure_ok(&self) -> bool {
        &&& self.infos().dom().finite()
        &&& self.infos().dom().len() <= 4294967294
        &&& forall|id: u64| #[trigger] self.infos().contains_key(id) ==> key_wf(id) && self.infos()[id]@.wf()
        &&& forall|k: int| 0 <= k < self.edge_list().len() ==> edge_ok(self.infos(), #[trigger] self.edge_list()[k])
        &&& (self.output() matches Some(o) ==> self.has(o))
    }

    /// The enumeration lists every stored handle once and nothing else.
    pub open spec fn keys_ok(&self) -> bool {
        &&& self.keys().no_duplicates()
        &&& forall|i: int| 0 <= i < self.keys().len() ==> self.has(#[trigger] self.keys()[i])
        &&& forall|id: u64| #[trigger] self.infos().contains_key(id) ==> self.keys().contains(NodeKey { id })
    }

    /// The schedule is the one that the store and the edges determine.
    pub open spec fn scheduled(&self) -> bool {
        let s = schedule(self.keys(), self.infos(), self.edge_list());
        &&& self.order() == s.order
        &&& self.outs() == s.outs
        &&& self.ins() == s.ins
    }

    pub open spec fn wf(&self) -> bool {
        self.structure_ok() && self.keys_ok() && self.scheduled()
    }

    /// Recompute the schedule from the store and the edges.
    #[verifier::rlimit(40)]
    pub fn sort(&mut self)
        requires
            old(self).structure_ok(),
        ensures
            final(self).wf(),
            final(self).infos() == old(self).infos(),
            final(self).keys() == old(self).keys(),
            final(self).edge_list() == old(self).edge_list(),
            final(self).output() == old(self).output(),
    {
        let keys = store_keys(&self.nodes);
        assert forall|i: int| 0 <= i < keys@.len() implies keys@[i] == self.keys()[i] by {
            assert(keys@[i].id == slot_order(self.nodes)[i]);
        }
        assert(keys@ =~= self.keys());
        let ghost infos = self.infos();
        let ghost edges = self.edges@;
        let mut frontier = initial_frontier(&keys, &self.edges);
        let mut order: Vec<NodeKey> = Vec::new();
        let mut outs: Vec<Vec<Edge>> = Vec::new();
        let mut ins: Vec<Vec<Edge>> = Vec::new();
        let mut resolved: Vec<Port> = Vec::new();
        let mut fuel: usize = keys.len();
        assert(edge_views(outs@) =~= seq![]);
        assert(edge_views(ins@) =~= seq![]);
        assert(sched_of(order@, outs@, ins@, resolved@, seq![]) == crate::schedule::empty_sched());
        while frontier.len() > 0 && fuel > 0
            invariant
                infos == self.infos(),
                edges == self.edges@,
                self.structure_ok(),
                rounds(infos, edges, sched_of(order@, outs@, ins@, resolved@, seq![]), frontier@, fuel as nat).order
                    == schedule(keys@, infos, edges).order,
                rounds(infos, edges, sched_of(order@, outs@, ins@, resolved@, seq![]), frontier@, fuel as nat).outs
                    == schedule(keys@, infos, edges).outs,
                rounds(infos, edges, sched_of(order@, outs@, ins@, resolved@, seq![]), frontier@, fuel as nat).ins
                    == schedule(keys@, infos, edges).ins,
            decreases fuel,
        {
            let ghost st0 = sched_of(order@, outs@, ins@, resolved@, seq![]);
            let mut next: Vec<NodeKey> = Vec::new();
            let mut j: usize = 0;
            while j < frontier.len()
                invariant
                    infos == self.infos(),
                    edges == self.edges@,
                    self.structure_ok(),
                    j <= frontier@.len(),
                    sched_of(order@, outs@, ins@, resolved@, next@)
                        == round(infos, edges, clear_next(st0), frontier@.take(j as int)),
                decreases frontier@.len() - j,
            {
                assert(frontier@.take(j + 1).drop_last() == frontier@.take(j as int));
                let n = frontier[j];
                let mut is_ready = false;
                if is_key_encoding(n.id) {
                    match store_get(&self.nodes, n) {
                        Some(info) => {
                            is_ready = inputs_ready(&info.inputs, &self.edges, &resolved, n);
                        },
                        None => {},
                    }
                }
                if is_ready {
                    let conns = edges_leaving(&self.edges, n);
                    spread_into(&conns, &mut resolved, &mut next);
                    if !key_listed(&order, n) {
                        let conns_in = edges_entering(&self.edges, n);
                        let ghost o0 = outs@;
                        let ghost i0 = ins@;
                        order.push(n);
                        outs.push(conns);
                        ins.push(conns_in);
                        assert(edge_views(outs@) =~= edge_views(o0).push(crate::schedule::edges_from(edges, n)));
                        assert(edge_views(ins@) =~= edge_views(i0).push(crate::schedule::edges_to(edges, n)));
                    }
                }
                j = j + 1;
            }
            assert(frontier@.take(j as int) == frontier@);
            proof {
                let cur = sched_of(order@, outs@, ins@, resolved@, next@);
                lemma_rounds_ignore_next(infos, edges, cur, next@, (fuel - 1) as nat);
                assert(clear_next(cur) == sched_of(order@, outs@, ins@, resolved@, seq![]));
            }
            frontier = next;
            fuel = fuel - 1;
        }
        assert(rounds(infos, edges, sched_of(order@, outs@, ins@, resolved@, seq![]), frontier@, fuel as nat)
            == sched_of(order@, outs@, ins@, resolved@, seq![]));
        assert(self.structure_ok());
        let ghost before = *self;
        self.node_order = order;
        self.node_outputs = outs;
        self.node_inputs = ins;
        proof {
            let ks = self.keys();
            assert(self.scheduled());
            assert forall|i: int| 0 <= i < ks.len() implies self.has(#[trigger] ks[i]) by {
                assert(ks[i] == keys@[i]);
            }
            assert forall|i: int, j: int| 0 <= i < ks.len() && 0 <= j < ks.len() && i != j implies ks[i] != ks[j] by {
                assert(keys@[i].id != keys@[j].id || i == j);
            }
            assert forall|id: u64| #[trigger] self.infos().contains_key(id) implies ks.contains(NodeKey { id }) by {
                let i = choose|i: int| 0 <= i < keys@.len() && keys@[i].id == id;
                assert(ks[i] == NodeKey { id });
            }
            assert(self.nodes == before.nodes);
            assert(self.infos() == before.infos());
            assert(self.edge_list() == before.edge_list());
            assert(self.structure_ok());
            assert(self.keys().no_duplicates());
            assert(self.keys_ok());
        }
    }

    /// An empty graph with no designated output.
    pub fn new() -> (r: Graph)
        ensures
            r.wf(),
            r.infos() == no_entries(),
            r.edge_list() == Seq::<Edge>::empty(),
            r.output() == None::<NodeKey>,
    {
        let mut g = Graph {
            nodes: store_new(),
            edges: Vec::new(),
            node_order: Vec::new(),
            node_outputs: Vec::new(),
            node_inputs: Vec::new(),
            output_node: None,
        };
        g.sort();
        g
    }

    /// Store `node` under a fresh handle and return the handle.
    pub fn add(&mut self, node: NodeInfo) -> (r: NodeKey)
        requires
            old(self).wf(),
            node@.wf(),
            old(self).infos().dom().len() < 4294967294,
        ensures
            final(self).wf(),
            !old(self).has(r),
            final(self).infos() == old(self).infos().insert(r.id, node),
            final(self).edge_list() == old(self).edge_list(),
            final(self).output() == old(self).output(),
    {
        let ghost old_infos = self.infos();
        let k = store_insert(&mut self.nodes, node);
        assert forall|j: int| 0 <= j < self.edge_list().len() implies edge_ok(self.infos(), #[trigger] self.edge_list()[j]) by {
            assert(edge_ok(old_infos, self.edge_list()[j]));
        }
        self.sort();
        k
    }

    /// The description of the node under `k`, if it is stored.
    pub fn get_node(&self, k: NodeKey) -> (r: Option<&NodeInfo>)
        requires
            self.wf(),
        ensures
            r.is_some() == self.has(k),
            r.is_some() ==> *r.unwrap() == self.infos()[k.id],
    {
        if is_key_encoding(k.id) {
            store_get(&self.nodes, k)
        } else {
            None
        }
    }

    /// Whether a node is stored under `k`.
    pub fn has_node(&self, k: NodeKey) -> (r: bool)
        requires
            self.wf(),
        ensures
            r == self.has(k),
    {
        self.get_node(k).is_some()
    }

    /// Wire output `from` to input `to`. An edge from a node to itself is
    /// refused.
    pub fn connect(&mut self, from: Port, to: Port) -> (r: Result<(), GraphError>)
        requires
            old(self).wf(),
            ports_ok(old(self).infos(), Edge { from, to }),
        ensures
            final(self).wf(),
            from.node == to.node ==> r == Err::<(), GraphError>(GraphError::SelfLoop) && *final(self) == *old(self),
            from.node != to.node ==> r is Ok && final(self).edge_list() == old(self).edge_list().push(Edge { from, to }),
            final(self).infos() == old(self).infos(),
            final(self).output() == old(self).output(),
    {
        if from.node == to.node {
            return Err(GraphError::SelfLoop);
        }
        self.edges.push(Edge { from, to });
        assert forall|j: int| 0 <= j < self.edge_list().len() implies edge_ok(self.infos(), #[trigger] self.edge_list()[j]) by {
            if j < self.edge_list().len() - 1 {
                assert(self.edge_list()[j] == old(self).edge_list()[j]);
            }
        }
        self.sort();
        Ok(())
    }

    /// The schedule's order of execution.
    pub fn node_order(&self) -> (r: &Vec<NodeKey>)
        ensures
            r@ == self.order(),
    {
        &self.node_order
    }

    /// The outgoing edges of each scheduled node, aligned with `node_order`.
    pub fn node_outputs(&self) -> (r: &Vec<Vec<Edge>>)
        ensures
            edge_views(r@) == self.outs(),
    {
        &self.node_outputs
    }

    /// The incoming edges of each scheduled node, aligned with `node_order`.
    pub fn node_inputs(&self) -> (r: &Vec<Vec<Edge>>)
        ensures
            edge_views(r@) == self.ins(),
    {
        &self.node_inputs
    }

    /// The handles in the store's enumeration order.
    pub fn node_keys(&self) -> (r: Vec<NodeKey>)
        requires
            self.wf(),
        ensures
            r@ == self.keys(),
    {
        let keys = store_keys(&self.nodes);
        assert forall|i: int| 0 <= i < keys@.len() implies keys@[i] == self.keys()[i] by {
            assert(keys@[i].id == slot_order(self.nodes)[i]);
        }
        assert(keys@ =~= self.keys());
        keys
    }

    /// The first node, in store order, whose kind is `kind`; this is how a
    /// designated node is found again after a reload.
    pub fn find_by_kind(&self, kind: &String) -> (r: Option<NodeKey>)
        requires
            self.wf(),
        ensures
            r matches Some(k) ==> exists|i: int|
                0 <= i < self.keys().len() && self.keys()[i] == k && self.infos()[k.id]@.kind == kind@ && forall|j: int|
                    0 <= j < i ==> self.infos()[(#[trigger] self.keys()[j]).id]@.kind != kind@,
            r is None ==> forall|i: int| 0 <= i < self.keys().len() ==> self.infos()[(#[trigger] self.keys()[i]).id]@.kind != kind@,
    {
        let keys = self.node_keys();
        let mut i: usize = 0;
        while i < keys.len()
            invariant
                self.wf(),
                keys@ == self.keys(),
                i <= keys@.len(),
                forall|j: int| 0 <= j < i ==> self.infos()[(#[trigger] keys@[j]).id]@.kind != kind@,
            decreases keys@.len() - i,
        {
            let info = self.get_node(keys[i]).unwrap();
            if info.kind == *kind {
                return Some(keys[i]);
            }
            i = i + 1;
        }
        None
    }

    /// The moves of one tick, in order.
    pub fn tick_plan(&self) -> (r: Vec<Action>)
        requires
            self.wf(),
        ensures
            r@ == plan_of(self.order(), self.outs()),
    {
        proof {
            crate::schedule::lemma_schedule_inv(self.keys(), self.infos(), self.edge_list());
        }
        let mut r: Vec<Action> = Vec::new();
        let mut i: usize = 0;
        while i < self.node_order.len()
            invariant
                self.wf(),
                self.node_outputs@.len() == self.node_order@.len(),
                i <= self.node_order@.len(),
                r@ == plan_of(self.order().take(i as int), self.outs().take(i as int)),
            decreases self.node_order@.len() - i,
        {
            assert(self.order().take(i + 1).drop_last() == self.order().take(i as int));
            assert(self.outs().take(i + 1).drop_last() == self.outs().take(i as int));
            let ghost base = r@.push(Action::Step(self.node_order@[i as int]));
            r.push(Action::Step(self.node_order[i]));
            let es = &self.node_outputs[i];
            let mut j: usize = 0;
            while j < es.len()
                invariant
                    j <= es@.len(),
                    r@ == base + es@.take(j as int).map_values(|e: Edge| Action::Carry(e)),
                decreases es@.len() - j,
            {
                r.push(Action::Carry(es[j]));
                j = j + 1;
                assert(es@.take(j as int).map_values(|e: Edge| Action::Carry(e)) =~= es@.take(j - 1).map_values(
                    |e: Edge| Action::Carry(e),
                ).push(Action::Carry(es@[j - 1])));
            }
            assert(es@.take(j as int) == es@);
            assert(self.outs()[i as int] == es@);
            assert(r@ =~= plan_of(self.order().take(i + 1), self.outs().take(i + 1)));
            i = i + 1;
        }
        assert(self.order().take(i as int) == self.order());
        assert(self.outs().take(i as int) == self.outs());
        r
    }

    /// The edges, in the order they were made.
    pub fn edges(&self) -> (r: &Vec<Edge>)
        ensures
            r@ == self.edge_list(),
    {
        &self.edges
    }

    /// The node whose first output is the rendered sample, if one is set.
    pub fn output_node(&self) -> (r: Option<NodeKey>)
        ensures
            r == self.output(),
    {
        self.output_node
    }

    /// Designate the node whose first output is the rendered sample.
    pub fn set_output_node(&mut self, k: Option<NodeKey>)
        requires
            old(self).wf(),
            k matches Some(n) ==> old(self).has(n),
        ensures
            final(self).wf(),
            final(self).output() == k,
            final(self).infos() == old(self).infos(),
            final(self).keys() == old(self).keys(),
            final(self).edge_list() == old(self).edge_list(),
    {
        self.output_node = k;
    }

    /// The last edge that ends at `to`, if any.
    pub fn get_edge(&self, to: Port) -> (r: Option<Edge>)
        ensures
            r == last_edge_to(self.edge_list(), to),
    {
        let mut r: Option<Edge> = None;
        let mut k: usize = 0;
        while k < self.edges.len()
            invariant
                k <= self.edges@.len(),
                r == last_edge_to(self.edges@.take(k as int), to),
            decreases self.edges@.len() - k,
        {
            assert(self.edges@.take(k + 1).drop_last() == self.edges@.take(k as int));
            if self.edges[k].to == to {
                r = Some(self.edges[k]);
            }
            k = k + 1;
        }
        assert(self.edges@.take(k as int) == self.edges@);
        r
    }

    /// Take out the edge at position `i` and recompute the schedule.
    fn remove_edge_at(&mut self, i: usize)
        requires
            old(self).wf(),
            i < old(self).edge_list().len(),
        ensures
            final(self).wf(),
            final(self).edge_list() == old(self).edge_list().remove(i as int),
            final(self).infos() == old(self).infos(),
            final(self).output() == old(self).output(),
    {
        let ghost es = self.edges@;
        self.edges.remove(i);
        assert forall|j: int| 0 <= j < self.edge_list().len() implies edge_ok(self.infos(), #[trigger] self.edge_list()[j]) by {
            if j < i {
                assert(self.edge_list()[j] == es[j]);
            } else {
                assert(self.edge_list()[j] == es[j + 1]);
            }
        }
        self.sort();
    }

    /// Take out the first edge from `from` to `to`, if there is one.
    pub fn disconnect(&mut self, from: Port, to: Port)
        requires
            old(self).wf(),
        ensures
            final(self).wf(),
            without_first_edge(old(self).edge_list(), final(self).edge_list(), Edge { from, to }),
            final(self).infos() == old(self).infos(),
            final(self).output() == old(self).output(),
    {
        let target = Edge { from, to };
        let mut k: usize = 0;
        while k < self.edges.len()
            invariant
                *self == *old(self),
                self.wf(),
                target == (Edge { from, to }),
                k <= self.edges@.len(),
                forall|j: int| 0 <= j < k ==> #[trigger] self.edges@[j] != target,
            decreases self.edges@.len() - k,
        {
            if self.edges[k] == target {
                assert(old(self).edge_list()[k as int] == target);
                self.remove_edge_at(k);
                assert(old(self).edge_list().contains(target));

                return;
            }
            k = k + 1;
        }
        self.sort();
    }

    /// Take out `edge`, as `disconnect` does.
    pub fn disconnect_edge(&mut self, edge: Edge)
        requires
            old(self).wf(),
        ensures
            final(self).wf(),
            without_first_edge(old(self).edge_list(), final(self).edge_list(), edge),
            final(self).infos() == old(self).infos(),
            final(self).output() == old(self).output(),
    {
        self.disconnect(edge.from, edge.to);
        assert(Edge { from: edge.from, to: edge.to } == edge);
    }

    /// Take out the first edge that ends at `input`, if there is one.
    pub fn disconnect_input_port(&mut self, input: Port)
        requires
            old(self).wf(),
        ensures
            final(self).wf(),
            without_first_into(old(self).edge_list(), final(self).edge_list(), input),
            final(self).infos() == old(self).infos(),
            final(self).output() == old(self).output(),
    {
        let mut k: usize = 0;
        while k < self.edges.len()
            invariant
                *self == *old(self),
                self.wf(),
                k <= self.edges@.len(),
                forall|j: int| 0 <= j < k ==> (#[trigger] self.edges@[j]).to != input,
            decreases self.edges@.len() - k,
        {
            if self.edges[k].to == input {
                assert(old(self).edge_list()[k as int].to == input);
                self.remove_edge_at(k);
                return;
            }
            k = k + 1;
        }
        self.sort();
    }

    /// Remove the node under `h` with every edge that touches it; no-op on
    /// the node store if nothing is stored under `h`. If `h` was the
    /// designated output, no output is designated any more.
    pub fn remove(&mut self, h: NodeKey)
        requires
            old(self).wf(),
        ensures
            final(self).wf(),
            final(self).infos() == old(self).infos().remove(h.id),
            final(self).edge_list() == edges_without(old(self).edge_list(), h),
            final(self).output() == (if old(self).output() == Some(h) { None } else { old(self).output() }),
            forall|k: int| 0 <= k < final(self).edge_list().len() ==> !touches(#[trigger] final(self).edge_list()[k], h),
            !final(self).order().contains(h),
            forall|i: int, t: int|
                0 <= i < final(self).outs().len() && 0 <= t < final(self).outs()[i].len()
                    ==> !touches(#[trigger] final(self).outs()[i][t], h),
            forall|i: int, t: int|
                0 <= i < final(self).ins().len() && 0 <= t < final(self).ins()[i].len()
                    ==> !touches(#[trigger] final(self).ins()[i][t], h),
    {
        let ghost old_infos = self.infos();
        let ghost old_edges = self.edges@;
        let mut kept: Vec<Edge> = Vec::new();
        let mut k: usize = 0;
        while k < self.edges.len()
            invariant
                k <= self.edges@.len(),
                kept@ == edges_without(self.edges@.take(k as int), h),
            decreases self.edges@.len() - k,
        {
            assert(self.edges@.take(k + 1).drop_last() == self.edges@.take(k as int));
            let e = self.edges[k];
            if !(e.from.node == h || e.to.node == h) {
                kept.push(e);
            }
            k = k + 1;
        }
        assert(self.edges@.take(k as int) == self.edges@);
        self.edges = kept;
        if self.output_node == Some(h) {
            self.output_node = None;
        }
        if is_key_encoding(h.id) {
            store_remove(&mut self.nodes, h);
        } else {
            assert(!old_infos.contains_key(h.id));
            assert(old_infos.remove(h.id) =~= old_infos);
        }
        proof {
            lemma_edges_without_members(old_edges, h);
            assert forall|j: int| 0 <= j < self.edge_list().len() implies edge_ok(self.infos(), #[trigger] self.edge_list()[j]) by {
                let e = self.edge_list()[j];
                let k2 = choose|k2: int| 0 <= k2 < old_edges.len() && old_edges[k2] == e;
                assert(edge_ok(old_infos, old_edges[k2]));
            }
        }
        self.sort();
        proof {
            let es = self.edge_list();
            let st = schedule(self.keys(), self.infos(), es);
            crate::schedule::lemma_schedule_inv(self.keys(), self.infos(), es);
            assert forall|i: int| 0 <= i < self.order().len() implies self.order()[i] != h by {
                assert(self.infos().contains_key(st.order[i].id));
            }
            assert forall|i: int, t: int|
                0 <= i < self.outs().len() && 0 <= t < self.outs()[i].len()
                    implies !touches(#[trigger] self.outs()[i][t], h) by {
                crate::schedule::lemma_edges_from_members(es, st.order[i]);
                let k2 = choose|k2: int| 0 <= k2 < es.len() && es[k2] == self.outs()[i][t];
            }
            assert forall|i: int, t: int|
                0 <= i < self.ins().len() && 0 <= t < self.ins()[i].len()
                    implies !touches(#[trigger] self.ins()[i][t], h) by {
                crate::schedule::lemma_edges_to_members(es, st.order[i]);
                let k2 = choose|k2: int| 0 <= k2 < es.len() && es[k2] == self.ins()[i][t];
            }
        }
    }

    /// Remove every node and every edge.
    pub fn clear(&mut self)
        requires
            old(self).wf(),
        ensures
            final(self).wf(),
            final(self).infos() == no_entries(),
            final(self).edge_list() == Seq::<Edge>::empty(),
            final(self).output() == None::<NodeKey>,
            final(self).order() == Seq::<NodeKey>::empty(),
    {
        self.edges = Vec::new();
        self.output_node = None;
        store_clear(&mut self.nodes);
        self.sort();
        proof {
            crate::schedule::lemma_schedule_inv(self.keys(), self.infos(), self.edge_list());
            if self.order().len() > 0 {
                assert(self.infos().contains_key(self.order()[0].id));
            }
        }
    }

    /// Describe input port `input` of its node as an unconnected input.
    pub fn new_unconnected_input(&self, input: Port) -> (r: UnconnectedInput)
        requires
            self.wf(),
            self.has(input.node),
            input.port < self.infos()[input.node.id]@.inputs.len(),
        ensures
            r.view_spec() == (input.node, input.port, self.infos()[input.node.id]@.inputs[input.port as int].1),
    {
        let info = self.get_node(input.node).unwrap();
        UnconnectedInput { node_key: input.node, port_idx: input.port, name: info.inputs[input.port].name.clone() }
    }

    /// Describe output port `output` of its node as an unconnected output.
    pub fn new_unconnected_output(&self, output: Port) -> (r: UnconnectedOutput)
        requires
            self.wf(),
            self.has(output.node),
            output.port < self.infos()[output.node.id]@.outputs.len(),
        ensures
            r.view_spec() == (output.node, output.port, self.infos()[output.node.id]@.outputs[output.port as int].1),
    {
        let info = self.get_node(output.node).unwrap();
        UnconnectedOutput { node_key: output.node, port_idx: output.port, name: info.outputs[output.port].name.clone() }
    }

    /// The inputs of node `k` that no edge feeds, in port order.
    pub fn get_unconnected_inputs_for_node(&self, k: NodeKey) -> (r: Vec<UnconnectedInput>)
        requires
            self.wf(),
            self.has(k),
        ensures
            uin_views(r@) == free_inputs(self.infos()[k.id]@.inputs, self.edge_list(), k),
    {
        let info = self.get_node(k).unwrap();
        let ghost ports = self.infos()[k.id]@.inputs;
        let mut r: Vec<UnconnectedInput> = Vec::new();
        let mut i: usize = 0;
        while i < info.inputs.len()
            invariant
                ports == crate::node::inputs_view(info.inputs@),
                i <= info.inputs@.len(),
                uin_views(r@) == free_inputs(ports.take(i as int), self.edges@, k),
            decreases info.inputs@.len() - i,
        {
            assert(ports.take(i + 1).drop_last() == ports.take(i as int));
            let ghost before = r@;
            let port = info.inputs[i].port;
            if !input_in_use(&self.edges, k, port) {
                r.push(UnconnectedInput { node_key: k, port_idx: port, name: info.inputs[i].name.clone() });
                assert(uin_views(r@) =~= uin_views(before).push((k, ports[i as int].0, ports[i as int].1)));
            }
            i = i + 1;
        }
        assert(ports.take(i as int) == ports);
        r
    }

    /// The outputs of node `k` that feed no edge, in port order.
    pub fn get_unconnected_outputs_for_node(&self, k: NodeKey) -> (r: Vec<UnconnectedOutput>)
        requires
            self.wf(),
            self.has(k),
        ensures
            uout_views(r@) == free_outputs(self.infos()[k.id]@.outputs, self.edge_list(), k),
    {
        let info = self.get_node(k).unwrap();
        let ghost ports = self.infos()[k.id]@.outputs;
        let mut r: Vec<UnconnectedOutput> = Vec::new();
        let mut i: usize = 0;
        while i < info.outputs.len()
            invariant
                ports == crate::node::outputs_view(info.outputs@),
                i <= info.outputs@.len(),
                uout_views(r@) == free_outputs(ports.take(i as int), self.edges@, k),
            decreases info.outputs@.len() - i,
        {
            assert(ports.take(i + 1).drop_last() == ports.take(i as int));
            let ghost before = r@;
            let port = info.outputs[i].port;
            if !output_in_use(&self.edges, k, port) {
                r.push(UnconnectedOutput { node_key: k, port_idx: port, name: info.outputs[i].name.clone() });
                assert(uout_views(r@) =~= uout_views(before).push((k, ports[i as int].0, ports[i as int].1)));
            }
            i = i + 1;
        }
        assert(ports.take(i as int) == ports);
        r
    }

    /// The unfed inputs of every node, in store order.
    pub fn get_unconnected_inputs(&self) -> (r: Vec<UnconnectedInput>)
        requires
            self.wf(),
        ensures
            uin_views(r@) == all_free_inputs(self.keys(), self.infos(), self.edge_list()),
    {
        let keys = store_keys(&self.nodes);
        assert(keys@ =~= self.keys()) by {
            assert forall|i: int| 0 <= i < keys@.len() implies keys@[i] == self.keys()[i] by {
                assert(keys@[i].id == slot_order(self.nodes)[i]);
            }
        }
        let mut r: Vec<UnconnectedInput> = Vec::new();
        let mut i: usize = 0;
        while i < keys.len()
            invariant
                self.wf(),
                keys@ == self.keys(),
                i <= keys@.len(),
                uin_views(r@) == all_free_inputs(keys@.take(i as int), self.infos(), self.edges@),
            decreases keys@.len() - i,
        {
            assert(keys@.take(i + 1).drop_last() == keys@.take(i as int));
            let mut part = self.get_unconnected_inputs_for_node(keys[i]);
            let ghost before = r@;
            let ghost pv = part@;
            r.append(&mut part);
            assert(uin_views(r@) =~= uin_views(before) + uin_views(pv));
            i = i + 1;
        }
        assert(keys@.take(i as int) == keys@);
        r
    }

    /// The unused outputs of every node, in store order.
    pub fn get_unconnected_outputs(&self) -> (r: Vec<UnconnectedOutput>)
        requires
            self.wf(),
        ensures
            uout_views(r@) == all_free_outputs(self.keys(), self.infos(), self.edge_list()),
    {
        let keys = store_keys(&self.nodes);
        assert(keys@ =~= self.keys()) by {
            assert forall|i: int| 0 <= i < keys@.len() implies keys@[i] == self.keys()[i] by {
                assert(keys@[i].id == slot_order(self.nodes)[i]);
            }
        }
        let mut r: Vec<UnconnectedOutput> = Vec::new();
        let mut i: usize = 0;
        while i < keys.len()
            invariant
                self.wf(),
                keys@ == self.keys(),
                i <= keys@.len(),
                uout_views(r@) == all_free_outputs(keys@.take(i as int), self.infos(), self.edges@),
            decreases keys@.len() - i,
        {
            assert(keys@.take(i + 1).drop_last() == keys@.take(i as int));
            let mut part = self.get_unconnected_outputs_for_node(keys[i]);
            let ghost before = r@;
            let ghost pv = part@;
            r.append(&mut part);
            assert(uout_views(r@) =~= uout_views(before) + uout_views(pv));
            i = i + 1;
        }
        assert(keys@.take(i as int) == keys@);
        r
    }

    /// An independent duplicate: every node is stored anew under a fresh
    /// handle, and the edges and the designated output follow the renaming.
    #[verifier::rlimit(40)]
    pub fn copy(&self) -> (r: Graph)
        requires
            self.wf(),
        ensures
            r.wf(),
            exists|f: Map<u64, u64>| renamed(*self, r, f),
    {
        let keys = store_keys(&self.nodes);
        let ghost infos = self.infos();
        proof {
            let ids = keys@.map_values(|k: NodeKey| k.id);
            assert(ids.no_duplicates());
            ids.unique_seq_to_set();
            assert(ids.to_set().subset_of(infos.dom())) by {
                assert forall|id: u64| ids.to_set().contains(id) implies infos.dom().contains(id) by {
                    let j = choose|j: int| 0 <= j < ids.len() && ids[j] == id;
                    assert(keys@[j].id == id);
                }
            }
            vstd::set_lib::lemma_len_subset(ids.to_set(), infos.dom());
        }
        let mut nodes = store_new();
        let mut old_ids: Vec<u64> = Vec::new();
        let mut new_ids: Vec<u64> = Vec::new();
        let ghost mut f: Map<u64, u64> = Map::empty();
        let mut i: usize = 0;
        while i < keys.len()
            invariant
                self.wf(),
                infos == self.infos(),
                keys@.len() <= 4294967294,
                i <= keys@.len(),
                forall|j: int| 0 <= j < keys@.len() ==> infos.contains_key(#[trigger] keys@[j].id) && key_wf(keys@[j].id),
                forall|a: int, b: int| 0 <= a < b < keys@.len() ==> #[trigger] keys@[a].id != #[trigger] keys@[b].id,
                old_ids@.len() == i,
                new_ids@.len() == i,
                forall|j: int| 0 <= j < i ==> #[trigger] old_ids@[j] == keys@[j].id,
                forall|id: u64| #[trigger] f.contains_key(id) <==> old_ids@.contains(id),
                forall|j: int| 0 <= j < i ==> f[#[trigger] old_ids@[j]] == new_ids@[j],
                slot_contents(nodes).dom().finite(),
                slot_contents(nodes).dom().len() == i,
                forall|id: u64| #[trigger] slot_contents(nodes).contains_key(id) <==> new_ids@.contains(id),
                forall|j: int| 0 <= j < i ==> #[trigger] slot_contents(nodes)[new_ids@[j]]@ == infos[old_ids@[j]]@,
                forall|j: int| 0 <= j < i ==> key_wf(#[trigger] new_ids@[j]),
                forall|a: int, b: int| 0 <= a < b < i ==> #[trigger] new_ids@[a] != #[trigger] new_ids@[b],
            decreases keys@.len() - i,
        {
            let k = keys[i];
            let info = store_get(&self.nodes, k).unwrap();
            let dup = info.copy();
            let ghost before = slot_contents(nodes);
            let ghost oi = old_ids@;
            let ghost ni = new_ids@;
            let ghost f0 = f;
            assert(!oi.contains(k.id)) by {
                if oi.contains(k.id) {
                    let j = choose|j: int| 0 <= j < oi.len() && oi[j] == k.id;
                    assert(keys@[j].id == keys@[i as int].id);
                }
            }
            let k2 = store_insert(&mut nodes, dup);
            proof {
                assert(!new_ids@.contains(k2.id));
                f = f.insert(k.id, k2.id);
            }
            old_ids.push(k.id);
            new_ids.push(k2.id);
            proof {
                assert(old_ids@ == oi.push(k.id));
                assert(new_ids@ == ni.push(k2.id));
                assert forall|id: u64| #[trigger] f.contains_key(id) <==> old_ids@.contains(id) by {
                    if id == k.id {
                        assert(old_ids@[i as int] == id);
                    } else {
                        assert(f.contains_key(id) == f0.contains_key(id));
                        if oi.contains(id) {
                            let j = choose|j: int| 0 <= j < oi.len() && oi[j] == id;
                            assert(old_ids@[j] == id);
                        }
                        if old_ids@.contains(id) {
                            let j = choose|j: int| 0 <= j < old_ids@.len() && old_ids@[j] == id;
                            assert(oi[j] == id);
                        }
                    }
                }
                assert forall|id: u64| #[trigger] slot_contents(nodes).contains_key(id) <==> new_ids@.contains(id) by {
                    if id == k2.id {
                        assert(new_ids@[i as int] == id);
                    } else {
                        assert(slot_contents(nodes).contains_key(id) == before.contains_key(id));
                        if ni.contains(id) {
                            let j = choose|j: int| 0 <= j < ni.len() && ni[j] == id;
                            assert(new_ids@[j] == id);
                        }
                        if new_ids@.contains(id) {
                            let j = choose|j: int| 0 <= j < new_ids@.len() && new_ids@[j] == id;
                            assert(ni[j] == id);
                        }
                    }
                }
                assert forall|j: int| 0 <= j < i + 1 implies f[#[trigger] old_ids@[j]] == new_ids@[j] by {
                    if j < i {
                        assert(oi.contains(oi[j]));
                        assert(old_ids@[j] != k.id);
                    }
                }
                assert forall|j: int| 0 <= j < i + 1 implies #[trigger] slot_contents(nodes)[new_ids@[j]]@ == infos[old_ids@[j]]@ by {
                    if j < i {
                        assert(ni.contains(ni[j]));
                        assert(new_ids@[j] != k2.id);
                    }
                }
                assert forall|a: int, b: int| 0 <= a < b < i + 1 implies #[trigger] new_ids@[a] != #[trigger] new_ids@[b] by {
                    if b == i {
                        assert(ni.contains(ni[a]));
                        assert(before.contains_key(new_ids@[a]));
                    }
                }
            }
            i = i + 1;
        }
        let mut edges: Vec<Edge> = Vec::new();
        let mut e: usize = 0;
        while e < self.edges.len()
            invariant
                self.wf(),
                infos == self.infos(),
                old_ids@.len() == keys@.len(),
                new_ids@.len() == keys@.len(),
                forall|j: int| 0 <= j < keys@.len() ==> #[trigger] old_ids@[j] == keys@[j].id,
                forall|id: u64| #[trigger] f.contains_key(id) <==> old_ids@.contains(id),
                forall|j: int| 0 <= j < keys@.len() ==> f[#[trigger] old_ids@[j]] == new_ids@[j],
                forall|id: u64| #[trigger] infos.contains_key(id) ==> exists|j: int| 0 <= j < keys@.len() && keys@[j].id == id,
                e <= self.edges@.len(),
                edges@.len() == e,
                forall|k: int| 0 <= k < e ==> #[trigger] edges@[k] == rename_edge(self.edges@[k], f),
            decreases self.edges@.len() - e,
        {
            let x = self.edges[e];
            proof {
                assert(edge_ok(infos, self.edges@[e as int]));
                let a = choose|j: int| 0 <= j < keys@.len() && keys@[j].id == x.from.node.id;
                assert(old_ids@[a] == x.from.node.id);
                let b = choose|j: int| 0 <= j < keys@.len() && keys@[j].id == x.to.node.id;
                assert(old_ids@[b] == x.to.node.id);
            }
            let from_id = counterpart(&old_ids, &new_ids, x.from.node.id);
            let to_id = counterpart(&old_ids, &new_ids, x.to.node.id);
            edges.push(Edge {
                from: Port { node: NodeKey { id: from_id }, port: x.from.port, kind: x.from.kind },
                to: Port { node: NodeKey { id: to_id }, port: x.to.port, kind: x.to.kind },
            });
            e = e + 1;
        }
        let output_node = match self.output_node {
            Some(o) => {
                proof {
                    let a = choose|j: int| 0 <= j < keys@.len() && keys@[j].id == o.id;
                    assert(old_ids@[a] == o.id);
                }
                Some(NodeKey { id: counterpart(&old_ids, &new_ids, o.id) })
            },
            None => None,
        };
        let mut r = Graph {
            nodes,
            edges,
            node_order: Vec::new(),
            node_outputs: Vec::new(),
            node_inputs: Vec::new(),
            output_node,
        };
        proof {
            let ri = r.infos();
            assert forall|id: u64| #[trigger] infos.contains_key(id) implies ri.contains_key(f[id]) && ri[f[id]]@ == infos[id]@ by {
                let j = choose|j: int| 0 <= j < keys@.len() && keys@[j].id == id;
                assert(old_ids@[j] == id);
                assert(new_ids@.contains(new_ids@[j]));
            }
            assert forall|id: u64| #[trigger] ri.contains_key(id) implies key_wf(id) && ri[id]@.wf() by {
                let j = choose|j: int| 0 <= j < new_ids@.len() && new_ids@[j] == id;
                assert(infos.contains_key(old_ids@[j]));
            }
            assert forall|k: int| 0 <= k < r.edge_list().len() implies edge_ok(ri, #[trigger] r.edge_list()[k]) by {
                let x = self.edges@[k];
                assert(edge_ok(infos, x));
                let ja = choose|j: int| 0 <= j < keys@.len() && keys@[j].id == x.from.node.id;
                let jb = choose|j: int| 0 <= j < keys@.len() && keys@[j].id == x.to.node.id;
                assert(old_ids@[ja] == x.from.node.id && old_ids@[jb] == x.to.node.id);
                assert(ja != jb);
                assert(new_ids@[ja] != new_ids@[jb]) by {
                    if ja < jb {
                        assert(new_ids@[ja] != new_ids@[jb]);
                    } else {
                        assert(new_ids@[jb] != new_ids@[ja]);
                    }
                }
            }
        }
        r.sort();
        proof {
            let ri = r.infos();
            assert(f.dom() =~= infos.dom()) by {
                assert forall|id: u64| f.contains_key(id) implies infos.contains_key(id) by {
                    let j = choose|j: int| 0 <= j < old_ids@.len() && old_ids@[j] == id;
                }
                assert forall|id: u64| infos.contains_key(id) implies f.contains_key(id) by {
                    let j = choose|j: int| 0 <= j < keys@.len() && keys@[j].id == id;
                    assert(old_ids@[j] == id);
                }
            }
            assert forall|id: u64| #[trigger] ri.contains_key(id) implies exists|id0: u64| infos.contains_key(id0) && f[id0] == id by {
                let j = choose|j: int| 0 <= j < new_ids@.len() && new_ids@[j] == id;
                assert(f[old_ids@[j]] == id);
            }
            assert forall|a: u64, b: u64| infos.contains_key(a) && infos.contains_key(b) && #[trigger] f[a] == #[trigger] f[b] implies a == b by {
                let ja = choose|j: int| 0 <= j < keys@.len() && keys@[j].id == a;
                let jb = choose|j: int| 0 <= j < keys@.len() && keys@[j].id == b;
                assert(old_ids@[ja] == a && old_ids@[jb] == b);
            }
            assert(renamed(*self, r, f));
        }
        r
    }
}

/// Each scheduled node is scheduled exactly once, whatever the wiring.
pub proof fn lemma_schedule_once(g: Graph)
    requires
        g.wf(),
    ensures
        g.order().no_duplicates(),
{
    crate::schedule::lemma_schedule_inv(g.keys(), g.infos(), g.edge_list());
}

/// Schedule soundness: where every input port is fed from at most one node,
/// each scheduled node is scheduled exactly once, and for every edge whose two
/// ends are scheduled, its source comes before its destination.
pub proof fn lemma_schedule_sound(g: Graph)
    requires
        g.wf(),
        fed_once(g.edge_list()),
    ensures
        g.order().no_duplicates(),
        forall|k: int, i: int, j: int|
            0 <= k < g.edge_list().len() && 0 <= i < g.order().len() && 0 <= j < g.order().len()
                && g.order()[i] == g.edge_list()[k].from.node && g.order()[j] == g.edge_list()[k].to.node ==> i < j,
{
    let es = g.edge_list();
    let infos = g.infos();
    assert(crate::schedule::declared(infos, es)) by {
        assert forall|k: int| 0 <= k < es.len() implies {
            let e = #[trigger] es[k];
            &&& e.to.kind == PortKind::Input
            &&& infos.contains_key(e.to.node.id) ==> {
                &&& e.to.port < infos[e.to.node.id]@.inputs.len()
                &&& infos[e.to.node.id]@.inputs[e.to.port as int].0 == e.to.port
            }
        } by {
            assert(edge_ok(infos, es[k]));
            assert(infos[es[k].to.node.id]@.wf());
        }
    }
    crate::schedule::lemma_schedule_inv(g.keys(), infos, es);
    let o = g.order();
    assert forall|k: int, i: int, j: int|
        0 <= k < es.len() && 0 <= i < o.len() && 0 <= j < o.len() && o[i] == es[k].from.node && o[j] == es[k].to.node
            implies i < j by {
        let i2 = choose|i2: int| 0 <= i2 < j && o[i2] == es[k].from.node;
        assert(i2 == i);
    }
}

/// Cycle exclusion: nodes that each have an inbound edge, where every edge
/// into them starts among them (a feedback loop that nothing else feeds), are
/// never scheduled.
pub proof fn lemma_cycle_unscheduled(g: Graph, c: Set<NodeKey>)
    requires
        g.wf(),
        sealed(g.edge_list(), c),
    ensures
        forall|i: int| 0 <= i < g.order().len() ==> !c.contains(#[trigger] g.order()[i]),
{
    crate::schedule::lemma_sealed_unscheduled(g.keys(), g.infos(), g.edge_list(), c);
}

/// Idempotence: two schedules computed from the same store and the same edges
/// are identical.
pub proof fn lemma_schedule_idempotent(a: Graph, b: Graph)
    requires
        a.wf(),
        b.wf(),
        a.keys() == b.keys(),
        a.infos() == b.infos(),
        a.edge_list() == b.edge_list(),
    ensures
        a.order() == b.order(),
        a.outs() == b.outs(),
        a.ins() == b.ins(),
{
}

} // verus!
