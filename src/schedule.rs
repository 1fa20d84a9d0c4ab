//! The execution schedule as a function of the store's enumeration order, the
//! node descriptions and the edge list, with the facts proved of it.

use vstd::prelude::*;
use crate::node::{inputs_view, NodeInfo};
use crate::port::InputId;
use crate::port::{Edge, NodeKey, Port, PortKind};

verus! {

/// The schedule, or a schedule under construction: the order of execution,
/// the outgoing and incoming edges of each scheduled node (aligned with
/// `order`), the input ports already resolved, and the next frontier.
pub struct Sched {
    pub order: Seq<NodeKey>,
    pub outs: Seq<Seq<Edge>>,
    pub ins: Seq<Seq<Edge>>,
    pub resolved: Seq<Port>,
    pub next: Seq<NodeKey>,
}

pub open spec fn empty_sched() -> Sched {
    Sched { order: seq![], outs: seq![], ins: seq![], resolved: seq![], next: seq![] }
}

/// Some edge ends at port `p`.
pub open spec fn feeds(edges: Seq<Edge>, p: Port) -> bool {
    exists|k: int| 0 <= k < edges.len() && #[trigger] edges[k].to == p
}

/// Some edge ends at a port of node `n`.
pub open spec fn has_inbound(edges: Seq<Edge>, n: NodeKey) -> bool {
    exists|k: int| 0 <= k < edges.len() && #[trigger] edges[k].to.node == n
}

/// Every one of the declared `inputs` of `n` that an edge feeds is resolved.
pub open spec fn inputs_resolved(inputs: Seq<(usize, Seq<char>)>, edges: Seq<Edge>, resolved: Seq<Port>, n: NodeKey) -> bool {
    forall|i: int|
        0 <= i < inputs.len() ==> (feeds(edges, Port::input_spec(n, #[trigger] inputs[i].0))
            ==> resolved.contains(Port::input_spec(n, inputs[i].0)))
}

/// Node `n` is in the store and each of its fed inputs is resolved.
pub open spec fn ready(infos: Map<u64, NodeInfo>, edges: Seq<Edge>, resolved: Seq<Port>, n: NodeKey) -> bool {
    infos.contains_key(n.id) && inputs_resolved(infos[n.id]@.inputs, edges, resolved, n)
}

/// The edges that leave node `n`, in edge-list order.
pub open spec fn edges_from(es: Seq<Edge>, n: NodeKey) -> Seq<Edge>
    decreases es.len(),
{
    if es.len() == 0 {
        seq![]
    } else if es.last().from.node == n {
        edges_from(es.drop_last(), n).push(es.last())
    } else {
        edges_from(es.drop_last(), n)
    }
}

/// The edges that enter node `n`, in edge-list order.
pub open spec fn edges_to(es: Seq<Edge>, n: NodeKey) -> Seq<Edge>
    decreases es.len(),
{
    if es.len() == 0 {
        seq![]
    } else if es.last().to.node == n {
        edges_to(es.drop_last(), n).push(es.last())
    } else {
        edges_to(es.drop_last(), n)
    }
}

/// The nodes, in store order, that no edge enters.
pub open spec fn initial(keys: Seq<NodeKey>, edges: Seq<Edge>) -> Seq<NodeKey>
    decreases keys.len(),
{
    if keys.len() == 0 {
        seq![]
    } else if has_inbound(edges, keys.last()) {
        initial(keys.drop_last(), edges)
    } else {
        initial(keys.drop_last(), edges).push(keys.last())
    }
}

/// Following the edges `es` of a ready node resolves their destination ports.
pub open spec fn spread_res(res: Seq<Port>, es: Seq<Edge>) -> Seq<Port>
    decreases es.len(),
{
    if es.len() == 0 {
        res
    } else {
        spread_res(res, es.drop_last()).push(Port::input_spec(es.last().to.node, es.last().to.port))
    }
}

/// Following the edges `es` of a ready node adds each destination node to the
/// next frontier once.
pub open spec fn spread_next(next: Seq<NodeKey>, es: Seq<Edge>) -> Seq<NodeKey>
    decreases es.len(),
{
    if es.len() == 0 {
        next
    } else {
        let s = spread_next(next, es.drop_last());
        if s.contains(es.last().to.node) { s } else { s.push(es.last().to.node) }
    }
}

/// One node of a frontier: if it is ready it is scheduled (once) and its
/// outgoing edges are followed; otherwise it is dropped.
pub open spec fn visit(infos: Map<u64, NodeInfo>, edges: Seq<Edge>, st: Sched, n: NodeKey) -> Sched {
    if ready(infos, edges, st.resolved, n) {
        let outs = edges_from(edges, n);
        let res = spread_res(st.resolved, outs);
        let next = spread_next(st.next, outs);
        if st.order.contains(n) {
            Sched { order: st.order, outs: st.outs, ins: st.ins, resolved: res, next }
        } else {
            Sched {
                order: st.order.push(n),
                outs: st.outs.push(outs),
                ins: st.ins.push(edges_to(edges, n)),
                resolved: res,
                next,
            }
        }
    } else {
        st
    }
}

/// A whole frontier, in order.
pub open spec fn round(infos: Map<u64, NodeInfo>, edges: Seq<Edge>, st: Sched, fr: Seq<NodeKey>) -> Sched
    decreases fr.len(),
{
    if fr.len() == 0 {
        st
    } else {
        visit(infos, edges, round(infos, edges, st, fr.drop_last()), fr.last())
    }
}

pub open spec fn clear_next(st: Sched) -> Sched {
    Sched { order: st.order, outs: st.outs, ins: st.ins, resolved: st.resolved, next: seq![] }
}

/// Frontier after frontier, at most `fuel` of them.
pub open spec fn rounds(infos: Map<u64, NodeInfo>, edges: Seq<Edge>, st: Sched, fr: Seq<NodeKey>, fuel: nat) -> Sched
    decreases fuel,
{
    if fuel == 0 || fr.len() == 0 {
        st
    } else {
        let s = round(infos, edges, clear_next(st), fr);
        rounds(infos, edges, s, s.next, (fuel - 1) as nat)
    }
}

/// The next frontier that a state carries plays no part in what follows.
pub proof fn lemma_rounds_ignore_next(infos: Map<u64, NodeInfo>, edges: Seq<Edge>, st: Sched, fr: Seq<NodeKey>, fuel: nat)
    ensures
        rounds(infos, edges, clear_next(st), fr, fuel).order == rounds(infos, edges, st, fr, fuel).order,
        rounds(infos, edges, clear_next(st), fr, fuel).outs == rounds(infos, edges, st, fr, fuel).outs,
        rounds(infos, edges, clear_next(st), fr, fuel).ins == rounds(infos, edges, st, fr, fuel).ins,
{
    assert(clear_next(clear_next(st)) == clear_next(st));
}

/// The schedule of a graph whose store enumerates `keys`, describes them by
/// `infos`, and whose wiring is `edges`. A path through more frontiers than
/// there are nodes must pass a node twice, so it runs round a feedback loop:
/// no frontier beyond that many is followed.
pub open spec fn schedule(keys: Seq<NodeKey>, infos: Map<u64, NodeInfo>, edges: Seq<Edge>) -> Sched {
    rounds(infos, edges, empty_sched(), initial(keys, edges), keys.len())
}

/// No node is listed twice, and an edge that ends at a listed node starts at a
/// node listed before it.
pub open spec fn sound(order: Seq<NodeKey>, edges: Seq<Edge>) -> bool {
    &&& order.no_duplicates()
    &&& forall|k: int, j: int|
        #![trigger order[j], edges[k]]
        0 <= k < edges.len() && 0 <= j < order.len() && order[j] == edges[k].to.node
            ==> exists|i: int| 0 <= i < j && order[i] == edges[k].from.node
}

/// Each input port is fed from at most one node.
pub open spec fn fed_once(edges: Seq<Edge>) -> bool {
    forall|a: int, b: int|
        0 <= a < edges.len() && 0 <= b < edges.len() && #[trigger] edges[a].to == #[trigger] edges[b].to
            ==> edges[a].from.node == edges[b].from.node
}

/// Each edge ends at an input port that its stored node declares.
pub open spec fn declared(infos: Map<u64, NodeInfo>, edges: Seq<Edge>) -> bool {
    forall|k: int|
        0 <= k < edges.len() ==> {
            let e = #[trigger] edges[k];
            &&& e.to.kind == PortKind::Input
            &&& infos.contains_key(e.to.node.id) ==> {
                &&& e.to.port < infos[e.to.node.id]@.inputs.len()
                &&& infos[e.to.node.id]@.inputs[e.to.port as int].0 == e.to.port
            }
        }
}

/// Each resolved port is the destination of an edge whose source is listed.
pub open spec fn resolved_ok(resolved: Seq<Port>, order: Seq<NodeKey>, edges: Seq<Edge>) -> bool {
    forall|r: int|
        0 <= r < resolved.len() ==> {
            &&& (#[trigger] resolved[r]).kind == PortKind::Input
            &&& exists|k: int|
                0 <= k < edges.len() && edges[k].to.node == resolved[r].node && edges[k].to.port == resolved[r].port
                    && order.contains(edges[k].from.node)
        }
}

/// No node is listed twice, every listed node is stored, and its edge lists
/// are its outgoing and incoming edges.
pub open spec fn shape_ok(infos: Map<u64, NodeInfo>, edges: Seq<Edge>, st: Sched) -> bool {
    &&& st.order.no_duplicates()
    &&& st.outs.len() == st.order.len()
    &&& st.ins.len() == st.order.len()
    &&& forall|i: int|
        0 <= i < st.order.len() ==> {
            &&& infos.contains_key((#[trigger] st.order[i]).id)
            &&& st.outs[i] == edges_from(edges, st.order[i])
            &&& st.ins[i] == edges_to(edges, st.order[i])
        }
}

pub open spec fn sched_inv(infos: Map<u64, NodeInfo>, edges: Seq<Edge>, st: Sched) -> bool {
    &&& shape_ok(infos, edges, st)
    &&& (fed_once(edges) && declared(infos, edges)) ==> sound(st.order, edges) && resolved_ok(st.resolved, st.order, edges)
}

/// The edges that leave `n` are edges of `es` that start at `n`.
pub proof fn lemma_edges_from_members(es: Seq<Edge>, n: NodeKey)
    ensures
        forall|t: int|
            0 <= t < edges_from(es, n).len() ==> (#[trigger] edges_from(es, n)[t]).from.node == n && es.contains(
                edges_from(es, n)[t],
            ),
    decreases es.len(),
{
    if es.len() > 0 {
        lemma_edges_from_members(es.drop_last(), n);
        let r = edges_from(es, n);
        assert forall|t: int| 0 <= t < r.len() implies (#[trigger] r[t]).from.node == n && es.contains(r[t]) by {
            if t < edges_from(es.drop_last(), n).len() {
                let k = choose|k: int| 0 <= k < es.drop_last().len() && es.drop_last()[k] == r[t];
                assert(es[k] == r[t]);
            } else {
                assert(es[es.len() - 1] == r[t]);
            }
        }
    }
}

/// The edges that enter `n` are edges of `es` that end at `n`.
pub proof fn lemma_edges_to_members(es: Seq<Edge>, n: NodeKey)
    ensures
        forall|t: int|
            0 <= t < edges_to(es, n).len() ==> (#[trigger] edges_to(es, n)[t]).to.node == n && es.contains(
                edges_to(es, n)[t],
            ),
    decreases es.len(),
{
    if es.len() > 0 {
        lemma_edges_to_members(es.drop_last(), n);
        let r = edges_to(es, n);
        assert forall|t: int| 0 <= t < r.len() implies (#[trigger] r[t]).to.node == n && es.contains(r[t]) by {
            if t < edges_to(es.drop_last(), n).len() {
                let k = choose|k: int| 0 <= k < es.drop_last().len() && es.drop_last()[k] == r[t];
                assert(es[k] == r[t]);
            } else {
                assert(es[es.len() - 1] == r[t]);
            }
        }
    }
}

proof fn lemma_spread_res(res: Seq<Port>, es: Seq<Edge>, order: Seq<NodeKey>, edges: Seq<Edge>)
    requires
        resolved_ok(res, order, edges),
        forall|t: int| 0 <= t < es.len() ==> edges.contains(#[trigger] es[t]) && order.contains(es[t].from.node),
    ensures
        resolved_ok(spread_res(res, es), order, edges),
    decreases es.len(),
{
    if es.len() > 0 {
        lemma_spread_res(res, es.drop_last(), order, edges);
        let e = es.last();
        assert(edges.contains(es[es.len() - 1]));
        let k = choose|k: int| 0 <= k < edges.len() && edges[k] == e;
        let r = spread_res(res, es);
        assert forall|q: int| 0 <= q < r.len() implies {
            &&& (#[trigger] r[q]).kind == PortKind::Input
            &&& exists|k: int|
                0 <= k < edges.len() && edges[k].to.node == r[q].node && edges[k].to.port == r[q].port
                    && order.contains(edges[k].from.node)
        } by {
            if q == r.len() - 1 {
                assert(edges[k].to.node == r[q].node && edges[k].to.port == r[q].port);
            } else {
                assert(r[q] == spread_res(res, es.drop_last())[q]);
            }
        }
    }
}

proof fn lemma_visit_inv(infos: Map<u64, NodeInfo>, edges: Seq<Edge>, st: Sched, n: NodeKey)
    requires
        sched_inv(infos, edges, st),
    ensures
        sched_inv(infos, edges, visit(infos, edges, st, n)),
{
    if ready(infos, edges, st.resolved, n) {
        let outs = edges_from(edges, n);
        let v = visit(infos, edges, st, n);
        lemma_edges_from_members(edges, n);
        let appended = !st.order.contains(n);
        assert(v.order.contains(n)) by {
            if appended {
                assert(v.order[st.order.len() as int] == n);
            }
        }
        assert(shape_ok(infos, edges, v)) by {
            assert(v.order.no_duplicates());
            assert forall|i: int| 0 <= i < v.order.len() implies {
                &&& infos.contains_key((#[trigger] v.order[i]).id)
                &&& v.outs[i] == edges_from(edges, v.order[i])
                &&& v.ins[i] == edges_to(edges, v.order[i])
            } by {
                if i < st.order.len() {
                    assert(v.order[i] == st.order[i]);
                }
            }
        }
        if fed_once(edges) && declared(infos, edges) {
            // every listed node of `st` stays listed in `v`, at the same place
            assert forall|x: NodeKey| st.order.contains(x) implies v.order.contains(x) by {
                let i = choose|i: int| 0 <= i < st.order.len() && st.order[i] == x;
                assert(v.order[i] == x);
            }
            assert(resolved_ok(st.resolved, v.order, edges)) by {
                assert forall|r: int| 0 <= r < st.resolved.len() implies {
                    &&& (#[trigger] st.resolved[r]).kind == PortKind::Input
                    &&& exists|k: int|
                        0 <= k < edges.len() && edges[k].to.node == st.resolved[r].node && edges[k].to.port
                            == st.resolved[r].port && v.order.contains(edges[k].from.node)
                } by {
                    let k = choose|k: int|
                        0 <= k < edges.len() && edges[k].to.node == st.resolved[r].node && edges[k].to.port
                            == st.resolved[r].port && st.order.contains(edges[k].from.node);
                    assert(v.order.contains(edges[k].from.node));
                }
            }
            assert forall|t: int| 0 <= t < outs.len() implies edges.contains(#[trigger] outs[t]) && v.order.contains(
                outs[t].from.node,
            ) by {}
            lemma_spread_res(st.resolved, outs, v.order, edges);
            if appended {
                let j0 = st.order.len() as int;
                assert forall|k: int, j: int|
                    #![trigger v.order[j], edges[k]]
                    0 <= k < edges.len() && 0 <= j < v.order.len() && v.order[j] == edges[k].to.node
                        implies exists|i: int| 0 <= i < j && v.order[i] == edges[k].from.node by {
                    if j < j0 {
                        assert(st.order[j] == v.order[j]);
                        let i = choose|i: int| 0 <= i < j && st.order[i] == edges[k].from.node;
                        assert(v.order[i] == edges[k].from.node);
                    } else {
                        let e = edges[k];
                        let p = Port::input_spec(n, e.to.port);
                        let info = infos[n.id]@;
                        assert(info.inputs[e.to.port as int].0 == e.to.port);
                        assert(e.to == p);
                        assert(feeds(edges, p));
                        assert(st.resolved.contains(p));
                        let r = choose|r: int| 0 <= r < st.resolved.len() && st.resolved[r] == p;
                        let k2 = choose|k2: int|
                            0 <= k2 < edges.len() && edges[k2].to.node == st.resolved[r].node && edges[k2].to.port
                                == st.resolved[r].port && st.order.contains(edges[k2].from.node);
                        assert(edges[k2].to == edges[k].to);
                        let i = choose|i: int| 0 <= i < st.order.len() && st.order[i] == edges[k2].from.node;
                        assert(v.order[i] == edges[k].from.node);
                    }
                }
                assert(v.order.no_duplicates());
            }
        }
    }
}

proof fn lemma_round_inv(infos: Map<u64, NodeInfo>, edges: Seq<Edge>, st: Sched, fr: Seq<NodeKey>)
    requires
        sched_inv(infos, edges, st),
    ensures
        sched_inv(infos, edges, round(infos, edges, st, fr)),
    decreases fr.len(),
{
    if fr.len() > 0 {
        lemma_round_inv(infos, edges, st, fr.drop_last());
        lemma_visit_inv(infos, edges, round(infos, edges, st, fr.drop_last()), fr.last());
    }
}

proof fn lemma_rounds_inv(infos: Map<u64, NodeInfo>, edges: Seq<Edge>, st: Sched, fr: Seq<NodeKey>, fuel: nat)
    requires
        sched_inv(infos, edges, st),
    ensures
        sched_inv(infos, edges, rounds(infos, edges, st, fr, fuel)),
    decreases fuel,
{
    if fuel > 0 && fr.len() > 0 {
        lemma_round_inv(infos, edges, clear_next(st), fr);
        let s = round(infos, edges, clear_next(st), fr);
        lemma_rounds_inv(infos, edges, s, s.next, (fuel - 1) as nat);
    }
}

/// No node is scheduled twice, every scheduled node is stored, and its edge
/// lists are exactly its outgoing and incoming edges; where every input port is fed from at most
/// one node and every edge ends at a declared input, no node is scheduled
/// twice and each edge's source runs before its destination.
pub proof fn lemma_schedule_inv(keys: Seq<NodeKey>, infos: Map<u64, NodeInfo>, edges: Seq<Edge>)
    ensures
        sched_inv(infos, edges, schedule(keys, infos, edges)),
{
    lemma_rounds_inv(infos, edges, empty_sched(), initial(keys, edges), keys.len());
}

/// Every node of `c` has an inbound edge, and every edge that enters `c`
/// starts in `c`: nothing outside feeds the set.
pub open spec fn sealed(edges: Seq<Edge>, c: Set<NodeKey>) -> bool {
    &&& forall|k: int| 0 <= k < edges.len() && c.contains(#[trigger] edges[k].to.node) ==> c.contains(edges[k].from.node)
    &&& forall|x: NodeKey| #[trigger] c.contains(x) ==> has_inbound(edges, x)
}

pub open spec fn avoids(s: Seq<NodeKey>, c: Set<NodeKey>) -> bool {
    forall|i: int| 0 <= i < s.len() ==> !c.contains(#[trigger] s[i])
}

proof fn lemma_initial_fed_free(keys: Seq<NodeKey>, edges: Seq<Edge>)
    ensures
        forall|i: int| 0 <= i < initial(keys, edges).len() ==> !has_inbound(edges, #[trigger] initial(keys, edges)[i]),
    decreases keys.len(),
{
    if keys.len() > 0 {
        lemma_initial_fed_free(keys.drop_last(), edges);
        let r = initial(keys, edges);
        let p = initial(keys.drop_last(), edges);
        assert forall|i: int| 0 <= i < r.len() implies !has_inbound(edges, #[trigger] r[i]) by {
            if i < p.len() {
                assert(r[i] == p[i]);
            }
        }
    }
}

proof fn lemma_spread_next_avoids(next: Seq<NodeKey>, es: Seq<Edge>, c: Set<NodeKey>)
    requires
        avoids(next, c),
        forall|t: int| 0 <= t < es.len() ==> !c.contains((#[trigger] es[t]).to.node),
    ensures
        avoids(spread_next(next, es), c),
    decreases es.len(),
{
    if es.len() > 0 {
        lemma_spread_next_avoids(next, es.drop_last(), c);
        assert(!c.contains(es[es.len() - 1].to.node));
    }
}

proof fn lemma_round_avoids(infos: Map<u64, NodeInfo>, edges: Seq<Edge>, st: Sched, fr: Seq<NodeKey>, c: Set<NodeKey>)
    requires
        sealed(edges, c),
        avoids(st.order, c),
        avoids(st.next, c),
        avoids(fr, c),
    ensures
        avoids(round(infos, edges, st, fr).order, c),
        avoids(round(infos, edges, st, fr).next, c),
    decreases fr.len(),
{
    if fr.len() > 0 {
        lemma_round_avoids(infos, edges, st, fr.drop_last(), c);
        let s = round(infos, edges, st, fr.drop_last());
        let n = fr.last();
        assert(!c.contains(fr[fr.len() - 1]));
        if ready(infos, edges, s.resolved, n) {
            let outs = edges_from(edges, n);
            lemma_edges_from_members(edges, n);
            assert forall|t: int| 0 <= t < outs.len() implies !c.contains((#[trigger] outs[t]).to.node) by {
                let k = choose|k: int| 0 <= k < edges.len() && edges[k] == outs[t];
            }
            lemma_spread_next_avoids(s.next, outs, c);
            let v = visit(infos, edges, s, n);
            assert forall|i: int| 0 <= i < v.order.len() implies !c.contains(#[trigger] v.order[i]) by {
                if i < s.order.len() {
                    assert(v.order[i] == s.order[i]);
                }
            }
        }
    }
}

proof fn lemma_rounds_avoid(infos: Map<u64, NodeInfo>, edges: Seq<Edge>, st: Sched, fr: Seq<NodeKey>, fuel: nat, c: Set<NodeKey>)
    requires
        sealed(edges, c),
        avoids(st.order, c),
        avoids(fr, c),
    ensures
        avoids(rounds(infos, edges, st, fr, fuel).order, c),
    decreases fuel,
{
    if fuel > 0 && fr.len() > 0 {
        lemma_round_avoids(infos, edges, clear_next(st), fr, c);
        let s = round(infos, edges, clear_next(st), fr);
        lemma_rounds_avoid(infos, edges, s, s.next, (fuel - 1) as nat, c);
    }
}

/// No node of a set that nothing outside feeds is ever scheduled.
pub proof fn lemma_sealed_unscheduled(keys: Seq<NodeKey>, infos: Map<u64, NodeInfo>, edges: Seq<Edge>, c: Set<NodeKey>)
    requires
        sealed(edges, c),
    ensures
        avoids(schedule(keys, infos, edges).order, c),
{
    lemma_initial_fed_free(keys, edges);
    lemma_rounds_avoid(infos, edges, empty_sched(), initial(keys, edges), keys.len(), c);
}

/// Whether an edge of `edges` ends at `p`.
pub fn port_fed(edges: &Vec<Edge>, p: Port) -> (r: bool)
    ensures
        r == feeds(edges@, p),
{
    let mut k: usize = 0;
    while k < edges.len()
        invariant
            k <= edges@.len(),
            forall|j: int| 0 <= j < k ==> edges@[j].to != p,
        decreases edges@.len() - k,
    {
        if edges[k].to == p {
            return true;
        }
        k = k + 1;
    }
    false
}

/// Whether an edge of `edges` ends at a port of `n`.
pub fn node_fed(edges: &Vec<Edge>, n: NodeKey) -> (r: bool)
    ensures
        r == has_inbound(edges@, n),
{
    let mut k: usize = 0;
    while k < edges.len()
        invariant
            k <= edges@.len(),
            forall|j: int| 0 <= j < k ==> edges@[j].to.node != n,
        decreases edges@.len() - k,
    {
        if edges[k].to.node == n {
            return true;
        }
        k = k + 1;
    }
    false
}

/// Whether `p` is listed in `ports`.
pub fn port_listed(ports: &Vec<Port>, p: Port) -> (r: bool)
    ensures
        r == ports@.contains(p),
{
    let mut k: usize = 0;
    while k < ports.len()
        invariant
            k <= ports@.len(),
            forall|j: int| 0 <= j < k ==> ports@[j] != p,
        decreases ports@.len() - k,
    {
        if ports[k] == p {
            return true;
        }
        k = k + 1;
    }
    false
}

/// Whether `n` is listed in `keys`.
pub fn key_listed(keys: &Vec<NodeKey>, n: NodeKey) -> (r: bool)
    ensures
        r == keys@.contains(n),
{
    let mut k: usize = 0;
    while k < keys.len()
        invariant
            k <= keys@.len(),
            forall|j: int| 0 <= j < k ==> keys@[j] != n,
        decreases keys@.len() - k,
    {
        if keys[k] == n {
            return true;
        }
        k = k + 1;
    }
    false
}

/// Whether every input of `n` among `inputs` that an edge feeds is resolved.
pub fn inputs_ready(inputs: &Vec<InputId>, edges: &Vec<Edge>, resolved: &Vec<Port>, n: NodeKey) -> (r: bool)
    ensures
        r == inputs_resolved(inputs_view(inputs@), edges@, resolved@, n),
{
    let ghost iv = inputs_view(inputs@);
    let mut i: usize = 0;
    while i < inputs.len()
        invariant
            i <= inputs@.len(),
            iv == inputs_view(inputs@),
            forall|j: int| 0 <= j < i ==> (feeds(edges@, Port::input_spec(n, #[trigger] iv[j].0))
                ==> resolved@.contains(Port::input_spec(n, iv[j].0))),
        decreases inputs@.len() - i,
    {
        let p = Port::input(n, inputs[i].port);
        assert(iv[i as int].0 == inputs@[i as int].port);
        if port_fed(edges, p) && !port_listed(resolved, p) {
            return false;
        }
        i = i + 1;
    }
    true
}

/// The edges of `edges` that leave `n`.
pub fn edges_leaving(edges: &Vec<Edge>, n: NodeKey) -> (r: Vec<Edge>)
    ensures
        r@ == edges_from(edges@, n),
{
    let mut r: Vec<Edge> = Vec::new();
    let mut k: usize = 0;
    while k < edges.len()
        invariant
            k <= edges@.len(),
            r@ == edges_from(edges@.take(k as int), n),
        decreases edges@.len() - k,
    {
        assert(edges@.take(k + 1).drop_last() == edges@.take(k as int));
        if edges[k].from.node == n {
            r.push(edges[k]);
        }
        k = k + 1;
    }
    assert(edges@.take(k as int) == edges@);
    r
}

/// The edges of `edges` that enter `n`.
pub fn edges_entering(edges: &Vec<Edge>, n: NodeKey) -> (r: Vec<Edge>)
    ensures
        r@ == edges_to(edges@, n),
{
    let mut r: Vec<Edge> = Vec::new();
    let mut k: usize = 0;
    while k < edges.len()
        invariant
            k <= edges@.len(),
            r@ == edges_to(edges@.take(k as int), n),
        decreases edges@.len() - k,
    {
        assert(edges@.take(k + 1).drop_last() == edges@.take(k as int));
        if edges[k].to.node == n {
            r.push(edges[k]);
        }
        k = k + 1;
    }
    assert(edges@.take(k as int) == edges@);
    r
}

/// The nodes of `keys`, in order, that no edge enters.
pub fn initial_frontier(keys: &Vec<NodeKey>, edges: &Vec<Edge>) -> (r: Vec<NodeKey>)
    ensures
        r@ == initial(keys@, edges@),
{
    let mut r: Vec<NodeKey> = Vec::new();
    let mut k: usize = 0;
    while k < keys.len()
        invariant
            k <= keys@.len(),
            r@ == initial(keys@.take(k as int), edges@),
        decreases keys@.len() - k,
    {
        assert(keys@.take(k + 1).drop_last() == keys@.take(k as int));
        if !node_fed(edges, keys[k]) {
            r.push(keys[k]);
        }
        k = k + 1;
    }
    assert(keys@.take(k as int) == keys@);
    r
}

/// Follow the edges `es` of a ready node.
pub fn spread_into(es: &Vec<Edge>, resolved: &mut Vec<Port>, next: &mut Vec<NodeKey>)
    ensures
        final(resolved)@ == spread_res(old(resolved)@, es@),
        final(next)@ == spread_next(old(next)@, es@),
{
    let ghost r0 = resolved@;
    let ghost n0 = next@;
    let mut k: usize = 0;
    while k < es.len()
        invariant
            k <= es@.len(),
            resolved@ == spread_res(r0, es@.take(k as int)),
            next@ == spread_next(n0, es@.take(k as int)),
        decreases es@.len() - k,
    {
        assert(es@.take(k + 1).drop_last() == es@.take(k as int));
        let e = es[k];
        if !key_listed(next, e.to.node) {
            next.push(e.to.node);
        }
        resolved.push(Port::input(e.to.node, e.to.port));
        k = k + 1;
    }
    assert(es@.take(k as int) == es@);
}

} // verus!
