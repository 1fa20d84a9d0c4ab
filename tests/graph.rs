use lolsynth::graph::{Action, Graph, GraphError};
use lolsynth::node::NodeInfo;
use lolsynth::port::{Edge, NodeKey, Port, PortKind};

fn names(v: &[&str]) -> Vec<String> {
    v.iter().map(|s| s.to_string()).collect()
}

fn osc() -> NodeInfo {
    NodeInfo::new("SineOsc", &names(&["freq"]), &names(&["value"]))
}

fn out() -> NodeInfo {
    NodeInfo::new("Out", &names(&["value"]), &names(&["value"]))
}

fn add4() -> NodeInfo {
    NodeInfo::new("Add", &names(&["i1", "i2", "i3", "i4"]), &names(&["value"]))
}

fn wire(g: &mut Graph, a: NodeKey, ap: usize, b: NodeKey, bp: usize) {
    g.connect(Port::output(a, ap), Port::input(b, bp)).unwrap();
}

fn position(order: &[NodeKey], k: NodeKey) -> usize {
    order.iter().position(|x| *x == k).unwrap()
}

#[test]
fn new_graph_is_empty() {
    let g = Graph::new();
    assert!(g.node_order().is_empty());
    assert!(g.edges().is_empty());
    assert_eq!(g.output_node(), None);
    assert!(g.node_keys().is_empty());
}

#[test]
fn add_gives_fresh_handles_and_schedules() {
    let mut g = Graph::new();
    let a = g.add(osc());
    let b = g.add(out());
    assert_ne!(a, b);
    assert!(g.has_node(a));
    assert!(g.has_node(b));
    assert_eq!(g.node_order().len(), 2);
    assert_eq!(g.node_keys(), vec![a, b]);
    assert_eq!(g.get_node(a).unwrap().kind, "SineOsc");
    assert_eq!(g.get_node(b).unwrap().inputs[0].name, "value");
}

#[test]
fn chain_is_ordered_source_first() {
    let mut g = Graph::new();
    let o = g.add(out());
    let s = g.add(osc());
    wire(&mut g, s, 0, o, 0);
    assert_eq!(g.node_order().clone(), vec![s, o]);
    let outs = g.node_outputs();
    let ins = g.node_inputs();
    assert_eq!(outs[0].len(), 1);
    assert_eq!(outs[1].len(), 0);
    assert_eq!(ins[0].len(), 0);
    assert_eq!(ins[1].len(), 1);
    assert_eq!(outs[0][0].to, Port::input(o, 0));
}

#[test]
fn diamond_respects_every_edge() {
    let mut g = Graph::new();
    let sum = g.add(add4());
    let b = g.add(add4());
    let a = g.add(osc());
    wire(&mut g, a, 0, b, 0);
    wire(&mut g, a, 0, sum, 0);
    wire(&mut g, b, 0, sum, 1);
    let order = g.node_order().clone();
    assert_eq!(order.len(), 3);
    for e in g.edges() {
        assert!(position(&order, e.from.node) < position(&order, e.to.node));
    }
    assert_eq!(order, vec![a, b, sum]);
}

#[test]
fn two_node_cycle_is_left_out() {
    let mut g = Graph::new();
    let a = g.add(add4());
    let b = g.add(add4());
    let o = g.add(out());
    wire(&mut g, a, 0, b, 0);
    wire(&mut g, b, 0, a, 0);
    let order = g.node_order().clone();
    assert!(!order.contains(&a));
    assert!(!order.contains(&b));
    assert_eq!(order, vec![o]);
}

#[test]
fn cycle_fed_from_outside_is_left_out_too() {
    let mut g = Graph::new();
    let src = g.add(osc());
    let a = g.add(add4());
    let b = g.add(add4());
    wire(&mut g, src, 0, a, 0);
    wire(&mut g, a, 0, b, 0);
    wire(&mut g, b, 0, a, 1);
    assert_eq!(g.node_order().clone(), vec![src]);
}

#[test]
fn sort_twice_gives_the_same_schedule() {
    let mut g = Graph::new();
    let a = g.add(osc());
    let b = g.add(add4());
    let c = g.add(out());
    wire(&mut g, a, 0, b, 2);
    wire(&mut g, b, 0, c, 0);
    let order1 = g.node_order().clone();
    let outs1 = g.node_outputs().clone();
    let ins1 = g.node_inputs().clone();
    g.sort();
    g.sort();
    assert_eq!(g.node_order().clone(), order1);
    assert_eq!(g.node_outputs().clone(), outs1);
    assert_eq!(g.node_inputs().clone(), ins1);
}

#[test]
fn self_loop_is_refused() {
    let mut g = Graph::new();
    let a = g.add(add4());
    let r = g.connect(Port::output(a, 0), Port::input(a, 1));
    assert_eq!(r, Err(GraphError::SelfLoop));
    assert!(g.edges().is_empty());
}

#[test]
fn remove_prunes_edges_and_schedule() {
    let mut g = Graph::new();
    let a = g.add(osc());
    let b = g.add(add4());
    let c = g.add(out());
    wire(&mut g, a, 0, b, 0);
    wire(&mut g, b, 0, c, 0);
    g.set_output_node(Some(b));
    g.remove(b);
    assert!(!g.has_node(b));
    assert!(g.edges().is_empty());
    assert!(!g.node_order().contains(&b));
    assert_eq!(g.output_node(), None);
    for es in g.node_outputs().iter().chain(g.node_inputs().iter()) {
        for e in es {
            assert!(e.from.node != b && e.to.node != b);
        }
    }
    assert_eq!(g.node_order().len(), 2);
}

#[test]
fn remove_twice_is_a_no_op() {
    let mut g = Graph::new();
    let a = g.add(osc());
    let b = g.add(out());
    wire(&mut g, a, 0, b, 0);
    g.remove(a);
    g.remove(a);
    assert_eq!(g.node_keys(), vec![b]);
    g.remove(NodeKey { id: 7 });
    assert_eq!(g.node_keys(), vec![b]);
}

#[test]
fn handles_are_not_reused_while_alive() {
    let mut g = Graph::new();
    let a = g.add(osc());
    let b = g.add(osc());
    g.remove(a);
    let c = g.add(osc());
    assert_ne!(c, a);
    assert_ne!(c, b);
    assert!(!g.has_node(a));
    assert!(g.has_node(c));
}

#[test]
fn disconnect_removes_only_the_matching_edge() {
    let mut g = Graph::new();
    let a = g.add(osc());
    let b = g.add(add4());
    wire(&mut g, a, 0, b, 0);
    wire(&mut g, a, 0, b, 1);
    g.disconnect(Port::output(a, 0), Port::input(b, 0));
    assert_eq!(g.edges().len(), 1);
    assert_eq!(g.edges()[0].to, Port::input(b, 1));
    g.disconnect(Port::output(a, 0), Port::input(b, 0));
    assert_eq!(g.edges().len(), 1);
    g.disconnect_edge(Edge { from: Port::output(a, 0), to: Port::input(b, 1) });
    assert!(g.edges().is_empty());
}

#[test]
fn disconnect_input_port_clears_the_destination() {
    let mut g = Graph::new();
    let a = g.add(osc());
    let b = g.add(add4());
    wire(&mut g, a, 0, b, 3);
    assert_eq!(g.get_edge(Port::input(b, 3)), Some(Edge { from: Port::output(a, 0), to: Port::input(b, 3) }));
    g.disconnect_input_port(Port::input(b, 3));
    assert!(g.edges().is_empty());
    assert_eq!(g.get_edge(Port::input(b, 3)), None);
}

#[test]
fn get_edge_returns_the_last_match() {
    let mut g = Graph::new();
    let a = g.add(osc());
    let b = g.add(osc());
    let c = g.add(add4());
    wire(&mut g, a, 0, c, 0);
    wire(&mut g, b, 0, c, 0);
    assert_eq!(g.get_edge(Port::input(c, 0)).unwrap().from.node, b);
}

#[test]
fn clear_empties_everything() {
    let mut g = Graph::new();
    let a = g.add(osc());
    let b = g.add(out());
    wire(&mut g, a, 0, b, 0);
    g.set_output_node(Some(b));
    g.clear();
    assert!(g.node_keys().is_empty());
    assert!(g.edges().is_empty());
    assert!(g.node_order().is_empty());
    assert_eq!(g.output_node(), None);
}

#[test]
fn unconnected_ports_are_listed() {
    let mut g = Graph::new();
    let a = g.add(osc());
    let b = g.add(add4());
    wire(&mut g, a, 0, b, 1);
    let ins = g.get_unconnected_inputs_for_node(b);
    let idx: Vec<usize> = ins.iter().map(|u| u.port_idx).collect();
    assert_eq!(idx, vec![0, 2, 3]);
    assert_eq!(ins[0].name, "i1");
    assert_eq!(ins[1].node_key, b);
    assert!(g.get_unconnected_outputs_for_node(a).is_empty());
    let outs = g.get_unconnected_outputs_for_node(b);
    assert_eq!(outs.len(), 1);
    assert_eq!(outs[0].name, "value");
    let all_in = g.get_unconnected_inputs();
    assert_eq!(all_in.len(), 4);
    assert_eq!(all_in[0].node_key, a);
    assert_eq!(all_in[0].name, "freq");
    let all_out = g.get_unconnected_outputs();
    assert_eq!(all_out.len(), 1);
    assert_eq!(all_out[0].node_key, b);
    let ui = g.new_unconnected_input(Port::input(b, 2));
    assert_eq!((ui.node_key, ui.port_idx, ui.name.as_str()), (b, 2, "i3"));
    let uo = g.new_unconnected_output(Port::output(a, 0));
    assert_eq!((uo.node_key, uo.port_idx, uo.name.as_str()), (a, 0, "value"));
}

#[test]
fn copy_keeps_structure_under_new_handles() {
    let mut g = Graph::new();
    let a = g.add(osc());
    let b = g.add(add4());
    let c = g.add(out());
    wire(&mut g, a, 0, b, 2);
    wire(&mut g, b, 0, c, 0);
    g.set_output_node(Some(c));
    let h = g.copy();
    let keys = h.node_keys();
    assert_eq!(keys.len(), 3);
    assert_eq!(h.edges().len(), 2);
    let kinds: Vec<String> = h.node_order().iter().map(|k| h.get_node(*k).unwrap().kind.clone()).collect();
    assert_eq!(kinds, vec!["SineOsc", "Add", "Out"]);
    let e0 = h.edges()[0];
    assert_eq!(h.get_node(e0.from.node).unwrap().kind, "SineOsc");
    assert_eq!(h.get_node(e0.to.node).unwrap().kind, "Add");
    assert_eq!((e0.from.port, e0.to.port), (0, 2));
    assert_eq!(h.get_node(h.output_node().unwrap()).unwrap().kind, "Out");
    assert_eq!(h.get_node(e0.to.node).unwrap().inputs[2].name, "i3");
    assert_eq!(e0.from.kind, PortKind::Output);
}

#[test]
fn copy_is_independent() {
    let mut g = Graph::new();
    let a = g.add(osc());
    let b = g.add(out());
    wire(&mut g, a, 0, b, 0);
    let h = g.copy();
    g.clear();
    assert_eq!(h.node_keys().len(), 2);
    assert_eq!(h.edges().len(), 1);
}

#[test]
fn group_and_ungroup_a_chain() {
    let mut g = Graph::new();
    let src = g.add(osc());
    let x = g.add(add4());
    let y = g.add(add4());
    let dst = g.add(out());
    wire(&mut g, src, 0, x, 0);
    wire(&mut g, x, 0, y, 1);
    wire(&mut g, y, 0, dst, 0);

    let (c, sub, _) = g.group(&vec![x, y]);
    let info = g.get_node(c).unwrap();
    assert_eq!(info.kind, "Subgraph");
    assert_eq!(info.inputs.len(), 1);
    assert_eq!(info.outputs.len(), 1);
    assert_eq!(info.inputs[0].name, "i1");
    assert_eq!(info.outputs[0].name, "value");
    assert!(!g.has_node(x) && !g.has_node(y));
    assert_eq!(g.edges().len(), 2);
    assert_eq!(g.edges()[0], Edge { from: Port::output(src, 0), to: Port::input(c, 0) });
    assert_eq!(g.edges()[1], Edge { from: Port::output(c, 0), to: Port::input(dst, 0) });
    assert_eq!(g.node_order().clone(), vec![src, c, dst]);
    assert_eq!(sub.subgraph.node_keys().len(), 2);
    assert_eq!(sub.subgraph.edges().len(), 1);
    assert_eq!(sub.inputs.len(), 1);
    assert_eq!(sub.outputs.len(), 1);
    assert_eq!(sub.inputs[0].port_idx, 0);
    assert_eq!(sub.outputs[0].port_idx, 0);

    let back = g.ungroup(c, &sub);
    assert_eq!(back.len(), 2);
    assert!(!g.has_node(c));
    assert_eq!(g.node_keys().len(), 4);
    assert_eq!(g.edges().len(), 3);
    let order = g.node_order().clone();
    assert_eq!(order.len(), 4);
    assert_eq!(order[0], src);
    assert_eq!(order[3], dst);
    let kind = |k: NodeKey| g.get_node(k).unwrap().kind.clone();
    assert_eq!(kind(order[1]), "Add");
    assert_eq!(kind(order[2]), "Add");
    let mut pairs: Vec<(String, usize, String, usize)> = g
        .edges()
        .iter()
        .map(|e| (kind(e.from.node), e.from.port, kind(e.to.node), e.to.port))
        .collect();
    pairs.sort();
    assert_eq!(
        pairs,
        vec![
            ("Add".to_string(), 0, "Add".to_string(), 1),
            ("Add".to_string(), 0, "Out".to_string(), 0),
            ("SineOsc".to_string(), 0, "Add".to_string(), 0),
        ]
    );
    for e in g.edges() {
        assert!(position(&order, e.from.node) < position(&order, e.to.node));
    }
}

#[test]
fn group_shares_a_boundary_port_between_edges() {
    let mut g = Graph::new();
    let x = g.add(osc());
    let d1 = g.add(out());
    let d2 = g.add(out());
    wire(&mut g, x, 0, d1, 0);
    wire(&mut g, x, 0, d2, 0);
    let (c, sub, _) = g.group(&vec![x]);
    assert_eq!(g.get_node(c).unwrap().outputs.len(), 1);
    assert_eq!(g.get_node(c).unwrap().inputs.len(), 0);
    assert_eq!(sub.outputs.len(), 1);
    assert_eq!(g.edges().len(), 2);
    assert!(g.edges().iter().all(|e| e.from == Port::output(c, 0)));
}

#[test]
fn find_by_kind_returns_the_first_in_store_order() {
    let mut g = Graph::new();
    let a = g.add(osc());
    let b = g.add(out());
    let _c = g.add(out());
    assert_eq!(g.find_by_kind(&"Out".to_string()), Some(b));
    assert_eq!(g.find_by_kind(&"SineOsc".to_string()), Some(a));
    assert_eq!(g.find_by_kind(&"Reverb".to_string()), None);
}

#[test]
fn handles_carry_a_live_encoding() {
    let mut g = Graph::new();
    let a = g.add(osc());
    assert!(lolsynth::store::is_key_encoding(a.id));
    assert!(!lolsynth::store::is_key_encoding(7));
    assert!(!g.has_node(NodeKey { id: 7 }));
}

#[test]
fn node_info_numbers_ports_in_order() {
    let info = add4();
    let idx: Vec<usize> = info.inputs.iter().map(|p| p.port).collect();
    assert_eq!(idx, vec![0, 1, 2, 3]);
    assert_eq!(info.inputs[3].name, "i4");
    assert_eq!(info.outputs[0].port, 0);
    let dup = info.copy();
    assert_eq!(dup.kind, "Add");
    assert_eq!(dup.inputs, info.inputs);
    assert_eq!(dup.outputs, info.outputs);
}

#[test]
fn ports_compare_by_all_fields() {
    let mut g = Graph::new();
    let a = g.add(add4());
    assert_eq!(Port::input(a, 1), Port { node: a, port: 1, kind: PortKind::Input });
    assert_ne!(Port::input(a, 1), Port::output(a, 1));
    assert_ne!(Port::input(a, 1), Port::input(a, 2));
}

#[test]
fn voices_are_handed_out_in_turn() {
    let mut v = lolsynth::voice::VoiceAllocator::new(3);
    let got: Vec<usize> = (0..7).map(|_| v.get_voice()).collect();
    assert_eq!(got, vec![0, 1, 2, 0, 1, 2, 0]);
    let mut one = lolsynth::voice::VoiceAllocator::new(1);
    assert_eq!(one.get_voice(), 0);
    assert_eq!(one.get_voice(), 0);
}

#[test]
fn tick_plan_steps_then_carries() {
    let mut g = Graph::new();
    let o = g.add(out());
    let s = g.add(osc());
    let m = g.add(add4());
    wire(&mut g, s, 0, m, 0);
    wire(&mut g, s, 0, m, 1);
    wire(&mut g, m, 0, o, 0);
    let e1 = Edge { from: Port::output(s, 0), to: Port::input(m, 0) };
    let e2 = Edge { from: Port::output(s, 0), to: Port::input(m, 1) };
    let e3 = Edge { from: Port::output(m, 0), to: Port::input(o, 0) };
    assert_eq!(
        g.tick_plan(),
        vec![Action::Step(s), Action::Carry(e1), Action::Carry(e2), Action::Step(m), Action::Carry(e3), Action::Step(o)]
    );
    assert!(Graph::new().tick_plan().is_empty());
}
