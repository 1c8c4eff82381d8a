use firewheel_graph::graph::AudioGraph;
use firewheel_graph::ids::{AudioNodeInfo, ChannelConfig, NodeID};
use firewheel_graph::schedule::{compile, topological_order, SILENT_BUFFER};

fn add(g: &mut AudioGraph, ins: u32, outs: u32) -> NodeID {
    let info = AudioNodeInfo {
        num_min_supported_inputs: 0,
        num_max_supported_inputs: 8,
        num_min_supported_outputs: 0,
        num_max_supported_outputs: 8,
    };
    g.add_node(info, ChannelConfig { num_inputs: ins, num_outputs: outs }).unwrap()
}

fn pos(order: &[NodeID], id: NodeID) -> usize {
    order.iter().position(|n| *n == id).unwrap()
}

#[test]
fn order_follows_edges() {
    let mut g = AudioGraph::new();
    let out = add(&mut g, 1, 0);
    let mid = add(&mut g, 1, 1);
    let src = add(&mut g, 0, 1);
    g.add_edge(src, 0, mid, 0).unwrap();
    g.add_edge(mid, 0, out, 0).unwrap();
    let order = topological_order(&g).unwrap();
    assert_eq!(order, vec![src, mid, out]);
}

#[test]
fn pass_through_schedule_buffers() {
    let mut g = AudioGraph::new();
    let graph_in = add(&mut g, 0, 1);
    let graph_out = add(&mut g, 1, 0);
    let p = add(&mut g, 1, 1);
    g.add_edge(graph_in, 0, p, 0).unwrap();
    g.add_edge(p, 0, graph_out, 0).unwrap();
    let s = compile(&g).unwrap();
    let order: Vec<NodeID> = s.nodes.iter().map(|n| n.id).collect();
    assert_eq!(order, vec![graph_in, p, graph_out]);
    let n_in = &s.nodes[pos(&order, graph_in)];
    let n_p = &s.nodes[pos(&order, p)];
    let n_out = &s.nodes[pos(&order, graph_out)];
    assert_eq!(n_p.input_buffers[0], n_in.output_buffers[0]);
    assert_eq!(n_out.input_buffers[0], n_p.output_buffers[0]);
    assert_ne!(n_in.output_buffers[0], n_p.output_buffers[0]);
    assert_eq!(s.num_buffers, 3);
}

#[test]
fn unconnected_inputs_read_silence() {
    let mut g = AudioGraph::new();
    let a = add(&mut g, 0, 2);
    let b = add(&mut g, 3, 1);
    g.add_edge(a, 1, b, 2).unwrap();
    let s = compile(&g).unwrap();
    let order: Vec<NodeID> = s.nodes.iter().map(|n| n.id).collect();
    let na = &s.nodes[pos(&order, a)];
    let nb = &s.nodes[pos(&order, b)];
    assert_eq!(nb.input_buffers[0], SILENT_BUFFER);
    assert_eq!(nb.input_buffers[1], SILENT_BUFFER);
    assert_eq!(nb.input_buffers[2], na.output_buffers[1]);
    // The first output of `a` has no consumer, so `b` may write over it.
    assert_eq!(nb.output_buffers[0], na.output_buffers[0]);
    assert_ne!(nb.output_buffers[0], na.output_buffers[1]);
    assert_ne!(na.output_buffers[0], na.output_buffers[1]);
    assert_eq!(s.num_buffers, 3);
}

#[test]
fn buffers_reused_after_last_consumer() {
    let mut g = AudioGraph::new();
    let a = add(&mut g, 0, 1);
    let b = add(&mut g, 1, 1);
    let c = add(&mut g, 1, 1);
    let d = add(&mut g, 1, 0);
    g.add_edge(a, 0, b, 0).unwrap();
    g.add_edge(b, 0, c, 0).unwrap();
    g.add_edge(c, 0, d, 0).unwrap();
    let s = compile(&g).unwrap();
    let order: Vec<NodeID> = s.nodes.iter().map(|n| n.id).collect();
    assert_eq!(order, vec![a, b, c, d]);
    let (na, nb, nc, nd) = (&s.nodes[0], &s.nodes[1], &s.nodes[2], &s.nodes[3]);
    assert_ne!(na.output_buffers[0], nb.output_buffers[0]);
    assert_ne!(nb.output_buffers[0], nc.output_buffers[0]);
    assert_eq!(nc.output_buffers[0], na.output_buffers[0]);
    assert_eq!(nd.input_buffers[0], nc.output_buffers[0]);
    assert_eq!(s.num_buffers, 3);
}

#[test]
fn fan_out_keeps_buffer_until_last_consumer() {
    let mut g = AudioGraph::new();
    let a = add(&mut g, 0, 1);
    let b = add(&mut g, 1, 1);
    let c = add(&mut g, 2, 1);
    g.add_edge(a, 0, b, 0).unwrap();
    g.add_edge(a, 0, c, 0).unwrap();
    g.add_edge(b, 0, c, 1).unwrap();
    let s = compile(&g).unwrap();
    let order: Vec<NodeID> = s.nodes.iter().map(|n| n.id).collect();
    assert_eq!(order, vec![a, b, c]);
    let (na, nb, nc) = (&s.nodes[0], &s.nodes[1], &s.nodes[2]);
    assert_eq!(nc.input_buffers[0], na.output_buffers[0]);
    assert_eq!(nc.input_buffers[1], nb.output_buffers[0]);
    assert_ne!(nc.output_buffers[0], na.output_buffers[0]);
    assert_ne!(nc.output_buffers[0], nb.output_buffers[0]);
    assert_eq!(s.num_buffers, 4);
}

#[test]
fn empty_graph_compiles() {
    let g = AudioGraph::new();
    let s = compile(&g).unwrap();
    assert!(s.nodes.is_empty());
    assert_eq!(s.num_buffers, 1);
}

#[test]
fn diamond_order() {
    let mut g = AudioGraph::new();
    let d = add(&mut g, 2, 0);
    let b = add(&mut g, 1, 1);
    let c = add(&mut g, 1, 1);
    let a = add(&mut g, 0, 1);
    g.add_edge(a, 0, b, 0).unwrap();
    g.add_edge(a, 0, c, 0).unwrap();
    g.add_edge(b, 0, d, 0).unwrap();
    g.add_edge(c, 0, d, 1).unwrap();
    let order = topological_order(&g).unwrap();
    assert_eq!(order.len(), 4);
    assert!(pos(&order, a) < pos(&order, b));
    assert!(pos(&order, a) < pos(&order, c));
    assert!(pos(&order, b) < pos(&order, d));
    assert!(pos(&order, c) < pos(&order, d));
}
