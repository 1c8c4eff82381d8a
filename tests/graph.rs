use firewheel_graph::error::{AddEdgeError, NodeError};
use firewheel_graph::graph::AudioGraph;
use firewheel_graph::ids::{AudioNodeInfo, ChannelConfig, NodeID};

fn info(max_in: u32, max_out: u32) -> AudioNodeInfo {
    AudioNodeInfo {
        num_min_supported_inputs: 0,
        num_max_supported_inputs: max_in,
        num_min_supported_outputs: 0,
        num_max_supported_outputs: max_out,
    }
}

fn add(g: &mut AudioGraph, ins: u32, outs: u32) -> NodeID {
    g.add_node(info(8, 8), ChannelConfig { num_inputs: ins, num_outputs: outs })
        .unwrap()
}

#[test]
fn cycle_rejection() {
    let mut g = AudioGraph::new();
    let a = add(&mut g, 1, 1);
    let b = add(&mut g, 1, 1);
    assert!(g.add_edge(a, 0, b, 0).is_ok());
    assert_eq!(g.add_edge(b, 0, a, 0), Err(AddEdgeError::CycleDetected));
    assert_eq!(g.edges().len(), 1);
}

#[test]
fn longer_cycle_rejection() {
    let mut g = AudioGraph::new();
    let a = add(&mut g, 1, 1);
    let b = add(&mut g, 1, 1);
    let c = add(&mut g, 1, 1);
    g.add_edge(a, 0, b, 0).unwrap();
    g.add_edge(b, 0, c, 0).unwrap();
    assert_eq!(g.add_edge(c, 0, a, 0), Err(AddEdgeError::CycleDetected));
    assert_eq!(g.edges().len(), 2);
}

#[test]
fn self_edge_rejection() {
    let mut g = AudioGraph::new();
    let a = add(&mut g, 1, 1);
    assert_eq!(g.add_edge(a, 0, a, 0), Err(AddEdgeError::CycleDetected));
    assert!(g.edges().is_empty());
}

#[test]
fn many_to_one_rejection() {
    let mut g = AudioGraph::new();
    let a = add(&mut g, 1, 1);
    let b = add(&mut g, 1, 1);
    let c = add(&mut g, 1, 1);
    assert!(g.add_edge(a, 0, c, 0).is_ok());
    assert_eq!(
        g.add_edge(b, 0, c, 0),
        Err(AddEdgeError::InputPortAlreadyConnected(c, 0))
    );
    assert_eq!(g.edges().len(), 1);
}

#[test]
fn fan_out_is_allowed() {
    let mut g = AudioGraph::new();
    let a = add(&mut g, 0, 1);
    let b = add(&mut g, 1, 0);
    let c = add(&mut g, 1, 0);
    assert!(g.add_edge(a, 0, b, 0).is_ok());
    assert!(g.add_edge(a, 0, c, 0).is_ok());
    assert_eq!(g.edges().len(), 2);
}

#[test]
fn duplicate_edge_rejection() {
    let mut g = AudioGraph::new();
    let a = add(&mut g, 1, 1);
    let b = add(&mut g, 1, 1);
    let id = g.add_edge(a, 0, b, 0).unwrap();
    assert_eq!(g.add_edge(a, 0, b, 0), Err(AddEdgeError::EdgeAlreadyExists));
    assert_eq!(g.edges()[0].id, id);
}

#[test]
fn missing_nodes_and_ports() {
    let mut g = AudioGraph::new();
    let a = add(&mut g, 1, 2);
    let b = add(&mut g, 3, 1);
    let missing = NodeID { idx: 9, generation: 0 };
    assert_eq!(g.add_edge(missing, 0, b, 0), Err(AddEdgeError::SrcNodeNotFound(missing)));
    assert_eq!(g.add_edge(a, 0, missing, 0), Err(AddEdgeError::DstNodeNotFound(missing)));
    assert_eq!(
        g.add_edge(a, 0, b, 3),
        Err(AddEdgeError::InPortOutOfRange { node: b, port_idx: 3, num_in_ports: 3 })
    );
    assert_eq!(
        g.add_edge(a, 2, b, 0),
        Err(AddEdgeError::OutPortOutOfRange { node: a, port_idx: 2, num_out_ports: 2 })
    );
    // Input range is checked before output range.
    assert!(matches!(
        g.add_edge(a, 5, b, 5),
        Err(AddEdgeError::InPortOutOfRange { .. })
    ));
    assert!(g.edges().is_empty());
}

#[test]
fn invalid_channel_config() {
    let mut g = AudioGraph::new();
    let i = AudioNodeInfo {
        num_min_supported_inputs: 1,
        num_max_supported_inputs: 2,
        num_min_supported_outputs: 1,
        num_max_supported_outputs: 1,
    };
    let r = g.add_node(i, ChannelConfig { num_inputs: 3, num_outputs: 1 });
    match r {
        Err(NodeError::InvalidChannelConfig { channel_config, node_info, msg }) => {
            assert_eq!(channel_config, ChannelConfig { num_inputs: 3, num_outputs: 1 });
            assert_eq!(node_info, i);
            assert!(msg.is_none());
        }
        _ => panic!("expected an invalid channel configuration"),
    }
    assert_eq!(g.num_slots(), 0);
    assert!(g.add_node(i, ChannelConfig { num_inputs: 2, num_outputs: 1 }).is_ok());
}

#[test]
fn remove_node_removes_its_edges_and_reuses_slot() {
    let mut g = AudioGraph::new();
    let a = add(&mut g, 1, 1);
    let b = add(&mut g, 1, 1);
    let c = add(&mut g, 1, 1);
    g.add_edge(a, 0, b, 0).unwrap();
    g.add_edge(b, 0, c, 0).unwrap();
    g.remove_node(b);
    assert!(g.edges().is_empty());
    assert!(g.node(b).is_none());
    // Removing again changes nothing.
    g.remove_node(b);
    assert_eq!(g.num_slots(), 3);
    let d = add(&mut g, 1, 1);
    assert_eq!(d.idx, b.idx);
    assert_eq!(d.generation, b.generation + 1);
    assert_eq!(g.add_edge(b, 0, c, 0), Err(AddEdgeError::SrcNodeNotFound(b)));
    assert!(g.add_edge(a, 0, d, 0).is_ok());
    assert!(g.add_edge(d, 0, c, 0).is_ok());
}

#[test]
fn remove_edge_frees_the_input() {
    let mut g = AudioGraph::new();
    let a = add(&mut g, 1, 1);
    let b = add(&mut g, 1, 1);
    let c = add(&mut g, 1, 1);
    let e = g.add_edge(a, 0, c, 0).unwrap();
    g.remove_edge(e);
    assert!(g.edges().is_empty());
    g.remove_edge(e);
    let e2 = g.add_edge(b, 0, c, 0).unwrap();
    assert_ne!(e, e2);
    // The reverse edge is now allowed since the cycle is gone.
    assert!(g.add_edge(c, 0, a, 0).is_ok());
}
