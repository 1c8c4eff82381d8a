//! Errors of graph mutation, compilation, node activation and context
//! activation.
use vstd::prelude::*;

use crate::ids::{AudioNodeInfo, ChannelConfig, ChannelCount, Edge, EdgeID, InPortIdx, NodeID, OutPortIdx};

verus! {

/// An error occurred while attempting to add an edge to the graph.
#[derive(Clone, Copy, Debug, PartialEq, Eq, Structural)]
pub enum AddEdgeError {
    /// The given source node was not found in the graph.
    SrcNodeNotFound(NodeID),
    /// The given destination node was not found in the graph.
    DstNodeNotFound(NodeID),
    /// The given input port index is out of range.
    InPortOutOfRange { node: NodeID, port_idx: InPortIdx, num_in_ports: ChannelCount },
    /// The given output port index is out of range.
    OutPortOutOfRange { node: NodeID, port_idx: OutPortIdx, num_out_ports: ChannelCount },
    /// The edge already exists in the graph.
    EdgeAlreadyExists,
    /// The input port is already connected.
    InputPortAlreadyConnected(NodeID, InPortIdx),
    /// This edge would have created a cycle in the graph.
    CycleDetected,
}

/// An error occurred while attempting to compile the audio graph
/// into a schedule.
#[derive(Clone, Copy, Debug, PartialEq, Eq, Structural)]
pub enum CompileGraphError {
    /// A cycle was detected in the graph.
    CycleDetected,
    /// The input data contained an edge referring to a non-existing node.
    NodeOnEdgeNotFound(Edge, NodeID),
    /// The input data contained multiple nodes with the same ID.
    NodeIDNotUnique(NodeID),
    /// The input data contained multiple edges with the same ID.
    EdgeIDNotUnique(EdgeID),
    /// The input port has more than one connection.
    ManyToOneError(NodeID, InPortIdx),
    /// The message channel is full.
    MessageChannelFull,
}

/// An error raised by a node when it is created or activated.
#[derive(Clone, Debug)]
pub enum NodeError {
    /// The channel configuration lies outside what the node supports.
    InvalidChannelConfig {
        channel_config: ChannelConfig,
        node_info: AudioNodeInfo,
        msg: Option<String>,
    },
    /// The node failed to produce its processor.
    ActivationFailed { node_id: Option<NodeID>, error: String },
}

/// An error raised while activating a context.
#[derive(Clone, Debug)]
pub enum ActivateCtxError {
    AlreadyActivated,
    NodeFailedToActived(NodeError),
}

} // verus!
