//! Identifiers of nodes, edges and ports, and channel configurations.
use vstd::prelude::*;

verus! {

/// The number of channels (ports) on one side of a node.
pub type ChannelCount = u32;

/// The index of an input port on a node.
pub type InPortIdx = u32;

/// The index of an output port on a node.
pub type OutPortIdx = u32;

/// A generational handle to a node: a dense slot index and the generation
/// of the node that occupies that slot.
#[derive(Clone, Copy, Debug, PartialEq, Eq, Structural, Hash)]
pub struct NodeID {
    pub idx: usize,
    pub generation: u64,
}

/// The identifier of an edge; never reused within one graph.
#[derive(Clone, Copy, Debug, PartialEq, Eq, Structural, Hash)]
pub struct EdgeID(pub u64);

/// A connection from an output port of one node to an input port of another.
#[derive(Clone, Copy, Debug, PartialEq, Eq, Structural, Hash)]
pub struct Edge {
    pub id: EdgeID,
    pub src_node: NodeID,
    pub src_port: OutPortIdx,
    pub dst_node: NodeID,
    pub dst_port: InPortIdx,
}

/// The number of input and output ports that a node is created with.
#[derive(Clone, Copy, Debug, PartialEq, Eq, Structural, Hash)]
pub struct ChannelConfig {
    pub num_inputs: ChannelCount,
    pub num_outputs: ChannelCount,
}

/// The range of port counts that a kind of node supports.
#[derive(Clone, Copy, Debug, PartialEq, Eq, Structural, Hash)]
pub struct AudioNodeInfo {
    pub num_min_supported_inputs: u32,
    pub num_max_supported_inputs: u32,
    pub num_min_supported_outputs: u32,
    pub num_max_supported_outputs: u32,
}

impl AudioNodeInfo {
    /// Whether `config` lies within the supported ranges.
    pub open spec fn supports(self, config: ChannelConfig) -> bool {
        self.num_min_supported_inputs <= config.num_inputs <= self.num_max_supported_inputs
            && self.num_min_supported_outputs <= config.num_outputs
            <= self.num_max_supported_outputs
    }

    /// Checks `config` against the supported ranges.
    pub fn is_supported(&self, config: &ChannelConfig) -> (r: bool)
        ensures
            r == self.supports(*config),
    {
        self.num_min_supported_inputs <= config.num_inputs
            && config.num_inputs <= self.num_max_supported_inputs
            && self.num_min_supported_outputs <= config.num_outputs
            && config.num_outputs <= self.num_max_supported_outputs
    }
}

} // verus!
