//! The graph store: nodes in generational slots, edges between their ports,
//! and the rules that keep the graph free of cycles and of many-to-one
//! connections.
use vstd::prelude::*;

use crate::error::{AddEdgeError, NodeError};
use crate::ids::{AudioNodeInfo, ChannelConfig, Edge, EdgeID, InPortIdx, NodeID, OutPortIdx};

verus! {

/// `b` can be reached from `a` by following at most `n` edges.
pub open spec fn reach_within(edges: Seq<Edge>, a: NodeID, b: NodeID, n: nat) -> bool
    decreases n,
{
    a == b || (n > 0 && exists|i: int|
        0 <= i < edges.len() && (#[trigger] edges[i]).src_node == a && reach_within(
            edges,
            edges[i].dst_node,
            b,
            (n - 1) as nat,
        ))
}

/// `b` can be reached from `a` by following edges (every node reaches itself).
pub open spec fn reachable(edges: Seq<Edge>, a: NodeID, b: NodeID) -> bool {
    exists|n: nat| reach_within(edges, a, b, n)
}

/// No edge closes a directed cycle.
pub open spec fn acyclic(edges: Seq<Edge>) -> bool {
    forall|i: int|
        0 <= i < edges.len() ==> !reachable(edges, (#[trigger] edges[i]).dst_node, edges[i].src_node)
}

/// The edge touches the node at either end.
pub open spec fn touches(e: Edge, id: NodeID) -> bool {
    e.src_node == id || e.dst_node == id
}

/// The generation given to the next node that takes a slot whose last
/// occupant had generation `g`.
pub open spec fn next_generation(g: u64) -> u64 {
    if g == u64::MAX {
        0
    } else {
        (g + 1) as u64
    }
}

/// `i` is the first empty slot, or the end when no slot is empty.
pub open spec fn is_first_free(slots: Seq<Option<NodeEntry>>, i: int) -> bool {
    &&& 0 <= i <= slots.len()
    &&& i < slots.len() ==> slots[i] is None
    &&& forall|k: int| 0 <= k < i ==> (#[trigger] slots[k]) is Some
}

/// The number of `true` entries.
pub open spec fn count_true(s: Seq<bool>) -> nat
    decreases s.len(),
{
    if s.len() == 0 {
        0
    } else {
        count_true(s.drop_last()) + if s.last() {
            1nat
        } else {
            0nat
        }
    }
}

pub(crate) proof fn lemma_count_true_le(s: Seq<bool>)
    ensures
        count_true(s) <= s.len(),
    decreases s.len(),
{
    if s.len() > 0 {
        lemma_count_true_le(s.drop_last());
    }
}

pub(crate) proof fn lemma_count_true_set(s: Seq<bool>, i: int)
    requires
        0 <= i < s.len(),
        !s[i],
    ensures
        count_true(s.update(i, true)) == count_true(s) + 1,
    decreases s.len(),
{
    if i == s.len() - 1 {
        assert(s.update(i, true).drop_last() =~= s.drop_last());
    } else {
        lemma_count_true_set(s.drop_last(), i);
        assert(s.update(i, true).drop_last() =~= s.drop_last().update(i, true));
    }
}

pub(crate) proof fn lemma_count_true_push(s: Seq<bool>, b: bool)
    ensures
        count_true(s.push(b)) == count_true(s) + if b {
            1nat
        } else {
            0nat
        },
{
    assert(s.push(b).drop_last() =~= s);
}

proof fn lemma_reach_mono(edges: Seq<Edge>, a: NodeID, b: NodeID, n: nat, m: nat)
    requires
        reach_within(edges, a, b, n),
        n <= m,
    ensures
        reach_within(edges, a, b, m),
    decreases n,
{
    if a != b {
        let i = choose|i: int|
            0 <= i < edges.len() && (#[trigger] edges[i]).src_node == a && reach_within(
                edges,
                edges[i].dst_node,
                b,
                (n - 1) as nat,
            );
        lemma_reach_mono(edges, edges[i].dst_node, b, (n - 1) as nat, (m - 1) as nat);
    }
}

pub(crate) proof fn lemma_reach_trans(edges: Seq<Edge>, a: NodeID, b: NodeID, c: NodeID, n: nat, m: nat)
    requires
        reach_within(edges, a, b, n),
        reach_within(edges, b, c, m),
    ensures
        reach_within(edges, a, c, n + m),
    decreases n,
{
    if a == b {
        lemma_reach_mono(edges, b, c, m, n + m);
    } else {
        let i = choose|i: int|
            0 <= i < edges.len() && (#[trigger] edges[i]).src_node == a && reach_within(
                edges,
                edges[i].dst_node,
                b,
                (n - 1) as nat,
            );
        lemma_reach_trans(edges, edges[i].dst_node, b, c, (n - 1) as nat, m);
        assert(reach_within(edges, edges[i].dst_node, c, ((n + m) - 1) as nat));
    }
}

/// One edge is a path of length one.
pub(crate) proof fn lemma_reach_edge(edges: Seq<Edge>, i: int)
    requires
        0 <= i < edges.len(),
    ensures
        reach_within(edges, edges[i].src_node, edges[i].dst_node, 1),
{
    assert(reach_within(edges, edges[i].dst_node, edges[i].dst_node, 0));
}

/// Paths over a subset of the edges are paths over the whole.
proof fn lemma_reach_subset(sub: Seq<Edge>, sup: Seq<Edge>, a: NodeID, b: NodeID, n: nat)
    requires
        forall|e: Edge| sub.contains(e) ==> sup.contains(e),
        reach_within(sub, a, b, n),
    ensures
        reach_within(sup, a, b, n),
    decreases n,
{
    if a != b {
        let i = choose|i: int|
            0 <= i < sub.len() && (#[trigger] sub[i]).src_node == a && reach_within(
                sub,
                sub[i].dst_node,
                b,
                (n - 1) as nat,
            );
        assert(sub.contains(sub[i]));
        let j = choose|j: int| 0 <= j < sup.len() && sup[j] == sub[i];
        lemma_reach_subset(sub, sup, sub[i].dst_node, b, (n - 1) as nat);
        assert(sup[j].src_node == a);
    }
}

proof fn lemma_acyclic_subset(sub: Seq<Edge>, sup: Seq<Edge>)
    requires
        forall|e: Edge| sub.contains(e) ==> sup.contains(e),
        acyclic(sup),
    ensures
        acyclic(sub),
{
    assert forall|i: int| 0 <= i < sub.len() implies !reachable(
        sub,
        (#[trigger] sub[i]).dst_node,
        sub[i].src_node,
    ) by {
        assert(sub.contains(sub[i]));
        let j = choose|j: int| 0 <= j < sup.len() && sup[j] == sub[i];
        if reachable(sub, sub[i].dst_node, sub[i].src_node) {
            let n = choose|n: nat| reach_within(sub, sub[i].dst_node, sub[i].src_node, n);
            lemma_reach_subset(sub, sup, sub[i].dst_node, sub[i].src_node, n);
            assert(!reachable(sup, sup[j].dst_node, sup[j].src_node));
        }
    }
}

/// A path over the edges plus `e` either avoids `e`, or runs to `e`'s source
/// and on from `e`'s destination without it.
proof fn lemma_reach_push(edges: Seq<Edge>, e: Edge, a: NodeID, b: NodeID, n: nat)
    requires
        reach_within(edges.push(e), a, b, n),
    ensures
        reachable(edges, a, b) || (reachable(edges, a, e.src_node) && reachable(
            edges,
            e.dst_node,
            b,
        )),
    decreases n,
{
    let all = edges.push(e);
    if a == b {
        assert(reach_within(edges, a, b, 0));
    } else {
        let i = choose|i: int|
            0 <= i < all.len() && (#[trigger] all[i]).src_node == a && reach_within(
                all,
                all[i].dst_node,
                b,
                (n - 1) as nat,
            );
        let mid = all[i].dst_node;
        lemma_reach_push(edges, e, mid, b, (n - 1) as nat);
        if i < edges.len() {
            lemma_reach_edge(edges, i);
            if reachable(edges, mid, b) {
                let k = choose|k: nat| reach_within(edges, mid, b, k);
                lemma_reach_trans(edges, a, mid, b, 1, k);
            } else {
                let k = choose|k: nat| reach_within(edges, mid, e.src_node, k);
                lemma_reach_trans(edges, a, mid, e.src_node, 1, k);
            }
        } else {
            assert(all[i] == e);
            assert(reach_within(edges, a, e.src_node, 0));
            if !reachable(edges, mid, b) {
                assert(reachable(edges, e.dst_node, b));
            }
        }
    }
}

/// Adding an edge whose destination does not reach its source keeps the
/// edges free of cycles.
proof fn lemma_acyclic_push(edges: Seq<Edge>, e: Edge)
    requires
        acyclic(edges),
        !reachable(edges, e.dst_node, e.src_node),
    ensures
        acyclic(edges.push(e)),
{
    let all = edges.push(e);
    assert forall|i: int| 0 <= i < all.len() implies !reachable(
        all,
        (#[trigger] all[i]).dst_node,
        all[i].src_node,
    ) by {
        let x = all[i];
        if reachable(all, x.dst_node, x.src_node) {
            let n = choose|n: nat| reach_within(all, x.dst_node, x.src_node, n);
            lemma_reach_push(edges, e, x.dst_node, x.src_node, n);
            if i < edges.len() {
                assert(edges[i] == x);
                if !reachable(edges, x.dst_node, x.src_node) {
                    // e.dst ->* x.src -> x.dst ->* e.src
                    let p = choose|p: nat| reach_within(edges, e.dst_node, x.src_node, p);
                    let q = choose|q: nat| reach_within(edges, x.dst_node, e.src_node, q);
                    lemma_reach_edge(edges, i);
                    lemma_reach_trans(edges, e.dst_node, x.src_node, x.dst_node, p, 1);
                    lemma_reach_trans(edges, e.dst_node, x.dst_node, e.src_node, p + 1, q);
                }
            } else {
                assert(x == e);
            }
        }
    }
}

/// A node held by the graph, with the port counts it was created with.
#[derive(Clone, Copy, Debug, PartialEq, Eq, Structural)]
pub struct NodeEntry {
    pub id: NodeID,
    pub info: AudioNodeInfo,
    pub config: ChannelConfig,
}

/// The mathematical state of an [`AudioGraph`].
pub struct GraphModel {
    /// The node in each dense slot, if any.
    pub slots: Seq<Option<NodeEntry>>,
    /// The generation of the latest node of each slot.
    pub generations: Seq<u64>,
    /// The edges, in the order they were added.
    pub edges: Seq<Edge>,
    /// The identifier that the next edge receives.
    pub next_edge_id: u64,
}

impl GraphModel {
    pub open spec fn has_node(self, id: NodeID) -> bool {
        0 <= id.idx < self.slots.len() && self.slots[id.idx as int] is Some
            && self.slots[id.idx as int]->Some_0.id == id
    }

    pub open spec fn node(self, id: NodeID) -> NodeEntry {
        self.slots[id.idx as int]->Some_0
    }

    pub open spec fn num_inputs(self, id: NodeID) -> u32 {
        self.node(id).config.num_inputs
    }

    pub open spec fn num_outputs(self, id: NodeID) -> u32 {
        self.node(id).config.num_outputs
    }

    pub open spec fn has_edge(self, id: EdgeID) -> bool {
        exists|i: int| 0 <= i < self.edges.len() && (#[trigger] self.edges[i]).id == id
    }

    /// An edge joins exactly these two ports.
    pub open spec fn edge_exists(
        self,
        src: NodeID,
        src_port: OutPortIdx,
        dst: NodeID,
        dst_port: InPortIdx,
    ) -> bool {
        exists|i: int|
            0 <= i < self.edges.len() && (#[trigger] self.edges[i]).src_node == src
                && self.edges[i].src_port == src_port && self.edges[i].dst_node == dst
                && self.edges[i].dst_port == dst_port
    }

    /// Some edge ends at this input port.
    pub open spec fn input_connected(self, dst: NodeID, dst_port: InPortIdx) -> bool {
        exists|i: int|
            0 <= i < self.edges.len() && (#[trigger] self.edges[i]).dst_node == dst
                && self.edges[i].dst_port == dst_port
    }

    /// Every edge joins ports that exist on nodes that exist.
    pub open spec fn edges_in_range(self) -> bool {
        forall|i: int|
            0 <= i < self.edges.len() ==> {
                let e = #[trigger] self.edges[i];
                self.has_node(e.src_node) && self.has_node(e.dst_node) && e.src_port
                    < self.num_outputs(e.src_node) && e.dst_port < self.num_inputs(e.dst_node)
                    && e.id.0 < self.next_edge_id
            }
    }

    /// The invariants of the graph.
    pub open spec fn wf(self) -> bool {
        &&& self.slots.len() == self.generations.len()
        &&& forall|i: int|
            0 <= i < self.slots.len() && (#[trigger] self.slots[i]) is Some ==> self.slots[i]->Some_0.id
                == (NodeID { idx: i as usize, generation: self.generations[i] })
        &&& self.edges_in_range()
        &&& forall|i: int, j: int|
            0 <= i < j < self.edges.len() ==> (#[trigger] self.edges[i]).id != (
            #[trigger] self.edges[j]).id
        &&& forall|i: int, j: int|
            0 <= i < j < self.edges.len() ==> !((#[trigger] self.edges[i]).dst_node == (
            #[trigger] self.edges[j]).dst_node && self.edges[i].dst_port == self.edges[j].dst_port)
        &&& forall|i: int, j: int|
            0 <= i < j < self.edges.len() ==> !((#[trigger] self.edges[i]).src_node == (
            #[trigger] self.edges[j]).src_node && self.edges[i].src_port == self.edges[j].src_port
                && self.edges[i].dst_node == self.edges[j].dst_node && self.edges[i].dst_port
                == self.edges[j].dst_port)
        &&& acyclic(self.edges)
    }

    /// The error that adding this edge meets, checked in this order:
    /// existence, port range, duplicate, occupied input, cycle.
    pub open spec fn add_edge_error(
        self,
        src: NodeID,
        src_port: OutPortIdx,
        dst: NodeID,
        dst_port: InPortIdx,
    ) -> Option<AddEdgeError> {
        if !self.has_node(src) {
            Some(AddEdgeError::SrcNodeNotFound(src))
        } else if !self.has_node(dst) {
            Some(AddEdgeError::DstNodeNotFound(dst))
        } else if dst_port >= self.num_inputs(dst) {
            Some(
                AddEdgeError::InPortOutOfRange {
                    node: dst,
                    port_idx: dst_port,
                    num_in_ports: self.num_inputs(dst),
                },
            )
        } else if src_port >= self.num_outputs(src) {
            Some(
                AddEdgeError::OutPortOutOfRange {
                    node: src,
                    port_idx: src_port,
                    num_out_ports: self.num_outputs(src),
                },
            )
        } else if self.edge_exists(src, src_port, dst, dst_port) {
            Some(AddEdgeError::EdgeAlreadyExists)
        } else if self.input_connected(dst, dst_port) {
            Some(AddEdgeError::InputPortAlreadyConnected(dst, dst_port))
        } else if reachable(self.edges, dst, src) {
            Some(AddEdgeError::CycleDetected)
        } else {
            None
        }
    }
}

/// Visited marks closed under the edges hold every node reached from a
/// marked node.
proof fn lemma_closed_reach(m: GraphModel, visited: Seq<bool>, a: NodeID, b: NodeID, n: nat)
    requires
        m.wf(),
        visited.len() == m.slots.len(),
        forall|k: int|
            0 <= k < m.edges.len() && visited[(#[trigger] m.edges[k]).src_node.idx as int]
                ==> visited[m.edges[k].dst_node.idx as int],
        a.idx < visited.len(),
        visited[a.idx as int],
        reach_within(m.edges, a, b, n),
    ensures
        b.idx < visited.len(),
        visited[b.idx as int],
    decreases n,
{
    if a != b {
        let i = choose|i: int|
            0 <= i < m.edges.len() && (#[trigger] m.edges[i]).src_node == a && reach_within(
                m.edges,
                m.edges[i].dst_node,
                b,
                (n - 1) as nat,
            );
        lemma_closed_reach(m, visited, m.edges[i].dst_node, b, (n - 1) as nat);
    }
}

/// Removing one edge keeps the invariants.
proof fn lemma_wf_remove(m: GraphModel, k: int)
    requires
        m.wf(),
        0 <= k < m.edges.len(),
    ensures
        (GraphModel { edges: m.edges.remove(k), ..m }).wf(),
{
    let r = m.edges.remove(k);
    let m2 = GraphModel { edges: r, ..m };
    assert forall|i: int| 0 <= i < r.len() implies r[i] == if i < k {
        m.edges[i]
    } else {
        m.edges[i + 1]
    } by {}
    assert forall|e: Edge| r.contains(e) implies m.edges.contains(e) by {
        let i = choose|i: int| 0 <= i < r.len() && r[i] == e;
        if i < k {
            assert(m.edges[i] == e);
        } else {
            assert(m.edges[i + 1] == e);
        }
    }
    lemma_acyclic_subset(r, m.edges);
    assert forall|i: int| 0 <= i < r.len() implies {
        let e = #[trigger] r[i];
        m2.has_node(e.src_node) && m2.has_node(e.dst_node) && e.src_port < m2.num_outputs(
            e.src_node,
        ) && e.dst_port < m2.num_inputs(e.dst_node) && e.id.0 < m2.next_edge_id
    } by {
        if i < k {
            assert(m.edges[i] == r[i]);
        } else {
            assert(m.edges[i + 1] == r[i]);
        }
    }
    assert forall|i: int, j: int| 0 <= i < j < r.len() implies (#[trigger] r[i]).id != (
    #[trigger] r[j]).id && !(r[i].dst_node == r[j].dst_node && r[i].dst_port == r[j].dst_port)
        && !(r[i].src_node == r[j].src_node && r[i].src_port == r[j].src_port && r[i].dst_node
        == r[j].dst_node && r[i].dst_port == r[j].dst_port) by {
        let ii = if i < k {
            i
        } else {
            i + 1
        };
        let jj = if j < k {
            j
        } else {
            j + 1
        };
        assert(r[i] == m.edges[ii]);
        assert(r[j] == m.edges[jj]);
    }
}

/// A directed acyclic graph of audio nodes joined port to port.
pub struct AudioGraph {
    slots: Vec<Option<NodeEntry>>,
    generations: Vec<u64>,
    edges: Vec<Edge>,
    next_edge_id: u64,
}

impl View for AudioGraph {
    type V = GraphModel;

    closed spec fn view(&self) -> GraphModel {
        GraphModel {
            slots: self.slots@,
            generations: self.generations@,
            edges: self.edges@,
            next_edge_id: self.next_edge_id,
        }
    }
}

impl AudioGraph {
    pub open spec fn wf(&self) -> bool {
        self@.wf()
    }

    /// An empty graph.
    pub fn new() -> (r: AudioGraph)
        ensures
            r.wf(),
            r@.slots.len() == 0,
            r@.edges.len() == 0,
            r@.next_edge_id == 0,
    {
        let r = AudioGraph {
            slots: Vec::new(),
            generations: Vec::new(),
            edges: Vec::new(),
            next_edge_id: 0,
        };
        assert(r@.slots.len() == 0);
        r
    }

    /// The number of node slots, occupied or not.
    pub fn num_slots(&self) -> (r: usize)
        ensures
            r == self@.slots.len(),
    {
        self.slots.len()
    }

    /// The node in slot `i`, if any.
    pub fn slot(&self, i: usize) -> (r: Option<NodeEntry>)
        requires
            i < self@.slots.len(),
        ensures
            r == self@.slots[i as int],
    {
        self.slots[i]
    }

    /// The edges, in the order they were added.
    pub fn edges(&self) -> (r: &Vec<Edge>)
        ensures
            r@ == self@.edges,
    {
        &self.edges
    }

    /// The node with this handle, if it is in the graph.
    pub fn node(&self, id: NodeID) -> (r: Option<NodeEntry>)
        requires
            self.wf(),
        ensures
            r is Some <==> self@.has_node(id),
            r is Some ==> r->Some_0 == self@.node(id),
    {
        if id.idx < self.slots.len() {
            match self.slots[id.idx] {
                Some(e) => {
                    if e.id == id {
                        Some(e)
                    } else {
                        None
                    }
                },
                None => None,
            }
        } else {
            None
        }
    }

    /// Whether `to` can be reached from `from` along the edges.
    fn reaches(&self, from: NodeID, to: NodeID) -> (r: bool)
        requires
            self.wf(),
            self@.has_node(from),
            self@.has_node(to),
        ensures
            r == reachable(self@.edges, from, to),
    {
        let n = self.slots.len();
        let mut visited: Vec<bool> = Vec::new();
        let mut i: usize = 0;
        while i < n
            invariant
                i <= n,
                n == self.slots.len(),
                visited@.len() == i,
                from.idx < n,
                forall|k: int| 0 <= k < i ==> visited@[k] == (k == from.idx),
                count_true(visited@) == if from.idx < i {
                    1nat
                } else {
                    0nat
                },
            decreases n - i,
        {
            proof {
                lemma_count_true_push(visited@, i == from.idx);
            }
            visited.push(i == from.idx);
            i = i + 1;
        }
        assert(reach_within(self@.edges, from, from, 0));
        let mut marked: usize = 1;
        loop
            invariant
                self.wf(),
                n == self.slots.len(),
                visited@.len() == n,
                count_true(visited@) == marked,
                marked <= n,
                from.idx < n,
                visited@[from.idx as int],
                forall|k: int|
                    0 <= k < n && #[trigger] visited@[k] ==> self@.slots[k] is Some && reachable(
                        self@.edges,
                        from,
                        self@.slots[k]->Some_0.id,
                    ),
            ensures
                visited@.len() == n,
                forall|k: int|
                    0 <= k < n && #[trigger] visited@[k] ==> self@.slots[k] is Some && reachable(
                        self@.edges,
                        from,
                        self@.slots[k]->Some_0.id,
                    ),
                forall|k: int|
                    0 <= k < self@.edges.len() && visited@[(#[trigger] self@.edges[k]).src_node.idx as int]
                        ==> visited@[self@.edges[k].dst_node.idx as int],
            decreases n - marked,
        {
            let ghost start = visited@;
            let ghost start_marked = marked;
            let mut changed = false;
            let mut j: usize = 0;
            while j < self.edges.len()
                invariant
                    self.wf(),
                    n == self.slots.len(),
                    visited@.len() == n,
                    count_true(visited@) == marked,
                    marked <= n,
                    from.idx < n,
                    visited@[from.idx as int],
                    j <= self.edges.len(),
                    forall|k: int|
                        0 <= k < n && #[trigger] visited@[k] ==> self@.slots[k] is Some
                            && reachable(self@.edges, from, self@.slots[k]->Some_0.id),
                    changed ==> marked > start_marked,
                    !changed ==> visited@ == start && marked == start_marked,
                    !changed ==> forall|k: int|
                        0 <= k < j && visited@[(#[trigger] self@.edges[k]).src_node.idx as int]
                            ==> visited@[self@.edges[k].dst_node.idx as int],
                decreases self.edges.len() - j,
            {
                let e = self.edges[j];
                proof {
                    assert(self@.edges[j as int] == e);
                }
                if visited[e.src_node.idx] && !visited[e.dst_node.idx] {
                    proof {
                        lemma_count_true_set(visited@, e.dst_node.idx as int);
                        lemma_count_true_le(visited@.update(e.dst_node.idx as int, true));
                        let p = choose|p: nat| reach_within(self@.edges, from, e.src_node, p);
                        lemma_reach_edge(self@.edges, j as int);
                        lemma_reach_trans(self@.edges, from, e.src_node, e.dst_node, p, 1);
                    }
                    visited.set(e.dst_node.idx, true);
                    marked = marked + 1;
                    changed = true;
                }
                j = j + 1;
            }
            if !changed {
                break;
            }
        }
        proof {
            if reachable(self@.edges, from, to) {
                let p = choose|p: nat| reach_within(self@.edges, from, to, p);
                lemma_closed_reach(self@, visited@, from, to, p);
            }
        }
        visited[to.idx]
    }

    /// Whether an edge joins exactly these ports, and whether any edge ends at
    /// the input port.
    fn find_connections(&self, src: NodeID, src_port: OutPortIdx, dst: NodeID, dst_port: InPortIdx) -> (r: (bool, bool))
        ensures
            r.0 == self@.edge_exists(src, src_port, dst, dst_port),
            r.1 == self@.input_connected(dst, dst_port),
    {
        let mut dup = false;
        let mut connected = false;
        let mut i: usize = 0;
        while i < self.edges.len()
            invariant
                i <= self.edges.len(),
                dup == exists|k: int|
                    0 <= k < i && (#[trigger] self@.edges[k]).src_node == src
                        && self@.edges[k].src_port == src_port && self@.edges[k].dst_node == dst
                        && self@.edges[k].dst_port == dst_port,
                connected == exists|k: int|
                    0 <= k < i && (#[trigger] self@.edges[k]).dst_node == dst
                        && self@.edges[k].dst_port == dst_port,
            decreases self.edges.len() - i,
        {
            let e = self.edges[i];
            proof {
                assert(self@.edges[i as int] == e);
            }
            if e.dst_node == dst && e.dst_port == dst_port {
                connected = true;
                if e.src_node == src && e.src_port == src_port {
                    dup = true;
                }
            }
            i = i + 1;
        }
        (dup, connected)
    }

    /// Connects output port `src_port` of `src` to input port `dst_port` of
    /// `dst`, or reports why the edge cannot be added and leaves the graph
    /// as it was.
    pub fn add_edge(
        &mut self,
        src: NodeID,
        src_port: OutPortIdx,
        dst: NodeID,
        dst_port: InPortIdx,
    ) -> (r: Result<EdgeID, AddEdgeError>)
        requires
            old(self).wf(),
            old(self)@.next_edge_id < u64::MAX,
        ensures
            final(self).wf(),
            match old(self)@.add_edge_error(src, src_port, dst, dst_port) {
                Some(err) => r == Err::<EdgeID, AddEdgeError>(err) && final(self)@ == old(self)@,
                None => r == Ok::<EdgeID, AddEdgeError>(EdgeID(old(self)@.next_edge_id))
                    && final(self)@ == (GraphModel {
                    edges: old(self)@.edges.push(
                        Edge { id: EdgeID(old(self)@.next_edge_id), src_node: src, src_port, dst_node: dst, dst_port },
                    ),
                    next_edge_id: (old(self)@.next_edge_id + 1) as u64,
                    ..old(self)@
                }),
            },
    {
        let src_entry = match self.node(src) {
            Some(e) => e,
            None => {
                return Err(AddEdgeError::SrcNodeNotFound(src));
            },
        };
        let dst_entry = match self.node(dst) {
            Some(e) => e,
            None => {
                return Err(AddEdgeError::DstNodeNotFound(dst));
            },
        };
        if dst_port >= dst_entry.config.num_inputs {
            return Err(
                AddEdgeError::InPortOutOfRange {
                    node: dst,
                    port_idx: dst_port,
                    num_in_ports: dst_entry.config.num_inputs,
                },
            );
        }
        if src_port >= src_entry.config.num_outputs {
            return Err(
                AddEdgeError::OutPortOutOfRange {
                    node: src,
                    port_idx: src_port,
                    num_out_ports: src_entry.config.num_outputs,
                },
            );
        }
        let (exists, connected) = self.find_connections(src, src_port, dst, dst_port);
        if exists {
            return Err(AddEdgeError::EdgeAlreadyExists);
        }
        if connected {
            return Err(AddEdgeError::InputPortAlreadyConnected(dst, dst_port));
        }
        if self.reaches(dst, src) {
            return Err(AddEdgeError::CycleDetected);
        }
        let id = EdgeID(self.next_edge_id);
        let e = Edge { id, src_node: src, src_port, dst_node: dst, dst_port };
        proof {
            lemma_acyclic_push(self@.edges, e);
        }
        self.edges.push(e);
        self.next_edge_id = self.next_edge_id + 1;
        Ok(id)
    }

    /// Adds a node with the given port counts in the first free slot, or
    /// rejects a configuration outside what `info` supports.
    pub fn add_node(&mut self, info: AudioNodeInfo, config: ChannelConfig) -> (r: Result<
        NodeID,
        NodeError,
    >)
        requires
            old(self).wf(),
        ensures
            final(self).wf(),
            !info.supports(config) ==> final(self)@ == old(self)@ && r is Err && match r->Err_0 {
                NodeError::InvalidChannelConfig { channel_config, node_info, msg } => channel_config
                    == config && node_info == info && msg is None,
                _ => false,
            },
            info.supports(config) ==> r is Ok && {
                let id = r->Ok_0;
                let old_m = old(self)@;
                let entry = NodeEntry { id, info, config };
                &&& is_first_free(old_m.slots, id.idx as int)
                &&& !old_m.has_node(id)
                &&& if id.idx < old_m.slots.len() {
                    &&& id.generation == next_generation(old_m.generations[id.idx as int])
                    &&& final(self)@ == (GraphModel {
                        slots: old_m.slots.update(id.idx as int, Some(entry)),
                        generations: old_m.generations.update(id.idx as int, id.generation),
                        ..old_m
                    })
                } else {
                    &&& id.generation == 0
                    &&& final(self)@ == (GraphModel {
                        slots: old_m.slots.push(Some(entry)),
                        generations: old_m.generations.push(0),
                        ..old_m
                    })
                }
            },
    {
        if !info.is_supported(&config) {
            return Err(
                NodeError::InvalidChannelConfig { channel_config: config, node_info: info, msg: None },
            );
        }
        let mut i: usize = 0;
        while i < self.slots.len() && self.slots[i].is_some()
            invariant
                self.wf(),
                i <= self.slots.len(),
                forall|k: int| 0 <= k < i ==> (#[trigger] self@.slots[k]) is Some,
            decreases self.slots.len() - i,
        {
            i = i + 1;
        }
        let ghost old_m = self@;
        if i < self.slots.len() {
            let generation = if self.generations[i] == u64::MAX {
                0
            } else {
                self.generations[i] + 1
            };
            let id = NodeID { idx: i, generation };
            self.slots.set(i, Some(NodeEntry { id, info, config }));
            self.generations.set(i, generation);
            proof {
                assert(self@.edges_in_range()) by {
                    assert forall|k: int| 0 <= k < self@.edges.len() implies {
                        let e = #[trigger] self@.edges[k];
                        self@.has_node(e.src_node) && self@.has_node(e.dst_node)
                    } by {
                        assert(old_m.edges[k] == self@.edges[k]);
                        assert(old_m.has_node(old_m.edges[k].src_node));
                        assert(old_m.has_node(old_m.edges[k].dst_node));
                    }
                }
            }
            Ok(id)
        } else {
            let id = NodeID { idx: i, generation: 0 };
            self.slots.push(Some(NodeEntry { id, info, config }));
            self.generations.push(0);
            proof {
                assert(self@.edges_in_range()) by {
                    assert forall|k: int| 0 <= k < self@.edges.len() implies {
                        let e = #[trigger] self@.edges[k];
                        self@.has_node(e.src_node) && self@.has_node(e.dst_node)
                    } by {
                        assert(old_m.edges[k] == self@.edges[k]);
                        assert(old_m.has_node(old_m.edges[k].src_node));
                        assert(old_m.has_node(old_m.edges[k].dst_node));
                    }
                }
            }
            Ok(id)
        }
    }

    /// Removes the edge with this identifier, if there is one.
    pub fn remove_edge(&mut self, id: EdgeID)
        requires
            old(self).wf(),
        ensures
            final(self).wf(),
            !old(self)@.has_edge(id) ==> final(self)@ == old(self)@,
            old(self)@.has_edge(id) ==> exists|k: int|
                0 <= k < old(self)@.edges.len() && (#[trigger] old(self)@.edges[k]).id == id
                    && final(self)@ == (GraphModel { edges: old(self)@.edges.remove(k), ..old(self)@ }),
    {
        let mut i: usize = 0;
        while i < self.edges.len()
            invariant
                self.wf(),
                self@ == old(self)@,
                i <= self.edges.len(),
                forall|k: int| 0 <= k < i ==> (#[trigger] self@.edges[k]).id != id,
            decreases self.edges.len() - i,
        {
            if self.edges[i].id == id {
                proof {
                    lemma_wf_remove(self@, i as int);
                }
                let ghost k = i as int;
                let ghost old_m = self@;
                self.edges.remove(i);
                assert(old_m.edges[k].id == id);
                assert(self@ == (GraphModel { edges: old_m.edges.remove(k), ..old_m }));
                return;
            }
            i = i + 1;
        }
    }

    /// Removes the node and every edge that touches it; a handle that is not
    /// in the graph changes nothing.
    pub fn remove_node(&mut self, id: NodeID)
        requires
            old(self).wf(),
        ensures
            final(self).wf(),
            !old(self)@.has_node(id) ==> final(self)@ == old(self)@,
            old(self)@.has_node(id) ==> {
                &&& final(self)@.slots == old(self)@.slots.update(id.idx as int, None)
                &&& final(self)@.generations == old(self)@.generations
                &&& final(self)@.next_edge_id == old(self)@.next_edge_id
                &&& forall|e: Edge|
                    #[trigger] final(self)@.edges.contains(e) <==> old(self)@.edges.contains(e)
                        && !touches(e, id)
            },
    {
        if self.node(id).is_none() {
            return;
        }
        let ghost old_m = self@;
        let mut i: usize = 0;
        while i < self.edges.len()
            invariant
                self.wf(),
                old_m.has_node(id),
                self@.slots == old_m.slots,
                self@.generations == old_m.generations,
                self@.next_edge_id == old_m.next_edge_id,
                i <= self.edges.len(),
                forall|k: int| 0 <= k < i ==> !touches(#[trigger] self@.edges[k], id),
                forall|e: Edge| #[trigger] self@.edges.contains(e) ==> old_m.edges.contains(e),
                forall|e: Edge|
                    old_m.edges.contains(e) && !touches(e, id) ==> #[trigger] self@.edges.contains(e),
            decreases self.edges.len() - i,
        {
            let e = self.edges[i];
            if e.src_node == id || e.dst_node == id {
                let ghost before = self@.edges;
                proof {
                    lemma_wf_remove(self@, i as int);
                }
                self.edges.remove(i);
                proof {
                    let r = self@.edges;
                    assert forall|k: int| 0 <= k < r.len() implies r[k] == if k < i {
                        before[k]
                    } else {
                        before[k + 1]
                    } by {}
                    assert forall|x: Edge| #[trigger] r.contains(x) implies before.contains(x) by {
                        let k = choose|k: int| 0 <= k < r.len() && r[k] == x;
                        if k < i {
                            assert(before[k] == x);
                        } else {
                            assert(before[k + 1] == x);
                        }
                    }
                    assert forall|x: Edge| old_m.edges.contains(x) && !touches(x, id) implies #[trigger] r.contains(x) by {
                        assert(before.contains(x));
                        let k = choose|k: int| 0 <= k < before.len() && before[k] == x;
                        if k < i {
                            assert(r[k] == x);
                        } else {
                            assert(k != i);
                            assert(r[k - 1] == x);
                        }
                    }
                }
            } else {
                i = i + 1;
            }
        }
        let ghost mid = self@;
        self.slots.set(id.idx, None);
        proof {
            assert forall|k: int| 0 <= k < self@.edges.len() implies {
                let e = #[trigger] self@.edges[k];
                self@.has_node(e.src_node) && self@.has_node(e.dst_node) && e.src_port
                    < self@.num_outputs(e.src_node) && e.dst_port < self@.num_inputs(e.dst_node)
                    && e.id.0 < self@.next_edge_id
            } by {
                assert(mid.edges[k] == self@.edges[k]);
                assert(!touches(self@.edges[k], id));
            }
            assert forall|e: Edge| old_m.edges.contains(e) && !touches(e, id) implies #[trigger] self@.edges.contains(e) by {
                assert(mid.edges.contains(e));
            }
        }
    }
}

} // verus!
