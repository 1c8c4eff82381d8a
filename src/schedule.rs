//! Compilation of a graph into a schedule: an order of node calls in which
//! every producer runs before its consumers, with a buffer bound to every
//! port.
use vstd::prelude::*;

use crate::error::CompileGraphError;
use crate::graph::{
    count_true, lemma_count_true_le, lemma_count_true_push, lemma_count_true_set, lemma_reach_edge,
    lemma_reach_trans, reach_within, AudioGraph, GraphModel,
};
use crate::ids::{Edge, InPortIdx, NodeID};

verus! {

/// The buffer that every unconnected input port reads: always silent.
pub const SILENT_BUFFER: usize = 0;

/// `order` holds every node of the graph once and nothing else.
pub open spec fn covers_nodes(m: GraphModel, order: Seq<NodeID>) -> bool {
    &&& forall|p: int, q: int| 0 <= p < q < order.len() ==> order[p] != order[q]
    &&& forall|p: int| 0 <= p < order.len() ==> m.has_node(#[trigger] order[p])
    &&& forall|id: NodeID| m.has_node(id) ==> #[trigger] order.contains(id)
}

/// Every edge's source comes before its destination in `order`.
pub open spec fn respects_edges(m: GraphModel, order: Seq<NodeID>) -> bool {
    forall|i: int, p: int, q: int|
        #![trigger m.edges[i], order[p], order[q]]
        0 <= i < m.edges.len() && 0 <= p < order.len() && 0 <= q < order.len() && order[p]
            == m.edges[i].src_node && order[q] == m.edges[i].dst_node ==> p < q
}

/// `order` is a topological sort of the graph's nodes.
pub open spec fn is_topological_order(m: GraphModel, order: Seq<NodeID>) -> bool {
    covers_nodes(m, order) && respects_edges(m, order)
}

/// Among `n + 1` values below `n`, two are equal.
proof fn lemma_pigeonhole(f: spec_fn(int) -> int, n: nat)
    requires
        forall|i: int| 0 <= i <= n ==> 0 <= #[trigger] f(i) < n,
    ensures
        exists|s: int, t: int| #![trigger f(s), f(t)] 0 <= s < t <= n && f(s) == f(t),
    decreases n,
{
    if n == 0 {
        assert(0 <= f(0) < n);
    } else {
        let v = f(n as int);
        if exists|i: int| 0 <= i < n && #[trigger] f(i) == v {
            let i = choose|i: int| 0 <= i < n && #[trigger] f(i) == v;
            assert(f(i) == f(n as int));
        } else {
            let g = |i: int|
                if f(i) == n - 1 {
                    v
                } else {
                    f(i)
                };
            assert forall|i: int| 0 <= i <= n - 1 implies 0 <= #[trigger] g(i) < n - 1 by {
                assert(0 <= f(i) < n);
            }
            lemma_pigeonhole(g, (n - 1) as nat);
            let (s, t) = choose|s: int, t: int| #![trigger g(s), g(t)] 0 <= s < t <= n - 1 && g(s) == g(t);
            if f(s) == n - 1 && f(t) != n - 1 {
                assert(f(t) == f(n as int));
            } else if f(s) != n - 1 && f(t) == n - 1 {
                assert(f(s) == f(n as int));
            } else {
                assert(f(s) == f(t));
            }
        }
    }
}

/// Every unplaced node has a producer that is unplaced too.
pub open spec fn stuck(m: GraphModel, placed: Seq<bool>) -> bool {
    forall|k: int|
        0 <= k < m.slots.len() && (#[trigger] m.slots[k]) is Some && !placed[k] ==> exists|e: int|
            0 <= e < m.edges.len() && (#[trigger] m.edges[e]).dst_node == m.slots[k]->Some_0.id
                && !placed[m.edges[e].src_node.idx as int]
}

spec fn unplaced_producer_edge(m: GraphModel, placed: Seq<bool>, k: int) -> int {
    choose|e: int|
        0 <= e < m.edges.len() && (#[trigger] m.edges[e]).dst_node == m.slots[k]->Some_0.id
            && !placed[m.edges[e].src_node.idx as int]
}

/// The slot reached from slot `k0` by stepping `steps` times to an
/// unplaced producer.
spec fn walk_back(m: GraphModel, placed: Seq<bool>, k0: int, steps: nat) -> int
    decreases steps,
{
    if steps == 0 {
        k0
    } else {
        m.edges[unplaced_producer_edge(
            m,
            placed,
            walk_back(m, placed, k0, (steps - 1) as nat),
        )].src_node.idx as int
    }
}

proof fn lemma_walk_back(m: GraphModel, placed: Seq<bool>, k0: int, steps: nat)
    requires
        m.wf(),
        placed.len() == m.slots.len(),
        stuck(m, placed),
        0 <= k0 < m.slots.len(),
        m.slots[k0] is Some,
        !placed[k0],
    ensures
        ({
            let k = walk_back(m, placed, k0, steps);
            let e = unplaced_producer_edge(m, placed, k);
            &&& 0 <= k < m.slots.len()
            &&& m.slots[k] is Some
            &&& !placed[k]
            &&& 0 <= e < m.edges.len()
            &&& m.edges[e].dst_node == m.slots[k]->Some_0.id
            &&& m.edges[e].src_node == m.slots[walk_back(m, placed, k0, steps + 1)]->Some_0.id
        }),
    decreases steps,
{
    if steps > 0 {
        lemma_walk_back(m, placed, k0, (steps - 1) as nat);
    }
    let k = walk_back(m, placed, k0, steps);
    assert(m.slots[k] is Some && !placed[k]);
    let e = unplaced_producer_edge(m, placed, k);
    assert(m.has_node(m.edges[e].src_node));
}

proof fn lemma_walk_back_reach(m: GraphModel, placed: Seq<bool>, k0: int, s: nat, t: nat)
    requires
        m.wf(),
        placed.len() == m.slots.len(),
        stuck(m, placed),
        0 <= k0 < m.slots.len(),
        m.slots[k0] is Some,
        !placed[k0],
        s <= t,
    ensures
        reach_within(
            m.edges,
            m.slots[walk_back(m, placed, k0, t)]->Some_0.id,
            m.slots[walk_back(m, placed, k0, s)]->Some_0.id,
            (t - s) as nat,
        ),
    decreases t,
{
    if s < t {
        let t1 = (t - 1) as nat;
        lemma_walk_back_reach(m, placed, k0, s, t1);
        lemma_walk_back(m, placed, k0, t1);
        let e = unplaced_producer_edge(m, placed, walk_back(m, placed, k0, t1));
        lemma_reach_edge(m.edges, e);
        lemma_reach_trans(
            m.edges,
            m.slots[walk_back(m, placed, k0, t)]->Some_0.id,
            m.slots[walk_back(m, placed, k0, t1)]->Some_0.id,
            m.slots[walk_back(m, placed, k0, s)]->Some_0.id,
            1,
            (t1 - s) as nat,
        );
    }
}

/// In a graph without cycles, some unplaced node always has all its
/// producers placed.
proof fn lemma_not_stuck(m: GraphModel, placed: Seq<bool>, k0: int)
    requires
        m.wf(),
        placed.len() == m.slots.len(),
        0 <= k0 < m.slots.len(),
        m.slots[k0] is Some,
        !placed[k0],
    ensures
        !stuck(m, placed),
{
    if stuck(m, placed) {
        let n = m.slots.len();
        let f = |i: int| walk_back(m, placed, k0, i as nat);
        assert forall|i: int| 0 <= i <= n implies 0 <= #[trigger] f(i) < n by {
            lemma_walk_back(m, placed, k0, i as nat);
        }
        lemma_pigeonhole(f, n);
        let (s, t) = choose|s: int, t: int| #![trigger f(s), f(t)] 0 <= s < t <= n && f(s) == f(t);
        lemma_walk_back(m, placed, k0, s as nat);
        let e = unplaced_producer_edge(m, placed, walk_back(m, placed, k0, s as nat));
        lemma_walk_back_reach(m, placed, k0, (s + 1) as nat, t as nat);
        assert(reach_within(m.edges, m.edges[e].dst_node, m.edges[e].src_node, (t - s - 1) as nat));
        assert(!crate::graph::reachable(m.edges, m.edges[e].dst_node, m.edges[e].src_node));
    }
}

/// Orders the nodes so that every edge runs forward: at each step the
/// first slot holding a node whose producers are all placed is taken.
/// A graph that keeps its invariants has no cycle, so this always succeeds.
pub fn topological_order(graph: &AudioGraph) -> (r: Result<Vec<NodeID>, CompileGraphError>)
    requires
        graph.wf(),
    ensures
        r is Ok,
        is_topological_order(graph@, r->Ok_0@),
        r->Ok_0@.len() <= graph@.slots.len(),
{
    let n = graph.num_slots();
    let edges = graph.edges();
    let ghost m = graph@;
    let mut placed: Vec<bool> = Vec::new();
    let mut i: usize = 0;
    while i < n
        invariant
            i <= n,
            placed@.len() == i,
            forall|k: int| 0 <= k < i ==> !placed@[k],
            count_true(placed@) == 0,
        decreases n - i,
    {
        proof {
            lemma_count_true_push(placed@, false);
        }
        placed.push(false);
        i = i + 1;
    }
    let mut order: Vec<NodeID> = Vec::new();
    loop
        invariant
            graph.wf(),
            m == graph@,
            n == m.slots.len(),
            edges@ == m.edges,
            placed@.len() == n,
            order@.len() == count_true(placed@),
            order@.len() <= n,
            forall|p: int, q: int| 0 <= p < q < order@.len() ==> order@[p].idx != order@[q].idx,
            forall|p: int|
                0 <= p < order@.len() ==> m.has_node(#[trigger] order@[p]) && placed@[order@[p].idx as int],
            forall|k: int|
                0 <= k < n && #[trigger] placed@[k] ==> exists|p: int|
                    0 <= p < order@.len() && (#[trigger] order@[p]).idx == k,
            forall|e: int, q: int|
                0 <= e < m.edges.len() && 0 <= q < order@.len() && (#[trigger] order@[q])
                    == (#[trigger] m.edges[e]).dst_node ==> exists|p: int|
                    0 <= p < q && (#[trigger] order@[p]) == m.edges[e].src_node,
        decreases n - order@.len(),
    {
        // Find the first unplaced node whose producers are all placed.
        let mut unplaced = false;
        let mut ready: Option<usize> = None;
        let mut s: usize = 0;
        while s < n && ready.is_none()
            invariant
                graph.wf(),
                m == graph@,
                n == m.slots.len(),
                edges@ == m.edges,
                placed@.len() == n,
                s <= n,
                ready is Some ==> {
                    let k = ready->Some_0 as int;
                    &&& 0 <= k < n
                    &&& m.slots[k] is Some
                    &&& !placed@[k]
                    &&& forall|e: int|
                        0 <= e < m.edges.len() && (#[trigger] m.edges[e]).dst_node
                            == m.slots[k]->Some_0.id ==> placed@[m.edges[e].src_node.idx as int]
                },
                ready is None ==> (unplaced <==> exists|k: int|
                    0 <= k < s && (#[trigger] m.slots[k]) is Some && !placed@[k]),
                ready is None ==> forall|k: int|
                    0 <= k < s && (#[trigger] m.slots[k]) is Some && !placed@[k] ==> exists|e: int|
                        0 <= e < m.edges.len() && (#[trigger] m.edges[e]).dst_node == m.slots[k]->Some_0.id
                            && !placed@[m.edges[e].src_node.idx as int],
                ready is Some ==> unplaced,
            decreases n - s,
        {
            if let Some(entry) = graph.slot(s) {
                if !placed[s] {
                    unplaced = true;
                    let mut all_placed = true;
                    let mut j: usize = 0;
                    while j < edges.len()
                        invariant
                            graph.wf(),
                            m == graph@,
                            edges@ == m.edges,
                            placed@.len() == n,
                            n == m.slots.len(),
                            j <= edges.len(),
                            m.slots[s as int] == Some(entry),
                            all_placed == forall|e: int|
                                0 <= e < j && (#[trigger] m.edges[e]).dst_node == entry.id
                                    ==> placed@[m.edges[e].src_node.idx as int],
                        decreases edges.len() - j,
                    {
                        let ed = edges[j];
                        proof {
                            assert(m.edges[j as int] == ed);
                            assert(m.has_node(ed.src_node));
                        }
                        if ed.dst_node == entry.id && !placed[ed.src_node.idx] {
                            all_placed = false;
                        }
                        j = j + 1;
                    }
                    if all_placed {
                        ready = Some(s);
                    }
                }
            }
            s = s + 1;
        }
        match ready {
            Some(k) => {
                let id = graph.slot(k).unwrap().id;
                proof {
                    lemma_count_true_set(placed@, k as int);
                    lemma_count_true_le(placed@.update(k as int, true));
                    assert(m.has_node(id));
                    // The slot was unplaced, so no earlier entry sits in it.
                    assert forall|p: int| 0 <= p < order@.len() implies (#[trigger] order@[p]).idx
                        != k by {}
                }
                let ghost old_order = order@;
                let ghost old_placed = placed@;
                placed.set(k, true);
                order.push(id);
                proof {
                    assert(order@[old_order.len() as int] == id);
                    assert forall|kk: int|
                        0 <= kk < n && #[trigger] placed@[kk] implies exists|p: int|
                        0 <= p < order@.len() && (#[trigger] order@[p]).idx == kk by {
                        if kk == k {
                            assert(order@[old_order.len() as int].idx == kk);
                        } else {
                            assert(old_placed[kk]);
                            let p = choose|p: int| 0 <= p < old_order.len() && (#[trigger] old_order[p]).idx == kk;
                            assert(order@[p] == old_order[p]);
                        }
                    }
                    assert forall|e: int, q: int|
                        0 <= e < m.edges.len() && 0 <= q < order@.len() && (#[trigger] order@[q])
                            == (#[trigger] m.edges[e]).dst_node implies exists|p: int|
                        0 <= p < q && (#[trigger] order@[p]) == m.edges[e].src_node by {
                        if q < old_order.len() {
                            assert(order@[q] == old_order[q]);
                            let p = choose|p: int| 0 <= p < q && (#[trigger] old_order[p]) == m.edges[e].src_node;
                            assert(order@[p] == old_order[p]);
                        } else {
                            let src = m.edges[e].src_node;
                            assert(m.has_node(src));
                            assert(old_placed[src.idx as int]);
                            let p = choose|p: int| 0 <= p < old_order.len() && (#[trigger] old_order[p]).idx == src.idx;
                            assert(m.has_node(old_order[p]));
                            assert(order@[p] == old_order[p]);
                        }
                    }
                }
            },
            None => {
                if unplaced {
                    proof {
                        let k0 = choose|k: int| 0 <= k < n && (#[trigger] m.slots[k]) is Some && !placed@[k];
                        lemma_not_stuck(m, placed@, k0);
                    }
                    return Err(CompileGraphError::CycleDetected);
                }
                proof {
                    assert forall|id: NodeID| m.has_node(id) implies #[trigger] order@.contains(id) by {
                        assert(m.slots[id.idx as int] is Some);
                        let p = choose|p: int| 0 <= p < order@.len() && (#[trigger] order@[p]).idx == id.idx;
                        assert(m.has_node(order@[p]));
                        assert(order@[p] == id);
                    }
                    assert forall|i: int, p: int, q: int|
                        #![trigger m.edges[i], order@[p], order@[q]]
                        0 <= i < m.edges.len() && 0 <= p < order@.len() && 0 <= q < order@.len()
                            && order@[p] == m.edges[i].src_node && order@[q]
                            == m.edges[i].dst_node implies p < q by {
                        let pp = choose|pp: int| 0 <= pp < q && (#[trigger] order@[pp]) == m.edges[i].src_node;
                        assert(order@[pp].idx == order@[p].idx);
                    }
                }
                return Ok(order);
            },
        }
    }
}

/// One node call of a schedule, with the buffer bound to each of its ports.
pub struct ScheduledNode {
    pub id: NodeID,
    pub input_buffers: Vec<usize>,
    pub output_buffers: Vec<usize>,
}

/// A compiled graph: node calls in execution order over a pool of
/// `num_buffers` buffers.
pub struct CompiledSchedule {
    pub nodes: Vec<ScheduledNode>,
    pub num_buffers: usize,
}

/// The node order of a schedule.
pub open spec fn order_of(s: Seq<ScheduledNode>) -> Seq<NodeID> {
    s.map_values(|n: ScheduledNode| n.id)
}

/// Every port of every call is bound to a buffer: output ports to buffers
/// other than the silent one, connected input ports to the buffer of the
/// output that feeds them, and unconnected input ports to the silent buffer.
pub open spec fn buffers_bound(m: GraphModel, s: Seq<ScheduledNode>, num_buffers: nat) -> bool {
    &&& forall|p: int|
        0 <= p < s.len() ==> (#[trigger] s[p]).input_buffers@.len() == m.num_inputs(s[p].id)
            && s[p].output_buffers@.len() == m.num_outputs(s[p].id)
    &&& forall|p: int, j: int|
        0 <= p < s.len() && 0 <= j < s[p].output_buffers@.len() ==> SILENT_BUFFER < (
        #[trigger] s[p].output_buffers@[j]) < num_buffers
    &&& forall|i: int, p: int, q: int|
        #![trigger m.edges[i], s[p], s[q]]
        0 <= i < m.edges.len() && 0 <= p < s.len() && 0 <= q < s.len() && s[p].id
            == m.edges[i].src_node && s[q].id == m.edges[i].dst_node ==> s[q].input_buffers@[m.edges[i].dst_port as int]
            == s[p].output_buffers@[m.edges[i].src_port as int]
    &&& forall|q: int, k: int|
        0 <= q < s.len() && 0 <= k < s[q].input_buffers@.len() && !m.input_connected(
            s[q].id,
            k as InPortIdx,
        ) ==> #[trigger] s[q].input_buffers@[k] == SILENT_BUFFER
}

/// Every consumer of output port `j` of call `p` is among the first
/// `bound` calls.
pub open spec fn consumers_before(
    edges: Seq<Edge>,
    s: Seq<ScheduledNode>,
    p: int,
    j: int,
    bound: int,
) -> bool {
    forall|i: int|
        0 <= i < edges.len() && (#[trigger] edges[i]).src_node == s[p].id && edges[i].src_port
            as int == j ==> exists|t: int| 0 <= t < bound && (#[trigger] s[t]).id == edges[i].dst_node
}

/// Two output ports share a buffer only when their live ranges do not
/// overlap: the later call comes after every consumer of the earlier port.
pub open spec fn buffers_reused_safely(m: GraphModel, s: Seq<ScheduledNode>) -> bool {
    forall|p: int, j: int, q: int, k: int|
        #![trigger s[p].output_buffers@[j], s[q].output_buffers@[k]]
        0 <= p <= q < s.len() && 0 <= j < s[p].output_buffers@.len() && 0 <= k
            < s[q].output_buffers@.len() && (p != q || j != k) && s[p].output_buffers@[j]
            == s[q].output_buffers@[k] ==> p < q && consumers_before(m.edges, s, p, j, q)
}

proof fn lemma_consumers_before_grow(
    edges: Seq<Edge>,
    s: Seq<ScheduledNode>,
    s2: Seq<ScheduledNode>,
    p: int,
    j: int,
    b1: int,
    b2: int,
)
    requires
        consumers_before(edges, s, p, j, b1),
        0 <= p < s.len(),
        b1 <= b2,
        b1 <= s.len(),
        s.len() <= s2.len(),
        forall|t: int| 0 <= t < s.len() ==> s2[t] == s[t],
    ensures
        consumers_before(edges, s2, p, j, b2),
{
    assert forall|i: int|
        0 <= i < edges.len() && (#[trigger] edges[i]).src_node == s2[p].id
            && edges[i].src_port as int == j implies exists|t: int|
        0 <= t < b2 && (#[trigger] s2[t]).id == edges[i].dst_node by {
        assert(s2[p] == s[p]);
        let t = choose|t: int| 0 <= t < b1 && (#[trigger] s[t]).id == edges[i].dst_node;
        assert(s2[t] == s[t]);
    }
}

/// The index of the edge that ends at this input port, if any.
fn find_input_edge(edges: &Vec<Edge>, dst: NodeID, port: InPortIdx) -> (r: Option<usize>)
    ensures
        r is Some ==> r->Some_0 < edges@.len() && edges@[r->Some_0 as int].dst_node == dst
            && edges@[r->Some_0 as int].dst_port == port,
        r is None ==> forall|i: int|
            0 <= i < edges@.len() ==> !((#[trigger] edges@[i]).dst_node == dst
                && edges@[i].dst_port == port),
{
    let mut i: usize = 0;
    while i < edges.len()
        invariant
            i <= edges@.len(),
            forall|k: int|
                0 <= k < i ==> !((#[trigger] edges@[k]).dst_node == dst && edges@[k].dst_port == port),
        decreases edges.len() - i,
    {
        if edges[i].dst_node == dst && edges[i].dst_port == port {
            return Some(i);
        }
        i = i + 1;
    }
    None
}

/// The position of the call of this node, if any.
fn position_of(nodes: &Vec<ScheduledNode>, id: NodeID) -> (r: Option<usize>)
    ensures
        r is Some ==> r->Some_0 < nodes@.len() && nodes@[r->Some_0 as int].id == id,
        r is None ==> forall|p: int| 0 <= p < nodes@.len() ==> (#[trigger] nodes@[p]).id != id,
{
    let mut p: usize = 0;
    while p < nodes.len()
        invariant
            p <= nodes@.len(),
            forall|k: int| 0 <= k < p ==> (#[trigger] nodes@[k]).id != id,
        decreases nodes.len() - p,
    {
        if nodes[p].id == id {
            return Some(p);
        }
        p = p + 1;
    }
    None
}

/// Whether every consumer of output port `j` of call `p` is among `nodes`.
fn consumers_done(nodes: &Vec<ScheduledNode>, edges: &Vec<Edge>, p: usize, j: usize) -> (r: bool)
    requires
        p < nodes@.len(),
    ensures
        r == consumers_before(edges@, nodes@, p as int, j as int, nodes@.len() as int),
{
    let src = nodes[p].id;
    let mut i: usize = 0;
    while i < edges.len()
        invariant
            p < nodes@.len(),
            src == nodes@[p as int].id,
            i <= edges@.len(),
            forall|k: int|
                0 <= k < i && (#[trigger] edges@[k]).src_node == src && edges@[k].src_port as int
                    == j ==> exists|t: int|
                    0 <= t < nodes@.len() && (#[trigger] nodes@[t]).id == edges@[k].dst_node,
        decreases edges.len() - i,
    {
        let e = edges[i];
        if e.src_node == src && e.src_port as usize == j {
            if position_of(nodes, e.dst_node).is_none() {
                proof {
                    assert(edges@[i as int] == e);
                }
                return false;
            }
        }
        i = i + 1;
    }
    true
}

/// A buffer, other than the silent one, whose latest holder comes before
/// call `q` and has had all its consumers run.
fn find_free_buffer(
    nodes: &Vec<ScheduledNode>,
    edges: &Vec<Edge>,
    owner: &Vec<(usize, usize)>,
    q: usize,
) -> (r: Option<usize>)
    requires
        nodes@.len() == q,
    ensures
        r is Some ==> {
            let b = r->Some_0 as int;
            &&& 1 <= b < owner@.len()
            &&& owner@[b].0 < q
            &&& consumers_before(edges@, nodes@, owner@[b].0 as int, owner@[b].1 as int, q as int)
        },
        r is None ==> forall|b: int|
            1 <= b < owner@.len() ==> !((#[trigger] owner@[b]).0 < q && consumers_before(
                edges@,
                nodes@,
                owner@[b].0 as int,
                owner@[b].1 as int,
                q as int,
            )),
{
    let mut b: usize = 1;
    while b < owner.len()
        invariant
            nodes@.len() == q,
            1 <= b,
            forall|c: int|
                1 <= c < b && c < owner@.len() ==> !((#[trigger] owner@[c]).0 < q && consumers_before(
                    edges@,
                    nodes@,
                    owner@[c].0 as int,
                    owner@[c].1 as int,
                    q as int,
                )),
        decreases owner.len() - b,
    {
        let (p0, j0) = owner[b];
        if p0 < q && consumers_done(nodes, edges, p0, j0) {
            return Some(b);
        }
        b = b + 1;
    }
    None
}

/// Compiles the graph into a schedule: a topological order of all its
/// nodes with a buffer bound to every port. Every node is scheduled, also
/// those that no path joins to the graph's output. A buffer is handed to a
/// new output port once every consumer of its last holder has run.
pub fn compile(graph: &AudioGraph) -> (r: Result<CompiledSchedule, CompileGraphError>)
    requires
        graph.wf(),
        graph@.slots.len() * 0xFFFF_FFFF + 1 <= usize::MAX,
    ensures
        r is Ok,
        is_topological_order(graph@, order_of(r->Ok_0.nodes@)),
        buffers_bound(graph@, r->Ok_0.nodes@, r->Ok_0.num_buffers as nat),
        buffers_reused_safely(graph@, r->Ok_0.nodes@),
        SILENT_BUFFER < r->Ok_0.num_buffers,
{
    let order = match topological_order(graph) {
        Ok(o) => o,
        Err(e) => {
            return Err(e);
        },
    };
    let ghost m = graph@;
    let edges = graph.edges();
    let mut nodes: Vec<ScheduledNode> = Vec::new();
    // The latest holder of each buffer: a call and one of its output ports.
    let mut owner: Vec<(usize, usize)> = Vec::new();
    owner.push((0, 0));
    let mut next_buf: usize = 1;
    let mut q: usize = 0;
    while q < order.len()
        invariant
            graph.wf(),
            m == graph@,
            edges@ == m.edges,
            is_topological_order(m, order@),
            order@.len() <= m.slots.len(),
            m.slots.len() * 0xFFFF_FFFF + 1 <= usize::MAX,
            q <= order@.len(),
            nodes@.len() == q,
            1 <= next_buf <= 1 + q * 0xFFFF_FFFF,
            owner@.len() == next_buf,
            forall|p: int| 0 <= p < q ==> (#[trigger] nodes@[p]).id == order@[p],
            buffers_bound(m, nodes@, next_buf as nat),
            buffers_reused_safely(m, nodes@),
            forall|b: int|
                1 <= b < next_buf ==> {
                    let (p0, j0) = #[trigger] owner@[b];
                    &&& p0 < q
                    &&& j0 < nodes@[p0 as int].output_buffers@.len()
                    &&& nodes@[p0 as int].output_buffers@[j0 as int] == b
                },
            forall|p: int, j: int|
                0 <= p < q && 0 <= j < nodes@[p].output_buffers@.len() ==> p <= owner@[
                #[trigger] nodes@[p].output_buffers@[j] as int].0,
        decreases order.len() - q,
    {
        let id = order[q];
        proof {
            assert(m.has_node(order@[q as int]));
        }
        let entry = graph.node(id).unwrap();
        let num_out = entry.config.num_outputs;
        let num_in = entry.config.num_inputs;
        proof {
            assert(q < m.slots.len());
            assert(next_buf + 0xFFFF_FFFF <= 1 + (q + 1) * 0xFFFF_FFFF) by (nonlinear_arith)
                requires
                    next_buf <= 1 + q * 0xFFFF_FFFF,
            ;
            assert((q + 1) * 0xFFFF_FFFF <= m.slots.len() * 0xFFFF_FFFF) by (nonlinear_arith)
                requires
                    q + 1 <= m.slots.len(),
            ;
        }
        let ghost buf_start = next_buf;
        let mut outs: Vec<usize> = Vec::new();
        let mut j: u32 = 0;
        while j < num_out
            invariant
                edges@ == m.edges,
                nodes@.len() == q,
                j <= num_out,
                buf_start + num_out <= usize::MAX,
                1 <= buf_start <= next_buf <= buf_start + j,
                owner@.len() == next_buf,
                outs@.len() == j,
                buffers_bound(m, nodes@, buf_start as nat),
                buffers_reused_safely(m, nodes@),
                forall|k: int| 0 <= k < j ==> 1 <= #[trigger] outs@[k] < next_buf,
                forall|k: int, k2: int| 0 <= k < k2 < j ==> outs@[k] != outs@[k2],
                forall|k: int| 0 <= k < j ==> owner@[#[trigger] outs@[k] as int] == (q as usize, k as usize),
                forall|b: int|
                    1 <= b < next_buf ==> {
                        let (p0, j0) = #[trigger] owner@[b];
                        ||| (p0 < q && j0 < nodes@[p0 as int].output_buffers@.len()
                            && nodes@[p0 as int].output_buffers@[j0 as int] == b)
                        ||| (p0 == q && j0 < j && outs@[j0 as int] == b)
                    },
                forall|p: int, jj: int|
                    0 <= p < q && 0 <= jj < nodes@[p].output_buffers@.len() ==> p <= owner@[
                    #[trigger] nodes@[p].output_buffers@[jj] as int].0,
                forall|p: int, jj: int, k: int|
                    #![trigger nodes@[p].output_buffers@[jj], outs@[k]]
                    0 <= p < q && 0 <= jj < nodes@[p].output_buffers@.len() && 0 <= k < j
                        && nodes@[p].output_buffers@[jj] == outs@[k] ==> consumers_before(
                        m.edges,
                        nodes@,
                        p,
                        jj,
                        q as int,
                    ),
            decreases num_out - j,
        {
            let ghost old_outs = outs@;
            let ghost old_next = next_buf;
            match find_free_buffer(&nodes, edges, &owner, q) {
                Some(b) => {
                    let ghost (p0, j0) = owner@[b as int];
                    proof {
                        // Every holder of `b` has had all its consumers run.
                        assert forall|p: int, jj: int|
                            #![trigger nodes@[p].output_buffers@[jj]]
                            0 <= p < q && 0 <= jj < nodes@[p].output_buffers@.len()
                                && nodes@[p].output_buffers@[jj] == b implies consumers_before(
                            m.edges,
                            nodes@,
                            p,
                            jj,
                            q as int,
                        ) by {
                            assert(p <= p0);
                            if p != p0 || jj != j0 {
                                assert(nodes@[p0 as int].output_buffers@[j0 as int] == b);
                                lemma_consumers_before_grow(m.edges, nodes@, nodes@, p, jj, p0 as int, q as int);
                            }
                        }
                    }
                    owner.set(b, (q, j as usize));
                    outs.push(b);
                    assert(outs@[j as int] == b);
                    assert(1 <= b < next_buf);
                },
                None => {
                    owner.push((q, j as usize));
                    outs.push(next_buf);
                    next_buf = next_buf + 1;
                },
            }
            proof {
                assert forall|k: int| 0 <= k < j + 1 implies 1 <= #[trigger] outs@[k] < next_buf by {
                    if k < j {
                        assert(outs@[k] == old_outs[k]);
                        assert(1 <= old_outs[k] < old_next);
                    } else {
                        assert(k == j);
                    }
                }
            }
            j = j + 1;
        }
        let mut ins: Vec<usize> = Vec::new();
        let mut k: u32 = 0;
        while k < num_in
            invariant
                graph.wf(),
                m == graph@,
                edges@ == m.edges,
                is_topological_order(m, order@),
                q < order@.len(),
                nodes@.len() == q,
                id == order@[q as int],
                num_in == m.num_inputs(id),
                forall|p: int| 0 <= p < q ==> (#[trigger] nodes@[p]).id == order@[p],
                buffers_bound(m, nodes@, buf_start as nat),
                k <= num_in,
                ins@.len() == k,
                forall|t: int| 0 <= t < k && !m.input_connected(id, t as InPortIdx) ==> #[trigger] ins@[t] == SILENT_BUFFER,
                forall|i: int, p: int|
                    #![trigger m.edges[i], nodes@[p]]
                    0 <= i < m.edges.len() && 0 <= p < q && nodes@[p].id == m.edges[i].src_node
                        && id == m.edges[i].dst_node && m.edges[i].dst_port < k
                        ==> ins@[m.edges[i].dst_port as int] == nodes@[p].output_buffers@[m.edges[i].src_port as int],
            decreases num_in - k,
        {
            let buf = match find_input_edge(edges, id, k) {
                Some(i) => {
                    let e = edges[i];
                    proof {
                        assert(m.edges[i as int] == e);
                        assert(m.has_node(e.src_node));
                        // The producer comes earlier in the order.
                        assert(order@.contains(e.src_node));
                        let pp = choose|pp: int| 0 <= pp < order@.len() && order@[pp] == e.src_node;
                        assert(pp < q as int);
                        assert(nodes@[pp].id == e.src_node);
                    }
                    match position_of(&nodes, e.src_node) {
                        Some(p) => {
                            proof {
                                assert(nodes@[p as int].output_buffers@.len() == m.num_outputs(e.src_node));
                            }
                            nodes[p].output_buffers[e.src_port as usize]
                        },
                        None => SILENT_BUFFER,
                    }
                },
                None => SILENT_BUFFER,
            };
            ins.push(buf);
            k = k + 1;
        }
        let ghost old_nodes = nodes@;
        nodes.push(ScheduledNode { id, input_buffers: ins, output_buffers: outs });
        proof {
            let s2 = nodes@;
            assert forall|t: int| 0 <= t < old_nodes.len() implies s2[t] == old_nodes[t] by {}
            assert(s2[q as int].output_buffers@ == outs@);
            assert forall|p: int, jj: int, qq: int, kk: int|
                #![trigger s2[p].output_buffers@[jj], s2[qq].output_buffers@[kk]]
                0 <= p <= qq < s2.len() && 0 <= jj < s2[p].output_buffers@.len() && 0 <= kk
                    < s2[qq].output_buffers@.len() && (p != qq || jj != kk) && s2[p].output_buffers@[jj]
                    == s2[qq].output_buffers@[kk] implies p < qq && consumers_before(m.edges, s2, p, jj, qq) by {
                if qq < q {
                    assert(old_nodes[p].output_buffers@[jj] == old_nodes[qq].output_buffers@[kk]);
                    lemma_consumers_before_grow(m.edges, old_nodes, s2, p, jj, qq, qq);
                } else if p < q {
                    assert(outs@[kk] == old_nodes[p].output_buffers@[jj]);
                    lemma_consumers_before_grow(m.edges, old_nodes, s2, p, jj, q as int, q as int);
                } else {
                    assert(outs@[jj] == outs@[kk]);
                }
            }
            assert(buffers_bound(m, s2, next_buf as nat)) by {
                assert forall|p: int, jj: int|
                    0 <= p < s2.len() && 0 <= jj < s2[p].output_buffers@.len() implies SILENT_BUFFER < (
                    #[trigger] s2[p].output_buffers@[jj]) < next_buf by {
                    if p < q {
                        assert(s2[p] == old_nodes[p]);
                    } else {
                        assert(1 <= outs@[jj] < next_buf);
                    }
                }
                assert forall|i: int, p: int, qq: int|
                    #![trigger m.edges[i], s2[p], s2[qq]]
                    0 <= i < m.edges.len() && 0 <= p < s2.len() && 0 <= qq < s2.len() && s2[p].id
                        == m.edges[i].src_node && s2[qq].id == m.edges[i].dst_node implies s2[qq].input_buffers@[m.edges[i].dst_port as int]
                        == s2[p].output_buffers@[m.edges[i].src_port as int] by {
                    if p == q {
                        // An edge out of the new call cannot end at itself or
                        // at an earlier call.
                        assert(order@[p] == m.edges[i].src_node);
                        assert(order@[qq] == m.edges[i].dst_node);
                    } else if qq == q {
                        assert(s2[p] == old_nodes[p]);
                        assert(m.edges[i].dst_port < num_in);
                    } else {
                        assert(s2[p] == old_nodes[p]);
                        assert(s2[qq] == old_nodes[qq]);
                    }
                }
            }
            assert forall|b: int| 1 <= b < next_buf implies {
                let (p0, j0) = #[trigger] owner@[b];
                &&& p0 < q + 1
                &&& j0 < s2[p0 as int].output_buffers@.len()
                &&& s2[p0 as int].output_buffers@[j0 as int] == b
            } by {
                let (p0, j0) = owner@[b];
                if p0 < q {
                    assert(s2[p0 as int] == old_nodes[p0 as int]);
                }
            }
            assert forall|p: int, jj: int|
                0 <= p < q + 1 && 0 <= jj < s2[p].output_buffers@.len() implies p <= owner@[
                #[trigger] s2[p].output_buffers@[jj] as int].0 by {
                if p < q {
                    assert(s2[p] == old_nodes[p]);
                    let b = old_nodes[p].output_buffers@[jj];
                    assert(b < buf_start);
                } else {
                    assert(owner@[outs@[jj] as int] == (q as usize, jj as usize));
                }
            }
        }
        q = q + 1;
    }
    assert(order_of(nodes@) =~= order@);
    Ok(CompiledSchedule { nodes, num_buffers: next_buf })
}

} // verus!
