//! Events, edge kinds, and the directed multigraph that holds them.
//!
//! The graph is a `petgraph` graph. Verus sees it through two names: the
//! sequence of its node weights and the sequence of its edges, both in
//! index order. Every operation that the analysis performs on the graph goes
//! through one of the small functions below, whose contracts restate what
//! `petgraph`'s source does.
use petgraph::visit::EdgeRef;
use vstd::prelude::*;

verus! {

/// The owner of an event.
pub type ThreadId = String;

/// A shared memory location.
pub type MemoryId = String;

/// A fence event's strength.
#[derive(Debug, Clone, Copy, PartialEq, Eq, Structural)]
pub enum Fence {
    /// `mfence` on x86, `sync` on Power, `dmb` on ARM.
    Full,
    /// `lwsync` on Power.
    LightWeight,
    /// `isync` on Power, `isb` on ARM.
    Control,
}

/// An event of the abstract event graph.
#[derive(Debug, Clone)]
pub enum Node {
    Read(ThreadId, MemoryId),
    Write(ThreadId, MemoryId),
    Fence(ThreadId, Fence),
}

/// The label of an edge.
#[derive(Debug, Clone, Copy, PartialEq, Eq, Structural)]
pub enum AegEdge {
    /// Two events adjacent in program order (po, not its transitive closure).
    ProgramOrder,
    /// Two events of different threads on one location, at least one a write.
    /// The relation is undirected and is stored as two opposite edges.
    Competing,
}

impl Node {
    /// The thread that issues the event.
    pub open spec fn thread(self) -> Seq<char> {
        match self {
            Node::Read(t, _) => t@,
            Node::Write(t, _) => t@,
            Node::Fence(t, _) => t@,
        }
    }

    /// The location that the event accesses, if it is a read or a write.
    pub open spec fn memory(self) -> Option<Seq<char>> {
        match self {
            Node::Read(_, m) => Some(m@),
            Node::Write(_, m) => Some(m@),
            Node::Fence(_, _) => None,
        }
    }

    pub open spec fn is_write(self) -> bool {
        self is Write
    }

    pub open spec fn is_read(self) -> bool {
        self is Read
    }

    /// The location that a read or a write accesses.
    pub fn address(&self) -> (r: Option<&MemoryId>)
        ensures
            r matches Some(m) ==> self.memory() == Some(m@),
            r is None <==> self.memory() is None,
    {
        match self {
            Node::Read(_, address) => Some(address),
            Node::Write(_, address) => Some(address),
            Node::Fence(_, _) => None,
        }
    }

    /// The thread that issues the event.
    pub fn thread_name(&self) -> (r: &ThreadId)
        ensures
            r@ == self.thread(),
    {
        match self {
            Node::Read(t, _) | Node::Write(t, _) | Node::Fence(t, _) => t,
        }
    }
}

/// An edge as Verus sees it: its source, its target and its label.
pub struct EdgeView {
    pub source: usize,
    pub target: usize,
    pub kind: AegEdge,
}

/// The whole graph as Verus sees it.
pub struct GraphView {
    pub nodes: Seq<Node>,
    pub edges: Seq<EdgeView>,
}

/// The graph type of the analysis: directed, with `usize` indices so that
/// adding a node or an edge never runs out of indices.
pub type Aeg = petgraph::graph::DiGraph<Node, AegEdge, usize>;

#[verifier::external_type_specification]
#[verifier::external_body]
#[verifier::reject_recursive_types(N)]
#[verifier::reject_recursive_types(E)]
#[verifier::reject_recursive_types(Ty)]
#[verifier::reject_recursive_types(Ix)]
pub struct ExGraph<N, E, Ty, Ix>(petgraph::graph::Graph<N, E, Ty, Ix>);

#[verifier::external_type_specification]
#[verifier::external_body]
pub struct ExDirected(petgraph::Directed);

/// The node weights of a graph, by node index.
pub uninterp spec fn graph_nodes(g: Aeg) -> Seq<Node>;

/// The edges of a graph, by edge index.
pub uninterp spec fn graph_edges(g: Aeg) -> Seq<EdgeView>;

pub open spec fn view_of(g: Aeg) -> GraphView {
    GraphView { nodes: graph_nodes(g), edges: graph_edges(g) }
}

impl GraphView {
    pub open spec fn empty() -> GraphView {
        GraphView { nodes: Seq::empty(), edges: Seq::empty() }
    }


    /// Every edge joins two nodes of the graph.
    pub open spec fn edges_in_range(self) -> bool {
        forall|e: int|
            0 <= e < self.edges.len() ==> #[trigger] self.edges[e].source < self.nodes.len()
                && self.edges[e].target < self.nodes.len()
    }

    pub open spec fn push_node(self, n: Node) -> GraphView {
        GraphView { nodes: self.nodes.push(n), edges: self.edges }
    }

    pub open spec fn push_edge(self, a: usize, b: usize, w: AegEdge) -> GraphView {
        GraphView {
            nodes: self.nodes,
            edges: self.edges.push(EdgeView { source: a, target: b, kind: w }),
        }
    }

    /// The newest edge from `a` to `b` among the first `n` edges.
    pub open spec fn find_edge_in(self, a: usize, b: usize, n: nat) -> Option<nat>
        decreases n,
    {
        if n == 0 {
            None
        } else if self.edges[n - 1].source == a && self.edges[n - 1].target == b {
            Some((n - 1) as nat)
        } else {
            self.find_edge_in(a, b, (n - 1) as nat)
        }
    }

    /// The newest edge from `a` to `b`, the one `petgraph` finds first.
    pub open spec fn find_edge(self, a: usize, b: usize) -> Option<nat> {
        self.find_edge_in(a, b, self.edges.len())
    }

    /// Relabel the edge from `a` to `b` if there is one, else add it.
    pub open spec fn update_edge(self, a: usize, b: usize, w: AegEdge) -> GraphView {
        match self.find_edge(a, b) {
            Some(e) => GraphView {
                nodes: self.nodes,
                edges: self.edges.update(e as int, EdgeView { source: a, target: b, kind: w }),
            },
            None => self.push_edge(a, b, w),
        }
    }

    /// No two edges join the same source to the same target.
    pub open spec fn simple(self) -> bool {
        forall|e1: int, e2: int|
            0 <= e1 < self.edges.len() && 0 <= e2 < self.edges.len() && e1 != e2 ==> !(
            #[trigger] self.edges[e1].source == #[trigger] self.edges[e2].source
                && self.edges[e1].target == self.edges[e2].target)
    }

    /// There is a po edge from `a` to `b`.
    pub open spec fn po_edge(self, a: usize, b: usize) -> bool {
        self.has_edge(a, b, AegEdge::ProgramOrder)
    }

    /// Consecutive nodes of `p` are joined by po edges.
    pub open spec fn is_po_walk(self, p: Seq<usize>) -> bool {
        forall|i: int| 0 <= i < p.len() - 1 ==> #[trigger] self.po_edge(p[i], p[i + 1])
    }

    /// `b` is reached from `a` by one or more po edges.
    pub open spec fn po_reaches(self, a: usize, b: usize) -> bool {
        exists|p: Seq<usize>|
            p.len() >= 2 && p[0] == a && p.last() == b && #[trigger] self.is_po_walk(p)
    }

    /// There is an edge from `a` to `b` with label `w`.
    pub open spec fn has_edge(self, a: usize, b: usize, w: AegEdge) -> bool {
        exists|e: int|
            0 <= e < self.edges.len() && #[trigger] self.edges[e] == (EdgeView {
                source: a,
                target: b,
                kind: w,
            })
    }
}

/// Relies on `Graph::default`: the graph starts with no nodes and no edges.
#[verifier::external_body]
pub(crate) fn new_graph() -> (g: Aeg)
    ensures
        view_of(g) == GraphView::empty(),
{
    Aeg::default()
}

/// Relies on `Graph::add_node`: the weight is appended and its index returned.
#[verifier::external_body]
pub(crate) fn add_node(g: &mut Aeg, n: Node) -> (i: usize)
    ensures
        view_of(*final(g)) == view_of(*old(g)).push_node(n),
        i == graph_nodes(*old(g)).len(),
{
    g.add_node(n).index()
}

/// Relies on `Graph::add_edge`: the edge is appended and its index returned;
/// it panics when an endpoint is not a node, which `requires` rules out.
#[verifier::external_body]
pub(crate) fn add_edge(g: &mut Aeg, a: usize, b: usize, w: AegEdge) -> (e: usize)
    requires
        a < graph_nodes(*old(g)).len(),
        b < graph_nodes(*old(g)).len(),
    ensures
        view_of(*final(g)) == view_of(*old(g)).push_edge(a, b, w),
        e == graph_edges(*old(g)).len(),
{
    g.add_edge(petgraph::graph::NodeIndex::new(a), petgraph::graph::NodeIndex::new(b), w).index()
}

/// Relies on `Graph::update_edge`: the edge from `a` to `b` is relabelled,
/// or a new one is appended when there is none. In a graph without
/// parallel edges there is at most one edge from `a` to `b`, so which one
/// `find_edge` meets first does not matter.
#[verifier::external_body]
pub(crate) fn update_edge(g: &mut Aeg, a: usize, b: usize, w: AegEdge)
    requires
        a < graph_nodes(*old(g)).len(),
        b < graph_nodes(*old(g)).len(),
        view_of(*old(g)).simple(),
    ensures
        view_of(*final(g)) == view_of(*old(g)).update_edge(a, b, w),
{
    g.update_edge(petgraph::graph::NodeIndex::new(a), petgraph::graph::NodeIndex::new(b), w);
}

/// Relies on `Graph::node_count`: the number of node weights.
#[verifier::external_body]
pub(crate) fn node_count(g: &Aeg) -> (n: usize)
    ensures
        n == graph_nodes(*g).len(),
{
    g.node_count()
}

/// Relies on `Graph::edge_count`: the number of edges.
#[verifier::external_body]
pub(crate) fn edge_count(g: &Aeg) -> (n: usize)
    ensures
        n == graph_edges(*g).len(),
{
    g.edge_count()
}

/// Relies on `Graph::raw_nodes`: the weight of node `i`.
#[verifier::external_body]
pub(crate) fn node_at(g: &Aeg, i: usize) -> (n: &Node)
    requires
        i < graph_nodes(*g).len(),
    ensures
        *n == graph_nodes(*g)[i as int],
{
    &g.raw_nodes()[i].weight
}

/// Relies on `Graph::raw_edges`: the source, target and label of edge `e`.
#[verifier::external_body]
pub(crate) fn edge_at(g: &Aeg, e: usize) -> (r: (usize, usize, AegEdge))
    requires
        e < graph_edges(*g).len(),
    ensures
        r.0 == graph_edges(*g)[e as int].source,
        r.1 == graph_edges(*g)[e as int].target,
        r.2 == graph_edges(*g)[e as int].kind,
{
    let ed = &g.raw_edges()[e];
    (ed.source().index(), ed.target().index(), ed.weight)
}

/// Relies on `Graph::edges`: for a directed graph it walks the list of the
/// edges that leave `a`, which holds each of them once.
#[verifier::external_body]
pub(crate) fn out_edges(g: &Aeg, a: usize) -> (r: Vec<usize>)
    ensures
        r@.no_duplicates(),
        forall|x: usize|
            #[trigger] r@.contains(x) <==> (x < graph_edges(*g).len() && graph_edges(*g)[x as int].source
                == a),
{
    g.edges(petgraph::graph::NodeIndex::new(a)).map(|e| e.id().index()).collect()
}

} // verus!

verus! {

/// What `find_edge` returns is an edge from `a` to `b`, and when it finds
/// none there is none.
pub proof fn lemma_find_edge_none(g: GraphView, a: usize, b: usize, n: nat)
    requires
        n <= g.edges.len(),
    ensures
        g.find_edge_in(a, b, n) matches Some(e) ==> e < n && g.edges[e as int].source == a
            && g.edges[e as int].target == b,
        g.find_edge_in(a, b, n) is None ==> forall|e: int|
            0 <= e < n ==> !(g.edges[e].source == a && g.edges[e].target == b),
    decreases n,
{
    if n > 0 {
        lemma_find_edge_none(g, a, b, (n - 1) as nat);
    }
}

/// Relabelling or adding an edge between two nodes keeps the edges in
/// range and keeps the graph free of parallel edges.
pub proof fn lemma_update_keeps_simple(g: GraphView, a: usize, b: usize, w: AegEdge)
    requires
        g.simple(),
        g.edges_in_range(),
        a < g.nodes.len(),
        b < g.nodes.len(),
    ensures
        g.update_edge(a, b, w).simple(),
        g.update_edge(a, b, w).edges_in_range(),
        g.update_edge(a, b, w).nodes == g.nodes,
{
    lemma_find_edge_none(g, a, b, g.edges.len());
    let g2 = g.update_edge(a, b, w);
    assert forall|e: int| 0 <= e < g2.edges.len() implies #[trigger] g2.edges[e].source < g2.nodes.len()
        && g2.edges[e].target < g2.nodes.len() by {
        if e < g.edges.len() {
            assert(g.edges[e].source < g.nodes.len());
        }
    }
    assert forall|e1: int, e2: int|
        0 <= e1 < g2.edges.len() && 0 <= e2 < g2.edges.len() && e1 != e2 implies !(
        #[trigger] g2.edges[e1].source == #[trigger] g2.edges[e2].source
            && g2.edges[e1].target == g2.edges[e2].target) by {
        if e1 < g.edges.len() && e2 < g.edges.len() {
            assert(g2.edges[e1].source == g.edges[e1].source && g2.edges[e1].target == g.edges[e1].target);
            assert(g2.edges[e2].source == g.edges[e2].source && g2.edges[e2].target == g.edges[e2].target);
        }
    }
}

/// A new edge into a node that no edge enters keeps the graph free of
/// parallel edges.
pub proof fn lemma_push_fresh_target(g: GraphView, a: usize, b: usize, w: AegEdge)
    requires
        g.simple(),
        g.edges_in_range(),
        a < g.nodes.len(),
        b < g.nodes.len(),
        forall|e: int| 0 <= e < g.edges.len() ==> g.edges[e].target != b,
    ensures
        g.push_edge(a, b, w).simple(),
        g.push_edge(a, b, w).edges_in_range(),
{
    let g2 = g.push_edge(a, b, w);
    assert forall|e: int| 0 <= e < g2.edges.len() implies #[trigger] g2.edges[e].source < g2.nodes.len()
        && g2.edges[e].target < g2.nodes.len() by {
        if e < g.edges.len() {
            assert(g.edges[e].source < g.nodes.len());
        }
    }
}

/// A new node keeps the edges in range and the graph free of parallel
/// edges.
pub proof fn lemma_push_node_keeps_simple(g: GraphView, n: Node)
    requires
        g.simple(),
        g.edges_in_range(),
    ensures
        g.push_node(n).simple(),
        g.push_node(n).edges_in_range(),
{
    let g2 = g.push_node(n);
    assert forall|e: int| 0 <= e < g2.edges.len() implies #[trigger] g2.edges[e].source < g2.nodes.len()
        && g2.edges[e].target < g2.nodes.len() by {
        assert(g.edges[e].source < g.nodes.len());
    }
}

} // verus!
