//! Critical cycles: cycles of the abstract event graph with at least one
//! delay (CS1), at most two adjacent accesses to different locations per
//! thread (CS2), and at most three adjacent accesses from different threads
//! per location (CS3); and the po edges on which a fence breaks them.
use crate::aeg::{AbstractEventGraph, Architecture};
use crate::builder::{all_below, copy_vec, same_memory, vec_contains};
use crate::graph::{edge_at, node_at, node_count, out_edges, AegEdge, GraphView, Node};
use crate::simple_paths::{all_simple_po_paths, is_simple_po_path};
use itertools::Itertools;
use vstd::prelude::*;

verus! {

/// A critical cycle, and one set of po edges that covers each of its delays.
#[derive(Clone, Debug, PartialEq, Eq)]
pub struct CriticalCycle {
    pub cycle: Vec<usize>,
    pub potential_fences: Vec<usize>,
}

/// The position after `i` on a ring of `n` positions.
pub open spec fn succ_index(i: int, n: int) -> int {
    if i + 1 < n {
        i + 1
    } else {
        0
    }
}

pub open spec fn circ_adjacent(i: int, j: int, n: int) -> bool {
    succ_index(i, n) == j || succ_index(j, n) == i
}

pub open spec fn thread_at(g: GraphView, c: Seq<usize>, i: int) -> Seq<char> {
    g.nodes[c[i] as int].thread()
}

pub open spec fn mem_at(g: GraphView, c: Seq<usize>, i: int) -> Option<Seq<char>> {
    g.nodes[c[i] as int].memory()
}

/// How many of the first `k` events of `c` belong to thread `t`.
pub open spec fn count_thread(g: GraphView, c: Seq<usize>, t: Seq<char>, k: int) -> nat
    decreases k,
{
    if k <= 0 {
        0
    } else {
        count_thread(g, c, t, k - 1) + if thread_at(g, c, k - 1) == t {
            1nat
        } else {
            0nat
        }
    }
}

/// How many of the first `k` events of `c` access location `m`.
pub open spec fn count_mem(g: GraphView, c: Seq<usize>, m: Option<Seq<char>>, k: int) -> nat
    decreases k,
{
    if k <= 0 {
        0
    } else {
        count_mem(g, c, m, k - 1) + if mem_at(g, c, k - 1) == m {
            1nat
        } else {
            0nat
        }
    }
}

/// CS2: per thread, at most two events, adjacent on the ring and on
/// different locations.
pub open spec fn cs2(g: GraphView, c: Seq<usize>) -> bool {
    &&& forall|i: int| 0 <= i < c.len() ==> count_thread(g, c, #[trigger] thread_at(g, c, i), c.len() as int) <= 2
    &&& forall|i: int, j: int|
        0 <= i < c.len() && 0 <= j < c.len() && i != j && #[trigger] thread_at(g, c, i)
            == #[trigger] thread_at(g, c, j) ==> circ_adjacent(i, j, c.len() as int) && mem_at(g, c, i)
            != mem_at(g, c, j)
}

/// The event at `i` ends a run of accesses to its location on the ring.
pub open spec fn run_end(g: GraphView, c: Seq<usize>, i: int) -> bool {
    mem_at(g, c, i) != mem_at(g, c, succ_index(i, c.len() as int))
}

/// CS3: per location, at most three events, from different threads, in
/// one run on the ring.
pub open spec fn cs3(g: GraphView, c: Seq<usize>) -> bool {
    &&& forall|i: int| 0 <= i < c.len() ==> count_mem(g, c, #[trigger] mem_at(g, c, i), c.len() as int) <= 3
    &&& forall|i: int, j: int|
        0 <= i < c.len() && 0 <= j < c.len() && i != j && #[trigger] mem_at(g, c, i)
            == #[trigger] mem_at(g, c, j) ==> thread_at(g, c, i) != thread_at(g, c, j) && !(run_end(
            g,
            c,
            i,
        ) && run_end(g, c, j))
}

/// The pair of event kinds that the architecture may reorder.
pub open spec fn kind_ok(arch: Architecture, a: Node, b: Node) -> bool {
    match arch {
        Architecture::Tso => a is Write && b is Read,
        Architecture::Power => true,
        Architecture::Arm => false,
    }
}

/// No event of `p` is a fence.
pub open spec fn fence_free(g: GraphView, p: Seq<usize>) -> bool {
    forall|k: int| 0 <= k < p.len() ==> !(#[trigger] g.nodes[p[k] as int] is Fence)
}

/// `u` then `v` is a delay: they are not competing, the architecture may
/// reorder their kinds, and some simple po path joins them without
/// crossing a fence.
pub open spec fn is_delay(g: GraphView, arch: Architecture, u: usize, v: usize) -> bool {
    &&& !g.has_edge(u, v, AegEdge::Competing)
    &&& kind_ok(arch, g.nodes[u as int], g.nodes[v as int])
    &&& exists|p: Seq<usize>| #[trigger] is_simple_po_path(g, p, u, v) && fence_free(g, p) && p.len() <= g.nodes.len()
}

/// CS1: some step of the ring is a delay.
pub open spec fn cs1(g: GraphView, arch: Architecture, c: Seq<usize>) -> bool {
    exists|i: int| 0 <= i < c.len() && #[trigger] is_delay(g, arch, c[i], c[succ_index(i, c.len() as int)])
}

/// Every edge of `fences` is a po edge of the graph.
pub open spec fn po_edges_only(g: GraphView, fences: Seq<usize>) -> bool {
    forall|k: int|
        0 <= k < fences.len() ==> #[trigger] fences[k] < g.edges.len() && g.edges[fences[k] as int].kind
            == AegEdge::ProgramOrder
}

/// A step of a cycle: a competing edge, or a po connection.
pub open spec fn steps_to(g: GraphView, u: usize, v: usize) -> bool {
    g.has_edge(u, v, AegEdge::Competing) || g.po_reaches(u, v)
}

/// Each event of `c` steps to the next, the last to the first.
pub open spec fn is_ring(g: GraphView, c: Seq<usize>) -> bool {
    forall|i: int| 0 <= i < c.len() ==> #[trigger] steps_to(g, c[i], c[succ_index(i, c.len() as int)])
}

/// Each event of `c` but the last steps to the next.
pub open spec fn is_chain(g: GraphView, c: Seq<usize>) -> bool {
    forall|i: int| 0 <= i < c.len() - 1 ==> #[trigger] steps_to(g, c[i], c[i + 1])
}

/// Edge `e` joins the `j`-th and next node of `p`, a po walk from event
/// `i` of ring `c` to the next event, whose kinds the architecture may
/// reorder.
pub open spec fn edge_on_step(g: GraphView, arch: Architecture, c: Seq<usize>, i: int, p: Seq<usize>, j: int, e: usize) -> bool {
    let u = c[i];
    let v = c[succ_index(i, c.len() as int)];
    &&& 0 <= i < c.len()
    &&& p.len() >= 2 && p[0] == u && p.last() == v && g.is_po_walk(p)
    &&& kind_ok(arch, g.nodes[u as int], g.nodes[v as int])
    &&& 0 <= j < p.len() - 1
    &&& g.edges[e as int].source == p[j] && g.edges[e as int].target == p[j + 1]
}

/// Edge `e` lies on some step of ring `c` that the architecture may
/// reorder.
pub open spec fn on_some_step(g: GraphView, arch: Architecture, c: Seq<usize>, e: usize) -> bool {
    exists|i: int, p: Seq<usize>, j: int| #[trigger] edge_on_step(g, arch, c, i, p, j, e)
}

/// Edge `e` joins two consecutive nodes of `p`.
pub open spec fn edge_on_path(g: GraphView, e: usize, p: Seq<usize>) -> bool {
    exists|j: int| #![trigger p[j]] 0 <= j < p.len() - 1 && g.edges[e as int].source == p[j] && g.edges[e as int].target == p[j + 1]
}

/// Every edge of `fences` is a po edge on a po path between two
/// consecutive events of ring `c` that the architecture may reorder.
pub open spec fn fences_on_steps(g: GraphView, arch: Architecture, c: Seq<usize>, fences: Seq<usize>) -> bool {
    &&& po_edges_only(g, fences)
    &&& forall|m: int| 0 <= m < fences.len() ==> #[trigger] on_some_step(g, arch, c, fences[m])
}

/// The edges along a po walk between two consecutive events of a ring
/// that the architecture may reorder lie on that step.
proof fn lemma_path_fences(g: GraphView, arch: Architecture, c: Seq<usize>, i: int, p: Seq<usize>, es: Seq<usize>)
    requires
        0 <= i < c.len(),
        p.len() >= 2,
        p[0] == c[i],
        p.last() == c[succ_index(i, c.len() as int)],
        g.is_po_walk(p),
        kind_ok(arch, g.nodes[c[i] as int], g.nodes[c[succ_index(i, c.len() as int)] as int]),
        po_edges_only(g, es),
        forall|m: int| 0 <= m < es.len() ==> #[trigger] edge_on_path(g, es[m], p),
    ensures
        fences_on_steps(g, arch, c, es),
{
    assert forall|m: int| 0 <= m < es.len() implies #[trigger] on_some_step(g, arch, c, es[m]) by {
        assert(edge_on_path(g, es[m], p));
        let j = choose|j: int| #![trigger p[j]]
            0 <= j < p.len() - 1 && g.edges[es[m] as int].source == p[j] && g.edges[es[m] as int].target == p[j + 1];
        assert(edge_on_step(g, arch, c, i, p, j, es[m]));
    }
}

/// What every reported critical cycle satisfies.
pub open spec fn is_reported(g: GraphView, arch: Architecture, cc: CriticalCycle) -> bool {
    &&& cc.cycle@.len() >= 3
    &&& is_ring(g, cc.cycle@)
    &&& cc.cycle@.no_duplicates()
    &&& all_below(cc.cycle@, g.nodes.len())
    &&& cs1(g, arch, cc.cycle@)
    &&& cs2(g, cc.cycle@)
    &&& cs3(g, cc.cycle@)
    &&& fences_on_steps(g, arch, cc.cycle@, cc.potential_fences@)
}

/// Under TSO a delay goes from a write to a read.
pub proof fn lemma_tso_delay_is_write_read(g: GraphView, u: usize, v: usize)
    requires
        is_delay(g, Architecture::Tso, u, v),
    ensures
        g.nodes[u as int] is Write,
        g.nodes[v as int] is Read,
{
}

/// The first list of `p` is one of `a`, the second one of `b`.
pub open spec fn drawn_from(a: Seq<Vec<usize>>, b: Seq<Vec<usize>>, p: (Vec<usize>, Vec<usize>)) -> bool {
    exists|i: int, j: int| 0 <= i < a.len() && 0 <= j < b.len() && p.0@ == a[i]@ && p.1@ == b[j]@
}

/// Relies on `Itertools::cartesian_product`: every pair of an element of
/// `a` and an element of `b`, the element of `a` varying slowest.
#[verifier::external_body]
fn pairs(a: &Vec<Vec<usize>>, b: &Vec<Vec<usize>>) -> (r: Vec<(Vec<usize>, Vec<usize>)>)
    ensures
        r@.len() == a@.len() * b@.len(),
        forall|i: int, j: int|
            0 <= i < a@.len() && 0 <= j < b@.len() ==> #[trigger] r@[i * b@.len() + j].0@ == a@[i]@
                && r@[i * b@.len() + j].1@ == b@[j]@,
        forall|k: int| 0 <= k < r@.len() ==> #[trigger] drawn_from(a@, b@, r@[k]),
{
    a.iter().cartesian_product(b.iter()).map(|(x, y)| (x.clone(), y.clone())).collect()
}

} // verus!

verus! {

fn same_thread(a: &Node, b: &Node) -> (r: bool)
    ensures
        r == (a.thread() == b.thread()),
{
    *a.thread_name() == *b.thread_name()
}

/// How many events of `c` share the thread of its event `i`.
fn thread_count(aeg: &AbstractEventGraph, c: &Vec<usize>, i: usize) -> (r: usize)
    requires
        aeg.wf(),
        i < c@.len(),
        all_below(c@, aeg.gv().nodes.len()),
    ensures
        r == count_thread(aeg.gv(), c@, thread_at(aeg.gv(), c@, i as int), c@.len() as int),
{
    let ghost g = aeg.gv();
    let ghost t = thread_at(g, c@, i as int);
    let mut r: usize = 0;
    let mut k: usize = 0;
    while k < c.len()
        invariant
            k <= c@.len(),
            i < c@.len(),
            g == aeg.gv(),
            all_below(c@, g.nodes.len()),
            t == thread_at(g, c@, i as int),
            r == count_thread(g, c@, t, k as int),
            r <= k,
        decreases c@.len() - k,
    {
        proof {
            assert(count_thread(g, c@, t, k + 1) == count_thread(g, c@, t, k as int) + if thread_at(
                g,
                c@,
                k as int,
            ) == t {
                1nat
            } else {
                0nat
            });
        }
        let same = same_thread(node_at(&aeg.graph, c[k]), node_at(&aeg.graph, c[i]));
        proof {
            assert(same == (thread_at(g, c@, k as int) == t));
        }
        if same {
            r += 1;
        }
        k += 1;
    }
    r
}

/// How many events of `c` share the location of its event `i`.
fn mem_count(aeg: &AbstractEventGraph, c: &Vec<usize>, i: usize) -> (r: usize)
    requires
        aeg.wf(),
        i < c@.len(),
        all_below(c@, aeg.gv().nodes.len()),
    ensures
        r == count_mem(aeg.gv(), c@, mem_at(aeg.gv(), c@, i as int), c@.len() as int),
{
    let ghost g = aeg.gv();
    let ghost m = mem_at(g, c@, i as int);
    let mut r: usize = 0;
    let mut k: usize = 0;
    while k < c.len()
        invariant
            k <= c@.len(),
            i < c@.len(),
            g == aeg.gv(),
            all_below(c@, g.nodes.len()),
            m == mem_at(g, c@, i as int),
            r == count_mem(g, c@, m, k as int),
            r <= k,
        decreases c@.len() - k,
    {
        proof {
            assert(count_mem(g, c@, m, k + 1) == count_mem(g, c@, m, k as int) + if mem_at(
                g,
                c@,
                k as int,
            ) == m {
                1nat
            } else {
                0nat
            });
        }
        let same = same_memory(node_at(&aeg.graph, c[k]), node_at(&aeg.graph, c[i]));
        proof {
            assert(same == (mem_at(g, c@, k as int) == m));
        }
        if same {
            r += 1;
        }
        k += 1;
    }
    r
}

/// Whether the closed ring `c` satisfies CS2 and CS3.
fn ring_ok(aeg: &AbstractEventGraph, c: &Vec<usize>) -> (r: bool)
    requires
        aeg.wf(),
        all_below(c@, aeg.gv().nodes.len()),
    ensures
        r == (cs2(aeg.gv(), c@) && cs3(aeg.gv(), c@)),
{
    let ghost g = aeg.gv();
    let n = c.len();
    let mut i: usize = 0;
    while i < n
        invariant
            n == c@.len(),
            i <= n,
            g == aeg.gv(),
            aeg.wf(),
            all_below(c@, g.nodes.len()),
            forall|a: int| 0 <= a < i ==> count_thread(g, c@, #[trigger] thread_at(g, c@, a), n as int) <= 2,
            forall|a: int| 0 <= a < i ==> count_mem(g, c@, #[trigger] mem_at(g, c@, a), n as int) <= 3,
            forall|a: int, b: int|
                0 <= a < i && 0 <= b < n && a != b && #[trigger] thread_at(g, c@, a) == #[trigger] thread_at(g, c@, b)
                    ==> circ_adjacent(a, b, n as int) && mem_at(g, c@, a) != mem_at(g, c@, b),
            forall|a: int, b: int|
                0 <= a < i && 0 <= b < n && a != b && #[trigger] mem_at(g, c@, a) == #[trigger] mem_at(g, c@, b)
                    ==> thread_at(g, c@, a) != thread_at(g, c@, b) && !(run_end(g, c@, a) && run_end(g, c@, b)),
        decreases n - i,
    {
        if thread_count(aeg, c, i) > 2 || mem_count(aeg, c, i) > 3 {
            proof {
                assert(thread_at(g, c@, i as int) == thread_at(g, c@, i as int));
                assert(mem_at(g, c@, i as int) == mem_at(g, c@, i as int));
            }
            return false;
        }
        let ni = if i + 1 < n { i + 1 } else { 0 };
        let end_i = !same_memory(node_at(&aeg.graph, c[i]), node_at(&aeg.graph, c[ni]));
        let mut j: usize = 0;
        while j < n
            invariant
                n == c@.len(),
                i < n,
                j <= n,
                ni == succ_index(i as int, n as int),
                end_i == run_end(g, c@, i as int),
                g == aeg.gv(),
                aeg.wf(),
                all_below(c@, g.nodes.len()),
                forall|b: int|
                    0 <= b < j && b != i && thread_at(g, c@, i as int) == #[trigger] thread_at(g, c@, b)
                        ==> circ_adjacent(i as int, b, n as int) && mem_at(g, c@, i as int) != mem_at(g, c@, b),
                forall|b: int|
                    0 <= b < j && b != i && mem_at(g, c@, i as int) == #[trigger] mem_at(g, c@, b)
                        ==> thread_at(g, c@, i as int) != thread_at(g, c@, b) && !(run_end(g, c@, i as int)
                        && run_end(g, c@, b)),
            decreases n - j,
        {
            if j != i {
                let a = node_at(&aeg.graph, c[i]);
                let b = node_at(&aeg.graph, c[j]);
                let nj = if j + 1 < n { j + 1 } else { 0 };
                let adjacent = nj == i || ni == j;
                proof {
                    assert(adjacent == circ_adjacent(i as int, j as int, n as int));
                }
                if same_thread(a, b) && (!adjacent || same_memory(a, b)) {
                    proof {
                        assert(thread_at(g, c@, i as int) == thread_at(g, c@, j as int));
                    }
                    return false;
                }
                if same_memory(a, b) {
                    let end_j = !same_memory(b, node_at(&aeg.graph, c[nj]));
                    proof {
                        assert(mem_at(g, c@, i as int) == mem_at(g, c@, j as int));
                        assert(end_j == run_end(g, c@, j as int));
                    }
                    if same_thread(a, b) || (end_i && end_j) {
                        return false;
                    }
                }
            }
            j += 1;
        }
        i += 1;
    }
    true
}

/// Whether the architecture may reorder an event of kind `a` with a later
/// one of kind `b`.
fn kind_allows(arch: Architecture, a: &Node, b: &Node) -> (r: bool)
    requires
        arch != Architecture::Arm,
    ensures
        r == kind_ok(arch, *a, *b),
{
    match arch {
        Architecture::Tso => matches!(a, Node::Write(..)) && matches!(b, Node::Read(..)),
        _ => true,
    }
}

/// The index of a po edge from `a` to `b`, if there is one.
fn po_edge_index(aeg: &AbstractEventGraph, a: usize, b: usize) -> (r: Option<usize>)
    requires
        aeg.wf(),
    ensures
        r matches Some(e) ==> e < aeg.gv().edges.len() && aeg.gv().edges[e as int].kind
            == AegEdge::ProgramOrder && aeg.gv().edges[e as int].source == a && aeg.gv().edges[e as int].target
            == b,
{
    let es = out_edges(&aeg.graph, a);
    let mut i: usize = 0;
    while i < es.len()
        invariant
            aeg.wf(),
            i <= es@.len(),
            forall|x: usize| #[trigger]
                es@.contains(x) <==> (x < aeg.gv().edges.len()
                    && aeg.gv().edges[x as int].source == a),
        decreases es@.len() - i,
    {
        proof {
            assert(es@.contains(es@[i as int]));
        }
        let (_, t, kind) = edge_at(&aeg.graph, es[i]);
        if t == b && kind == AegEdge::ProgramOrder {
            return Some(es[i]);
        }
        i += 1;
    }
    None
}

/// The po edges along a path.
fn path_edges(aeg: &AbstractEventGraph, p: &Vec<usize>) -> (r: Vec<usize>)
    requires
        aeg.wf(),
    ensures
        po_edges_only(aeg.gv(), r@),
        forall|m: int| 0 <= m < r@.len() ==> #[trigger] edge_on_path(aeg.gv(), r@[m], p@),
{
    let mut r: Vec<usize> = Vec::new();
    let mut k: usize = 1;
    while k < p.len()
        invariant
            aeg.wf(),
            1 <= k,
            po_edges_only(aeg.gv(), r@),
            forall|m: int| 0 <= m < r@.len() ==> #[trigger] edge_on_path(aeg.gv(), r@[m], p@),
        decreases p@.len() - k,
    {
        if let Some(e) = po_edge_index(aeg, p[k - 1], p[k]) {
            let ghost r0 = r@;
            r.push(e);
            proof {
                assert forall|m: int| 0 <= m < r@.len() implies #[trigger] r@[m] < aeg.gv().edges.len()
                    && aeg.gv().edges[r@[m] as int].kind == AegEdge::ProgramOrder by {
                    if m < r@.len() - 1 {
                        assert(r@[m] == r@.drop_last()[m]);
                    }
                }
                assert forall|m: int| 0 <= m < r@.len() implies #[trigger] edge_on_path(aeg.gv(), r@[m], p@) by {
                    if m < r0.len() {
                        assert(r@[m] == r0[m]);
                        assert(edge_on_path(aeg.gv(), r0[m], p@));
                    } else {
                        let j = k - 1;
                        assert(aeg.gv().edges[r@[m] as int].source == p@[j] && aeg.gv().edges[r@[m] as int].target == p@[j + 1]);
                    }
                }
            }
        }
        k += 1;
    }
    r
}

/// Whether no event of the path is a fence.
fn no_fence_on(aeg: &AbstractEventGraph, p: &Vec<usize>) -> (r: bool)
    requires
        aeg.wf(),
        all_below(p@, aeg.gv().nodes.len()),
    ensures
        r == fence_free(aeg.gv(), p@),
{
    let mut k: usize = 0;
    while k < p.len()
        invariant
            aeg.wf(),
            k <= p@.len(),
            all_below(p@, aeg.gv().nodes.len()),
            forall|m: int| 0 <= m < k ==> !(#[trigger] aeg.gv().nodes[p@[m] as int] is Fence),
        decreases p@.len() - k,
    {
        if matches!(node_at(&aeg.graph, p[k]), Node::Fence(..)) {
            return false;
        }
        k += 1;
    }
    true
}

/// Every concatenation of a list of `acc` with one of `seg`, the list of
/// `acc` varying slowest.
fn product(
    acc: &Vec<Vec<usize>>,
    seg: &Vec<Vec<usize>>,
    gh: Ghost<GraphView>,
    arch: Ghost<Architecture>,
    c: Ghost<Seq<usize>>,
) -> (r: Vec<Vec<usize>>)
    requires
        forall|k: int| 0 <= k < acc@.len() ==> fences_on_steps(gh@, arch@, c@, #[trigger] acc@[k]@),
        forall|k: int| 0 <= k < seg@.len() ==> fences_on_steps(gh@, arch@, c@, #[trigger] seg@[k]@),
    ensures
        forall|k: int| 0 <= k < r@.len() ==> fences_on_steps(gh@, arch@, c@, #[trigger] r@[k]@),
        r@.len() == acc@.len() * seg@.len(),
{
    let ghost g = gh@;
    let ps = pairs(acc, seg);
    let mut r: Vec<Vec<usize>> = Vec::new();
    let mut k: usize = 0;
    while k < ps.len()
        invariant
            k <= ps@.len(),
            forall|m: int| 0 <= m < acc@.len() ==> fences_on_steps(g, arch@, c@, #[trigger] acc@[m]@),
            forall|m: int| 0 <= m < seg@.len() ==> fences_on_steps(g, arch@, c@, #[trigger] seg@[m]@),
            forall|m: int| 0 <= m < ps@.len() ==> #[trigger] drawn_from(acc@, seg@, ps@[m]),
            forall|m: int| 0 <= m < r@.len() ==> fences_on_steps(g, arch@, c@, #[trigger] r@[m]@),
            r@.len() == k,
        decreases ps@.len() - k,
    {
        let mut v = copy_vec(&ps[k].0);
        crate::builder::append_all(&mut v, &ps[k].1);
        proof {
            assert(drawn_from(acc@, seg@, ps@[k as int]));
            let (i, j) = choose|i: int, j: int|
                0 <= i < acc@.len() && 0 <= j < seg@.len() && ps@[k as int].0@ == acc@[i]@
                    && ps@[k as int].1@ == seg@[j]@;
            assert(fences_on_steps(g, arch@, c@, acc@[i]@));
            assert(fences_on_steps(g, arch@, c@, seg@[j]@));
            let a = ps@[k as int].0@;
            let b = ps@[k as int].1@;
            assert forall|m: int| 0 <= m < v@.len() implies #[trigger] v@[m] < g.edges.len()
                && g.edges[v@[m] as int].kind == AegEdge::ProgramOrder by {
                if m < a.len() {
                    assert(v@[m] == a[m]);
                } else {
                    assert(v@[m] == b[m - a.len()]);
                }
            }
            assert forall|m: int| 0 <= m < v@.len() implies #[trigger] on_some_step(g, arch@, c@, v@[m]) by {
                if m < a.len() {
                    assert(v@[m] == a[m]);
                    assert(on_some_step(g, arch@, c@, a[m]));
                } else {
                    assert(v@[m] == b[m - a.len()]);
                    assert(on_some_step(g, arch@, c@, b[m - a.len()]));
                }
            }
        }
        r.push(v);
        k += 1;
    }
    r
}

} // verus!

verus! {

/// The critical-cycle records of a closed ring: none unless it satisfies
/// CS2 and CS3 as a ring and has a delay; otherwise one per way of picking
/// a po path for each step whose kinds the architecture may reorder.
fn complete(aeg: &AbstractEventGraph, cycle: &Vec<usize>) -> (r: Vec<CriticalCycle>)
    requires
        aeg.wf(),
        aeg.config.architecture != Architecture::Arm,
        cycle@.len() >= 3,
        cycle@.no_duplicates(),
        all_below(cycle@, aeg.gv().nodes.len()),
        is_ring(aeg.gv(), cycle@),
    ensures
        forall|k: int| 0 <= k < r@.len() ==> #[trigger] is_reported(aeg.gv(), aeg.config.architecture, r@[k]),
        forall|k: int| 0 <= k < r@.len() ==> (#[trigger] r@[k]).cycle@ == cycle@,
        cs1(aeg.gv(), aeg.config.architecture, cycle@) && cs2(aeg.gv(), cycle@) && cs3(aeg.gv(), cycle@)
            ==> r@.len() > 0,
{
    let ghost g = aeg.gv();
    let arch = aeg.config.architecture;
    if !ring_ok(aeg, cycle) {
        return Vec::new();
    }
    let n = cycle.len();
    let mut segments: Vec<Vec<Vec<usize>>> = Vec::new();
    let mut delay = false;
    let mut i: usize = 0;
    while i < n
        invariant
            aeg.wf(),
            g == aeg.gv(),
            arch == aeg.config.architecture,
            arch != Architecture::Arm,
            n == cycle@.len(),
            n >= 3,
            cycle@.no_duplicates(),
            all_below(cycle@, g.nodes.len()),
            i <= n,
            delay ==> cs1(g, arch, cycle@),
            (exists|j: int| 0 <= j < i && #[trigger] is_delay(g, arch, cycle@[j], cycle@[succ_index(j, n as int)]))
                ==> delay,
            forall|s: int, l: int|
                0 <= s < segments@.len() && 0 <= l < segments@[s]@.len() ==> fences_on_steps(
                    g,
                    arch,
                    cycle@,
                    #[trigger] segments@[s]@[l]@,
                ),
            forall|s: int| 0 <= s < segments@.len() ==> (#[trigger] segments@[s])@.len() > 0,
        decreases n - i,
    {
        let j = if i + 1 < n { i + 1 } else { 0 };
        let u = cycle[i];
        let v = cycle[j];
        proof {
            assert(j == succ_index(i as int, n as int));
            assert(u != v);
        }
        if kind_allows(arch, node_at(&aeg.graph, u), node_at(&aeg.graph, v)) {
            let paths = all_simple_po_paths(aeg, u, v, 0, None);
            if !delay {
                let competing = aeg.successors(u, AegEdge::Competing);
                if !vec_contains(&competing, v) {
                    let mut k: usize = 0;
                    while k < paths.len()
                        invariant
                            aeg.wf(),
                            g == aeg.gv(),
                            u != v,
                            u == cycle@[i as int],
                            v == cycle@[succ_index(i as int, n as int)],
                            0 <= i < n,
                            n == cycle@.len(),
                            all_below(cycle@, g.nodes.len()),
                            !g.has_edge(u, v, AegEdge::Competing),
                            kind_ok(arch, g.nodes[u as int], g.nodes[v as int]),
                            forall|m: int| 0 <= m < paths@.len() ==> #[trigger] is_simple_po_path(g, paths@[m]@, u, v),
                            forall|m: int| 0 <= m < paths@.len() ==> (#[trigger] paths@[m])@.len() <= g.nodes.len(),
                            delay ==> cs1(g, arch, cycle@),
                            k <= paths@.len(),
                            !delay ==> forall|m: int| 0 <= m < k ==> !fence_free(g, #[trigger] paths@[m]@),
                        decreases paths@.len() - k,
                    {
                        proof {
                            assert(is_simple_po_path(g, paths@[k as int]@, u, v));
                            assert forall|x: int| 0 <= x < paths@[k as int]@.len() implies #[trigger] paths@[k as int]@[x]
                                < g.nodes.len() by {
                                let p = paths@[k as int]@;
                                if x < p.len() - 1 {
                                    assert(g.po_edge(p[x], p[x + 1]));
                                    let e = choose|e: int| 0 <= e < g.edges.len() && #[trigger] g.edges[e] == (crate::graph::EdgeView {
                                        source: p[x],
                                        target: p[x + 1],
                                        kind: AegEdge::ProgramOrder,
                                    });
                                    assert(g.edges[e].source < g.nodes.len());
                                } else {
                                    assert(p[x] == v);
                                    assert(cycle@[succ_index(i as int, n as int)] < g.nodes.len());
                                }
                            }
                        }
                        if no_fence_on(aeg, &paths[k]) {
                            proof {
                                assert(paths@[k as int]@.len() <= g.nodes.len());
                                assert(is_delay(g, arch, u, v));
                                assert(is_delay(g, arch, cycle@[i as int], cycle@[succ_index(i as int, n as int)]));
                            }
                            delay = true;
                        }
                        k += 1;
                    }
                    proof {
                        if is_delay(g, arch, u, v) && !delay {
                            let p = choose|p: Seq<usize>| #[trigger] is_simple_po_path(g, p, u, v) && fence_free(g, p) && p.len() <= g.nodes.len();
                            assert(crate::simple_paths::listed(paths@, p));
                            let m = choose|m: int| 0 <= m < paths@.len() && #[trigger] paths@[m]@ == p;
                            assert(!fence_free(g, paths@[m]@));
                        }
                    }
                } else {
                    proof {
                        assert(competing@.contains(v));
                        assert(!is_delay(g, arch, u, v));
                    }
                }
            }
            proof {
                assert(is_delay(g, arch, u, v) ==> delay);
                assert forall|j: int| 0 <= j < i + 1 && #[trigger] is_delay(g, arch, cycle@[j], cycle@[succ_index(j, n as int)]) implies delay by {
                    if j == i {
                        assert(cycle@[succ_index(j, n as int)] == v);
                    }
                }
            }
            let mut lists: Vec<Vec<usize>> = Vec::new();
            if aeg.config.skip_branches {
                if let Some(p) = aeg.po_between(u, v) {
                    let es = path_edges(aeg, &p);
                    proof {
                        lemma_path_fences(g, arch, cycle@, i as int, p@, es@);
                    }
                    lists.push(es);
                }
            }
            let mut k: usize = if aeg.config.skip_branches { paths.len() } else { 0 };
            while k < paths.len()
                invariant
                    aeg.wf(),
                    g == aeg.gv(),
                    0 <= i < n,
                    n == cycle@.len(),
                    u == cycle@[i as int],
                    v == cycle@[succ_index(i as int, n as int)],
                    kind_ok(arch, g.nodes[u as int], g.nodes[v as int]),
                    forall|m: int|
                        0 <= m < paths@.len() ==> (#[trigger] paths@[m])@.len() >= 2 && paths@[m]@[0] == u
                            && paths@[m]@.last() == v && g.is_po_walk(paths@[m]@),
                    forall|m: int| 0 <= m < lists@.len() ==> fences_on_steps(g, arch, cycle@, #[trigger] lists@[m]@),
                decreases paths@.len() - k,
            {
                let es = path_edges(aeg, &paths[k]);
                proof {
                    assert(paths@[k as int]@.len() >= 2);
                    lemma_path_fences(g, arch, cycle@, i as int, paths@[k as int]@, es@);
                }
                lists.push(es);
                proof {
                    assert forall|m: int| 0 <= m < lists@.len() implies fences_on_steps(g, arch, cycle@, #[trigger] lists@[m]@) by {
                        if m < lists@.len() - 1 {
                            assert(lists@[m] == lists@.drop_last()[m]);
                        }
                    }
                }
                k += 1;
            }
            if lists.len() > 0 {
                let ghost s0 = segments@;
                segments.push(lists);
                proof {
                    assert forall|s: int, l: int|
                        0 <= s < segments@.len() && 0 <= l < segments@[s]@.len() implies fences_on_steps(
                        g,
                        arch,
                        cycle@,
                        #[trigger] segments@[s]@[l]@,
                    ) by {
                        if s < s0.len() {
                            assert(segments@[s] == s0[s]);
                        }
                    }
                }
            }
        }
        i += 1;
    }
    proof {
        if cs1(g, arch, cycle@) {
            let j = choose|j: int| 0 <= j < cycle@.len() && #[trigger] is_delay(g, arch, cycle@[j], cycle@[succ_index(j, cycle@.len() as int)]);
            assert(is_delay(g, arch, cycle@[j], cycle@[succ_index(j, n as int)]));
        }
    }
    if !delay {
        return Vec::new();
    }
    let mut combos: Vec<Vec<usize>> = Vec::new();
    combos.push(Vec::new());
    let mut s: usize = 0;
    while s < segments.len()
        invariant
            combos@.len() > 0,
            forall|s: int| 0 <= s < segments@.len() ==> (#[trigger] segments@[s])@.len() > 0,
            forall|m: int| 0 <= m < combos@.len() ==> fences_on_steps(g, arch, cycle@, #[trigger] combos@[m]@),
            forall|s: int, l: int|
                0 <= s < segments@.len() && 0 <= l < segments@[s]@.len() ==> fences_on_steps(
                    g,
                    arch,
                    cycle@,
                    #[trigger] segments@[s]@[l]@,
                ),
        decreases segments@.len() - s,
    {
        let ghost a = combos@.len();
        let ghost b = segments@[s as int]@.len();
        combos = product(&combos, &segments[s], Ghost(g), Ghost(arch), Ghost(cycle@));
        proof {
            assert(a * b > 0) by (nonlinear_arith)
                requires
                    a > 0,
                    b > 0,
            ;
        }
        s += 1;
    }
    let mut out: Vec<CriticalCycle> = Vec::new();
    let mut k: usize = 0;
    while k < combos.len()
        invariant
            g == aeg.gv(),
            arch == aeg.config.architecture,
            cycle@.len() >= 3,
            cycle@.no_duplicates(),
            all_below(cycle@, g.nodes.len()),
            is_ring(g, cycle@),
            cs1(g, arch, cycle@),
            cs2(g, cycle@),
            cs3(g, cycle@),
            forall|m: int| 0 <= m < combos@.len() ==> fences_on_steps(g, arch, cycle@, #[trigger] combos@[m]@),
            forall|m: int| 0 <= m < out@.len() ==> #[trigger] is_reported(g, arch, out@[m]),
            forall|m: int| 0 <= m < out@.len() ==> (#[trigger] out@[m]).cycle@ == cycle@,
            out@.len() == k,
            k <= combos@.len(),
            combos@.len() > 0,
        decreases combos@.len() - k,
    {
        let cc = CriticalCycle { cycle: copy_vec(cycle), potential_fences: copy_vec(&combos[k]) };
        proof {
            assert(fences_on_steps(g, arch, cycle@, combos@[k as int]@));
        }
        out.push(cc);
        proof {
            assert forall|m: int| 0 <= m < out@.len() implies #[trigger] is_reported(g, arch, out@[m])
                && out@[m].cycle@ == cycle@ by {
                if m < out@.len() - 1 {
                    assert(out@[m] == out@.drop_last()[m]);
                }
            }
        }
        k += 1;
    }
    out
}

} // verus!

verus! {

/// The incremental rules for extending an incomplete cycle `c` by `node`:
/// the node is new and not a fence; a ring whose ends share a thread can
/// only be closed; CS2: the node's thread has no event yet, or one that is
/// the first or last event and on another location; CS3: the node's
/// location has at most two accesses, none from its thread, and the first
/// or last event is on that location.
pub open spec fn can_add(g: GraphView, c: Seq<usize>, node: usize) -> bool {
    let nd = g.nodes[node as int];
    let n = c.len() as int;
    if c.contains(node) || nd is Fence {
        false
    } else if n == 0 {
        true
    } else {
        let first = g.nodes[c[0] as int];
        let last = g.nodes[c[n - 1] as int];
        let t = nd.thread();
        let m = nd.memory();
        let tc = count_thread(g, c, t, n);
        let mc = count_mem(g, c, m, n);
        let mem_same_thread = exists|i: int| 0 <= i < n && #[trigger] mem_at(g, c, i) == m && thread_at(g, c, i) == t;
        if n >= 3 && last.thread() == first.thread() {
            false
        } else {
            let cs2 = tc == 0 || (tc == 1 && ((last.thread() == t && last.memory() != m) || (first.thread()
                == t && first.memory() != m)));
            let cs3 = mc == 0 || (mc <= 2 && !mem_same_thread && (last.memory() == m || first.memory() == m));
            cs2 && cs3
        }
    }
}

/// Whether `node` may extend the incomplete cycle `cycle`.
fn can_add_node(aeg: &AbstractEventGraph, cycle: &Vec<usize>, node: usize) -> (r: bool)
    requires
        aeg.wf(),
        node < aeg.gv().nodes.len(),
        all_below(cycle@, aeg.gv().nodes.len()),
    ensures
        r == can_add(aeg.gv(), cycle@, node),
{
    let ghost g = aeg.gv();
    if vec_contains(cycle, node) {
        return false;
    }
    let nd = node_at(&aeg.graph, node);
    let (thread, addr) = match nd {
        Node::Write(t, a) => (t, a),
        Node::Read(t, a) => (t, a),
        Node::Fence(_, _) => {
            return false;
        },
    };
    let ghost t = nd.thread();
    let ghost m = nd.memory();
    let len = cycle.len();
    if len == 0 {
        return true;
    }
    let first = node_at(&aeg.graph, cycle[0]);
    let last = node_at(&aeg.graph, cycle[len - 1]);
    if len >= 3 && *last.thread_name() == *first.thread_name() {
        return false;
    }
    let mut same_thread_count: usize = 0;
    let mut same_mem_count: usize = 0;
    let mut mem_same_thread = false;
    let mut k: usize = 0;
    while k < len
        invariant
            aeg.wf(),
            g == aeg.gv(),
            len == cycle@.len(),
            all_below(cycle@, g.nodes.len()),
            k <= len,
            thread@ == t,
            Some(addr@) == m,
            same_thread_count == count_thread(g, cycle@, t, k as int),
            same_mem_count == count_mem(g, cycle@, m, k as int),
            same_thread_count <= k,
            same_mem_count <= k,
            mem_same_thread == exists|i: int| 0 <= i < k && #[trigger] mem_at(g, cycle@, i) == m && thread_at(g, cycle@, i) == t,
        decreases len - k,
    {
        let other = node_at(&aeg.graph, cycle[k]);
        let shares_mem = match other.address() {
            Some(om) => *om == *addr,
            None => false,
        };
        let shares_thread = *other.thread_name() == *thread;
        proof {
            assert(shares_mem == (mem_at(g, cycle@, k as int) == m));
            assert(shares_thread == (thread_at(g, cycle@, k as int) == t));
            assert(count_thread(g, cycle@, t, k + 1) == count_thread(g, cycle@, t, k as int) + if thread_at(g, cycle@, k as int) == t { 1nat } else { 0nat });
            assert(count_mem(g, cycle@, m, k + 1) == count_mem(g, cycle@, m, k as int) + if mem_at(g, cycle@, k as int) == m { 1nat } else { 0nat });
        }
        if shares_thread {
            same_thread_count += 1;
        }
        if shares_mem {
            same_mem_count += 1;
            if shares_thread {
                mem_same_thread = true;
            }
        }
        k += 1;
        proof {
            assert(mem_same_thread == exists|i: int| 0 <= i < k && #[trigger] mem_at(g, cycle@, i) == m && thread_at(g, cycle@, i) == t) by {
                if exists|i: int| 0 <= i < k && #[trigger] mem_at(g, cycle@, i) == m && thread_at(g, cycle@, i) == t {
                    let i = choose|i: int| 0 <= i < k && #[trigger] mem_at(g, cycle@, i) == m && thread_at(g, cycle@, i) == t;
                    if i < k - 1 {
                        assert(exists|i2: int| 0 <= i2 < k - 1 && #[trigger] mem_at(g, cycle@, i2) == m && thread_at(g, cycle@, i2) == t);
                    }
                }
            }
        }
    }
    let last_addr_differs = match last.address() {
        Some(lm) => *lm != *addr,
        None => true,
    };
    let first_addr_differs = match first.address() {
        Some(fm) => *fm != *addr,
        None => true,
    };
    let last_same_thread = *last.thread_name() == *thread;
    let first_same_thread = *first.thread_name() == *thread;
    let cs2 = if same_thread_count == 0 {
        true
    } else if same_thread_count == 1 {
        (last_same_thread && last_addr_differs) || (first_same_thread && first_addr_differs)
    } else {
        false
    };
    let cs3 = if same_mem_count == 0 {
        true
    } else if same_mem_count <= 2 {
        !mem_same_thread && (!last_addr_differs || !first_addr_differs)
    } else {
        false
    };
    cs2 && cs3
}

/// Some record of `out` is for ring `q`.
pub open spec fn reports(out: Seq<CriticalCycle>, q: Seq<usize>) -> bool {
    exists|k: int| 0 <= k < out.len() && #[trigger] out[k].cycle@ == q
}

/// `q` is a critical ring that the search from the incomplete cycle `c`
/// admits: it extends `c` one step at a time along competing edges or po
/// connections, through events no lower than `start`, each allowed by the
/// incremental rules; it closes back to its first event; and it satisfies
/// CS1, CS2 and CS3.
pub open spec fn admitted_from(g: GraphView, arch: Architecture, c: Seq<usize>, q: Seq<usize>, start: usize) -> bool {
    &&& c.len() >= 1
    &&& c.len() <= q.len() <= g.nodes.len()
    &&& q.len() >= 3
    &&& q.subrange(0, c.len() as int) == c
    &&& forall|k: int|
        c.len() <= k < q.len() ==> #[trigger] q[k] >= start && steps_to(g, q[k - 1], q[k]) && can_add(
            g,
            q.take(k),
            q[k],
        )
    &&& steps_to(g, q.last(), q[0])
    &&& q[0] >= start
    &&& cs1(g, arch, q)
    &&& cs2(g, q)
    &&& cs3(g, q)
}

/// `q` is a critical ring that the search admits from its first event:
/// that event is not a fence, no event of `q` has a lower index, and each
/// later event is allowed by the incremental rules.
pub open spec fn admitted_ring(g: GraphView, arch: Architecture, q: Seq<usize>) -> bool {
    &&& q.len() >= 1
    &&& q[0] < g.nodes.len()
    &&& !(g.nodes[q[0] as int] is Fence)
    &&& admitted_from(g, arch, seq![q[0]], q, q[0])
}

proof fn lemma_reports_grows(a: Seq<CriticalCycle>, b: Seq<CriticalCycle>, q: Seq<usize>)
    requires
        reports(a, q),
        a.len() <= b.len(),
        b.subrange(0, a.len() as int) == a,
    ensures
        reports(b, q),
{
    let k = choose|k: int| 0 <= k < a.len() && #[trigger] a[k].cycle@ == q;
    assert(b.subrange(0, a.len() as int)[k] == a[k]);
    assert(b[k].cycle@ == q);
}

proof fn lemma_prefix_trans(a: Seq<CriticalCycle>, b: Seq<CriticalCycle>, c: Seq<CriticalCycle>)
    requires
        a.len() <= b.len(),
        b.subrange(0, a.len() as int) == a,
        b.len() <= c.len(),
        c.subrange(0, b.len() as int) == b,
    ensures
        c.subrange(0, a.len() as int) == a,
{
    assert forall|k: int| 0 <= k < a.len() implies c.subrange(0, a.len() as int)[k] == a[k] by {
        assert(c.subrange(0, b.len() as int)[k] == b[k]);
        assert(b.subrange(0, a.len() as int)[k] == a[k]);
    }
    assert(c.subrange(0, a.len() as int) =~= a);
}

/// A ring admitted from `c` whose next event is `x` is admitted from `c`
/// followed by `x`.
proof fn lemma_admitted_step(g: GraphView, arch: Architecture, c: Seq<usize>, q: Seq<usize>, start: usize)
    requires
        admitted_from(g, arch, c, q, start),
        q.len() > c.len(),
    ensures
        admitted_from(g, arch, c.push(q[c.len() as int]), q, start),
{
    let c1 = c.push(q[c.len() as int]);
    assert(q.subrange(0, c1.len() as int) =~= c1) by {
        assert forall|k: int| 0 <= k < c1.len() implies q.subrange(0, c1.len() as int)[k] == c1[k] by {
            if k < c.len() {
                assert(q.subrange(0, c.len() as int)[k] == c[k]);
            }
        }
    }
}

/// Depth-first search for the critical cycles that extend `cycle`, whose
/// nodes are all at least `start`: the rings it closes are completed in
/// neighbour order, then its extensions are searched, the last one first.
fn explore(
    aeg: &AbstractEventGraph,
    cycle: &mut Vec<usize>,
    start: usize,
    out: &mut Vec<CriticalCycle>,
    depth: usize,
)
    requires
        aeg.wf(),
        aeg.config.architecture != Architecture::Arm,
        depth == old(cycle)@.len(),
        1 <= depth <= aeg.gv().nodes.len(),
        old(cycle)@.no_duplicates(),
        all_below(old(cycle)@, aeg.gv().nodes.len()),
        is_chain(aeg.gv(), old(cycle)@),
        forall|k: int|
            0 <= k < old(out)@.len() ==> #[trigger] is_reported(
                aeg.gv(),
                aeg.config.architecture,
                old(out)@[k],
            ),
    ensures
        final(cycle)@ == old(cycle)@,
        forall|k: int|
            0 <= k < final(out)@.len() ==> #[trigger] is_reported(
                aeg.gv(),
                aeg.config.architecture,
                final(out)@[k],
            ),
        old(out)@.len() <= final(out)@.len(),
        final(out)@.subrange(0, old(out)@.len() as int) == old(out)@,
        forall|q: Seq<usize>|
            #[trigger] admitted_from(aeg.gv(), aeg.config.architecture, old(cycle)@, q, start) ==> reports(
                final(out)@,
                q,
            ),
    decreases aeg.gv().nodes.len() - depth,
{
    let ghost c0 = cycle@;
    let ghost o0 = out@;
    let ghost g = aeg.gv();
    let ghost arch = aeg.config.architecture;
    let n = node_count(&aeg.graph);
    let node = cycle[cycle.len() - 1];
    let succs = aeg.neighbors(node);
    let mut children: Vec<usize> = Vec::new();
    let mut i: usize = 0;
    while i < succs.len()
        invariant
            aeg.wf(),
            g == aeg.gv(),
            arch == aeg.config.architecture,
            arch != Architecture::Arm,
            n == g.nodes.len(),
            cycle@ == c0,
            c0.len() >= 1,
            c0.no_duplicates(),
            all_below(c0, n as nat),
            all_below(succs@, n as nat),
            all_below(children@, n as nat),
            forall|m: int| 0 <= m < children@.len() ==> !c0.contains(#[trigger] children@[m]),
            forall|k: int| 0 <= k < out@.len() ==> #[trigger] is_reported(g, arch, out@[k]),
            node == c0.last(),
            is_chain(g, c0),
            forall|v: usize| #[trigger] succs@.contains(v) <==> steps_to(g, node, v),
            forall|m: int| 0 <= m < children@.len() ==> #[trigger] steps_to(g, node, children@[m]),
            i <= succs@.len(),
            o0 == old(out)@,
            o0.len() <= out@.len(),
            out@.subrange(0, o0.len() as int) == o0,
            admitted_from(g, arch, c0, c0, start) && crate::simple_paths::seen_before(succs@, i as int, c0[0])
                ==> reports(out@, c0),
            forall|v: usize|
                crate::simple_paths::seen_before(succs@, i as int, v) && v >= start && #[trigger] can_add(g, c0, v)
                    ==> children@.contains(v),
        decreases succs@.len() - i,
    {
        let succ = succs[i];
        let ghost out_b = out@;
        let ghost ch_b = children@;
        if succ >= start {
            proof {
                assert(succs@.contains(succ));
            }
            if can_add_node(aeg, cycle, succ) {
                children.push(succ);
                proof {
                    assert(children@[ch_b.len() as int] == succ);
                    assert forall|v: usize| ch_b.contains(v) implies #[trigger] children@.contains(v) by {
                        let j = choose|j: int| 0 <= j < ch_b.len() && ch_b[j] == v;
                        assert(children@[j] == v);
                    }
                }
            } else if succ == cycle[0] && cycle.len() > 2 {
                proof {
                    assert forall|k: int| 0 <= k < c0.len() implies #[trigger] steps_to(g, c0[k], c0[succ_index(k, c0.len() as int)]) by {
                        if k < c0.len() - 1 {
                            assert(steps_to(g, c0[k], c0[k + 1]));
                        } else {
                            assert(c0[k] == node);
                        }
                    }
                }
                let mut found = complete(aeg, cycle);
                let ghost ob = out@;
                let ghost f0 = found@;
                out.append(&mut found);
                proof {
                    assert forall|m: int| 0 <= m < out@.len() implies #[trigger] is_reported(g, arch, out@[m]) by {
                        if m < ob.len() {
                            assert(out@[m] == ob[m]);
                        } else {
                            assert(out@[m] == f0[m - ob.len()]);
                        }
                    }
                    assert(out@.subrange(0, ob.len() as int) =~= ob);
                    if admitted_from(g, arch, c0, c0, start) {
                        assert(c0.subrange(0, c0.len() as int) =~= c0);
                        assert(f0.len() > 0);
                        assert(out@[ob.len() as int] == f0[0]);
                        assert(out@[ob.len() as int].cycle@ == c0);
                        assert(reports(out@, c0));
                    }
                }
            }
        }
        proof {
            assert(out_b.len() <= out@.len() && out@.subrange(0, out_b.len() as int) == out_b) by {
                if out@ == out_b {
                    assert(out@.subrange(0, out_b.len() as int) =~= out_b);
                }
            }
            lemma_prefix_trans(o0, out_b, out@);
            assert forall|v: usize| ch_b.contains(v) implies #[trigger] children@.contains(v) by {
                let j = choose|j: int| 0 <= j < ch_b.len() && ch_b[j] == v;
                assert(children@[j] == v);
            }
            if admitted_from(g, arch, c0, c0, start) && crate::simple_paths::seen_before(succs@, i + 1, c0[0]) {
                if crate::simple_paths::seen_before(succs@, i as int, c0[0]) {
                    lemma_reports_grows(out_b, out@, c0);
                } else {
                    assert(succ == c0[0]);
                    assert(c0.contains(c0[0]));
                    assert(!can_add(g, c0, succ));
                    assert(c0.subrange(0, c0.len() as int) =~= c0);
                }
            }
            assert forall|v: usize|
                crate::simple_paths::seen_before(succs@, i + 1, v) && v >= start && #[trigger] can_add(g, c0, v)
                    implies children@.contains(v) by {
                if !crate::simple_paths::seen_before(succs@, i as int, v) {
                    assert(v == succ);
                }
            }
        }
        i += 1;
    }
    proof {
        if admitted_from(g, arch, c0, c0, start) {
            assert(c0.last() == node);
            assert(succs@.contains(c0[0]));
            let j = choose|j: int| 0 <= j < succs@.len() && succs@[j] == c0[0];
            assert(crate::simple_paths::seen_before(succs@, succs@.len() as int, c0[0]));
        }
    }
    let mut k = children.len();
    while k > 0
        invariant
            aeg.wf(),
            g == aeg.gv(),
            arch == aeg.config.architecture,
            arch != Architecture::Arm,
            n == g.nodes.len(),
            cycle@ == c0,
            depth == c0.len(),
            1 <= depth <= n,
            c0.no_duplicates(),
            all_below(c0, n as nat),
            all_below(children@, n as nat),
            k <= children@.len(),
            forall|m: int| 0 <= m < children@.len() ==> !c0.contains(#[trigger] children@[m]),
            forall|m: int| 0 <= m < out@.len() ==> #[trigger] is_reported(g, arch, out@[m]),
            node == c0.last(),
            is_chain(g, c0),
            forall|m: int| 0 <= m < children@.len() ==> #[trigger] steps_to(g, node, children@[m]),
            o0 == old(out)@,
            o0.len() <= out@.len(),
            out@.subrange(0, o0.len() as int) == o0,
            admitted_from(g, arch, c0, c0, start) ==> reports(out@, c0),
            forall|q: Seq<usize>|
                #[trigger] admitted_from(g, arch, c0, q, start) && q.len() > c0.len() && (exists|m: int|
                    k <= m < children@.len() && children@[m] == q[c0.len() as int]) ==> reports(out@, q),
        decreases k,
    {
        k -= 1;
        let ghost out_b = out@;
        if cycle.len() < n {
            let child = children[k];
            proof {
                assert(!c0.contains(children@[k as int]));
            }
            cycle.push(child);
            proof {
                assert forall|a: int, b: int| 0 <= a < cycle@.len() && 0 <= b < cycle@.len() && a != b implies cycle@[a] != cycle@[b] by {
                    if a < c0.len() && b < c0.len() {
                        assert(cycle@[a] == c0[a] && cycle@[b] == c0[b]);
                    } else if a < c0.len() {
                        assert(c0.contains(cycle@[a]));
                    } else {
                        assert(c0.contains(cycle@[b]));
                    }
                }
                assert forall|a: int| 0 <= a < cycle@.len() implies #[trigger] cycle@[a] < n by {
                    if a < c0.len() {
                        assert(cycle@[a] == c0[a]);
                    }
                }
                assert(steps_to(g, node, children@[k as int]));
                assert forall|a: int| 0 <= a < cycle@.len() - 1 implies #[trigger] steps_to(g, cycle@[a], cycle@[a + 1]) by {
                    if a < c0.len() - 1 {
                        assert(steps_to(g, c0[a], c0[a + 1]));
                    } else {
                        assert(cycle@[a] == node);
                    }
                }
            }
            let ghost c1 = cycle@;
            explore(aeg, cycle, start, out, depth + 1);
            cycle.pop();
            proof {
                assert(cycle@ =~= c0);
                assert(c1 == c0.push(children@[k as int]));
                lemma_prefix_trans(o0, out_b, out@);
                if admitted_from(g, arch, c0, c0, start) {
                    lemma_reports_grows(out_b, out@, c0);
                }
                assert forall|q: Seq<usize>|
                    #[trigger] admitted_from(g, arch, c0, q, start) && q.len() > c0.len() && (exists|m: int|
                        k <= m < children@.len() && children@[m] == q[c0.len() as int]) implies reports(out@, q) by {
                    if q[c0.len() as int] == children@[k as int] {
                        lemma_admitted_step(g, arch, c0, q, start);
                    } else {
                        let m = choose|m: int| k <= m < children@.len() && children@[m] == q[c0.len() as int];
                        assert(m > k);
                        lemma_reports_grows(out_b, out@, q);
                    }
                }
            }
        } else {
            proof {
                assert forall|q: Seq<usize>|
                    #[trigger] admitted_from(g, arch, c0, q, start) && q.len() > c0.len() && (exists|m: int|
                        k <= m < children@.len() && children@[m] == q[c0.len() as int]) implies reports(out@, q) by {
                    let m = choose|m: int| k <= m < children@.len() && children@[m] == q[c0.len() as int];
                    if m == k {
                        assert(false);
                    }
                }
            }
        }
    }
    proof {
        assert forall|q: Seq<usize>| #[trigger] admitted_from(g, arch, c0, q, start) implies reports(out@, q) by {
            if q.len() == c0.len() {
                assert(q =~= c0) by {
                    assert forall|j: int| 0 <= j < q.len() implies q[j] == c0[j] by {
                        assert(q.subrange(0, c0.len() as int)[j] == c0[j]);
                    }
                }
            } else {
                let p = c0.len() as int;
                let x = q[p];
                assert(q[p] >= start && steps_to(g, q[p - 1], q[p]) && can_add(g, q.take(p), q[p]));
                assert(q[p - 1] == node) by {
                    assert(q.subrange(0, p)[p - 1] == c0[p - 1]);
                }
                assert(q.take(p) =~= c0) by {
                    assert forall|j: int| 0 <= j < p implies q.take(p)[j] == c0[j] by {
                        assert(q.subrange(0, p)[j] == c0[j]);
                    }
                }
                assert(succs@.contains(x));
                let j = choose|j: int| 0 <= j < succs@.len() && succs@[j] == x;
                assert(crate::simple_paths::seen_before(succs@, succs@.len() as int, x));
                assert(children@.contains(x));
                let m = choose|m: int| 0 <= m < children@.len() && children@[m] == x;
                assert(exists|m2: int| 0 <= m2 < children@.len() && children@[m2] == q[c0.len() as int]);
            }
        }
    }
}

/// Every critical cycle of the graph under its architecture, searched from
/// each start node in index order; a search from a node skips the nodes
/// searched from before it.
pub fn critical_cycles(aeg: &AbstractEventGraph) -> (r: Vec<CriticalCycle>)
    requires
        aeg.wf(),
        aeg.config.architecture != Architecture::Arm,
    ensures
        forall|k: int| 0 <= k < r@.len() ==> #[trigger] is_reported(aeg.gv(), aeg.config.architecture, r@[k]),
        forall|q: Seq<usize>| #[trigger] admitted_ring(aeg.gv(), aeg.config.architecture, q) ==> reports(r@, q),
{
    let ghost g = aeg.gv();
    let ghost arch = aeg.config.architecture;
    let n = node_count(&aeg.graph);
    let mut out: Vec<CriticalCycle> = Vec::new();
    let mut start: usize = 0;
    while start < n
        invariant
            aeg.wf(),
            g == aeg.gv(),
            arch == aeg.config.architecture,
            aeg.config.architecture != Architecture::Arm,
            n == aeg.gv().nodes.len(),
            start <= n,
            forall|k: int| 0 <= k < out@.len() ==> #[trigger] is_reported(aeg.gv(), aeg.config.architecture, out@[k]),
            forall|q: Seq<usize>| #[trigger] admitted_ring(g, arch, q) && q[0] < start ==> reports(out@, q),
        decreases n - start,
    {
        let empty: Vec<usize> = Vec::new();
        let ghost out_b = out@;
        if can_add_node(aeg, &empty, start) {
            let mut cycle: Vec<usize> = Vec::new();
            cycle.push(start);
            proof {
                assert(cycle@.no_duplicates());
                assert(is_chain(aeg.gv(), cycle@));
            }
            let ghost c1 = cycle@;
            explore(aeg, &mut cycle, start, &mut out, 1);
            proof {
                assert(c1 == seq![start]);
                assert forall|q: Seq<usize>| #[trigger] admitted_ring(g, arch, q) && q[0] < start + 1 implies reports(out@, q) by {
                    if q[0] < start {
                        lemma_reports_grows(out_b, out@, q);
                    } else {
                        assert(seq![q[0]] == c1);
                    }
                }
            }
        } else {
            proof {
                assert(!can_add(g, Seq::empty(), start));
                assert forall|q: Seq<usize>| #[trigger] admitted_ring(g, arch, q) && q[0] < start + 1 implies reports(out@, q) by {
                    if q[0] == start {
                        assert(!Seq::<usize>::empty().contains(start));
                    }
                }
            }
        }
        start += 1;
    }
    proof {
        assert forall|q: Seq<usize>| #[trigger] admitted_ring(g, arch, q) implies reports(out@, q) by {
            assert(q[0] < n);
        }
    }
    out
}

impl AbstractEventGraph {
    /// The critical cycles of the graph under its architecture.
    pub fn tso_critical_cycles(&self) -> (r: Vec<CriticalCycle>)
        requires
            self.wf(),
            self.config.architecture != Architecture::Arm,
        ensures
            forall|k: int| 0 <= k < r@.len() ==> #[trigger] is_reported(self.gv(), self.config.architecture, r@[k]),
            forall|q: Seq<usize>| #[trigger] admitted_ring(self.gv(), self.config.architecture, q) ==> reports(r@, q),
    {
        critical_cycles(self)
    }
}

} // verus!

verus! {

/// Under TSO, a ring each of whose write-to-read steps is joined only by po
/// paths that cross a fence has no delay, so it is never reported.
pub proof fn lemma_fenced_ring_has_no_delay(g: GraphView, c: Seq<usize>)
    requires
        forall|i: int, p: Seq<usize>|
            0 <= i < c.len() && #[trigger] is_simple_po_path(g, p, c[i], c[succ_index(i, c.len() as int)])
                ==> !fence_free(g, p),
    ensures
        !cs1(g, Architecture::Tso, c),
{
    if cs1(g, Architecture::Tso, c) {
        let i = choose|i: int| 0 <= i < c.len() && #[trigger] is_delay(g, Architecture::Tso, c[i], c[succ_index(i, c.len() as int)]);
        let p = choose|p: Seq<usize>| #[trigger] is_simple_po_path(g, p, c[i], c[succ_index(i, c.len() as int)]) && fence_free(g, p);
        assert(!fence_free(g, p));
    }
}

} // verus!
