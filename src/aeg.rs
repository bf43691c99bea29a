//! The abstract event graph of a program, and the program-order queries
//! on it.
use crate::ast::{FenceType, Program, Statement};
use crate::builder::{
    aeg_spec, all_below, create_aeg, lemma_stmts_supported_prefix, program_supported, stmt_supported,
    stmts_supported,
};
use crate::graph::{
    edge_at, edge_count, graph_nodes, node_count, out_edges, view_of, Aeg, AegEdge, EdgeView,
    GraphView,
};
use crate::invariants::lemma_po_edges_within_threads;
use vstd::prelude::*;

verus! {

/// A memory model.
#[derive(Clone, Copy, Debug, PartialEq, Eq, Hash, Structural)]
pub enum Architecture {
    Tso,
    Arm,
    Power,
}

/// The settings of an analysis.
#[derive(Debug, Clone, Copy)]
pub struct AegConfig {
    pub architecture: Architecture,
    /// Derive the fences of a delay from one shortest po path, which may
    /// take a skip connection over an `if`, rather than from every simple
    /// po path.
    pub skip_branches: bool,
}

impl Default for AegConfig {
    fn default() -> (r: Self)
        ensures
            r.architecture == Architecture::Tso,
            r.skip_branches,
    {
        AegConfig { architecture: Architecture::Tso, skip_branches: true }
    }
}

/// Why a program has no abstract event graph.
#[derive(Debug, Clone, PartialEq, Eq)]
pub enum AegError {
    /// The program uses a fence other than a write-read fence.
    UnsupportedFence(FenceType),
}

/// A program's abstract event graph and the settings of its analysis.
#[derive(Debug)]
pub struct AbstractEventGraph {
    pub graph: Aeg,
    pub config: AegConfig,
}

/// Statement `s` holds a fence of kind `f`, at any depth.
pub open spec fn stmt_has_fence(s: Statement, f: FenceType) -> bool
    decreases s, 1nat,
{
    match s {
        Statement::Fence(k) => k == f,
        Statement::If(_, thn, els) => stmts_have_fence(thn@, f, thn@.len()) || stmts_have_fence(els@, f, els@.len()),
        Statement::While(_, body) => stmts_have_fence(body@, f, body@.len()),
        _ => false,
    }
}

/// One of the first `n` statements holds a fence of kind `f`.
pub open spec fn stmts_have_fence(ss: Seq<Statement>, f: FenceType, n: nat) -> bool
    decreases ss, n,
{
    if n == 0 || n > ss.len() {
        false
    } else {
        stmts_have_fence(ss, f, (n - 1) as nat) || stmt_has_fence(ss[n - 1], f)
    }
}

/// Some thread of the program holds a fence of kind `f`.
pub open spec fn program_has_fence(p: Program, f: FenceType) -> bool {
    exists|t: int|
        0 <= t < p.threads@.len() && #[trigger] stmts_have_fence(
            p.threads@[t].instructions@,
            f,
            p.threads@[t].instructions@.len(),
        )
}

proof fn lemma_has_fence_grows(ss: Seq<Statement>, f: FenceType, m: nat, n: nat)
    requires
        m <= n <= ss.len(),
        stmts_have_fence(ss, f, m),
    ensures
        stmts_have_fence(ss, f, n),
    decreases n - m,
{
    if m < n {
        lemma_has_fence_grows(ss, f, m, (n - 1) as nat);
    }
}

/// The first fence of `s` that is not a write-read fence, if any.
fn unsupported_in_stmt(s: &Statement) -> (r: Option<FenceType>)
    ensures
        r is None <==> stmt_supported(*s),
        r matches Some(f) ==> f != FenceType::WR && stmt_has_fence(*s, f),
    decreases s, 1nat,
{
    match s {
        Statement::Fence(f) => match f {
            FenceType::WR => None,
            _ => Some(*f),
        },
        Statement::If(_, thn, els) => {
            let r = unsupported_in(thn);
            if r.is_some() {
                r
            } else {
                unsupported_in(els)
            }
        },
        Statement::While(_, body) => unsupported_in(body),
        _ => None,
    }
}

/// The first fence of `ss` that is not a write-read fence, if any.
fn unsupported_in(ss: &Vec<Statement>) -> (r: Option<FenceType>)
    ensures
        r is None <==> stmts_supported(ss@, ss@.len()),
        r matches Some(f) ==> f != FenceType::WR && stmts_have_fence(ss@, f, ss@.len()),
    decreases ss, 0nat,
{
    let mut i: usize = 0;
    while i < ss.len()
        invariant
            i <= ss@.len(),
            stmts_supported(ss@, i as nat),
        decreases ss@.len() - i,
    {
        proof {
            assert(decreases_to!(ss => ss@[i as int]));
        }
        let r = unsupported_in_stmt(&ss[i]);
        if r.is_some() {
            proof {
                if stmts_supported(ss@, ss@.len()) {
                    lemma_stmts_supported_prefix(ss@, ss@.len(), (i + 1) as nat);
                }
                let f = r->0;
                assert(stmts_have_fence(ss@, f, (i + 1) as nat));
                lemma_has_fence_grows(ss@, f, (i + 1) as nat, ss@.len());
            }
            return r;
        }
        i += 1;
    }
    None
}

/// The first fence of the program that is not a write-read fence, if any.
pub fn first_unsupported_fence(program: &Program) -> (r: Option<FenceType>)
    ensures
        r is None <==> program_supported(*program),
        r matches Some(f) ==> f != FenceType::WR && program_has_fence(*program, f),
{
    let mut t: usize = 0;
    while t < program.threads.len()
        invariant
            t <= program.threads@.len(),
            forall|u: int|
                0 <= u < t ==> stmts_supported(
                    #[trigger] program.threads@[u].instructions@,
                    program.threads@[u].instructions@.len(),
                ),
        decreases program.threads@.len() - t,
    {
        let r = unsupported_in(&program.threads[t].instructions);
        if r.is_some() {
            proof {
                let f = r->0;
                assert(stmts_have_fence(program.threads@[t as int].instructions@, f, program.threads@[t as int].instructions@.len()));
            }
            return r;
        }
        t += 1;
    }
    None
}

impl AbstractEventGraph {
    /// The graph as Verus sees it.
    pub open spec fn gv(&self) -> GraphView {
        view_of(self.graph)
    }

    /// Every edge joins two nodes of the graph.
    pub open spec fn wf(&self) -> bool {
        &&& self.gv().edges_in_range()
        &&& self.gv().simple()
        &&& self.gv().nodes.len() <= usize::MAX
        &&& self.gv().edges.len() <= usize::MAX
    }

    /// The graph of a program, analysed under TSO.
    pub fn new(program: &Program) -> (r: Result<Self, AegError>)
        ensures
            r is Err <==> !program_supported(*program),
            r matches Err(AegError::UnsupportedFence(f)) ==> f != FenceType::WR && program_has_fence(*program, f),
            r matches Ok(a) ==> a.gv() == aeg_spec(*program) && a.config.architecture
                == Architecture::Tso && a.config.skip_branches && a.wf(),
    {
        Self::with_config(program, AegConfig::default())
    }

    /// The graph of a program, analysed with the given settings.
    pub fn with_config(program: &Program, config: AegConfig) -> (r: Result<Self, AegError>)
        ensures
            r is Err <==> !program_supported(*program),
            r matches Err(AegError::UnsupportedFence(f)) ==> f != FenceType::WR && program_has_fence(*program, f),
            r matches Ok(a) ==> a.gv() == aeg_spec(*program) && a.config == config && a.wf(),
    {
        match first_unsupported_fence(program) {
            Some(f) => Err(AegError::UnsupportedFence(f)),
            None => {
                let graph = create_aeg(program);
                let _ = node_count(&graph);
                let _ = edge_count(&graph);
                proof {
                    lemma_po_edges_within_threads(*program);
                }
                Ok(AbstractEventGraph { graph, config })
            },
        }
    }

    /// The targets of the edges with label `k` that leave `node`, each
    /// once, in the order in which the graph lists the edges.
    pub(crate) fn successors(&self, node: usize, k: AegEdge) -> (r: Vec<usize>)
        requires
            self.wf(),
        ensures
            forall|v: usize| #[trigger] r@.contains(v) <==> self.gv().has_edge(node, v, k),
            r@.no_duplicates(),
            all_below(r@, self.gv().nodes.len()),
    {
        let ghost gv = self.gv();
        let es = out_edges(&self.graph, node);
        let mut r: Vec<usize> = Vec::new();
        let mut i: usize = 0;
        while i < es.len()
            invariant
                self.wf(),
                gv == self.gv(),
                forall|x: usize| #[trigger] es@.contains(x) <==> (x < gv.edges.len() && gv.edges[x as int].source
                    == node),
                i <= es@.len(),
                forall|v: usize|
                    #[trigger] r@.contains(v) <==> exists|j: int|
                        0 <= j < i && gv.edges[es@[j] as int].kind == k && gv.edges[es@[j] as int].target == v,
                r@.no_duplicates(),
                all_below(r@, gv.nodes.len()),
            decreases es@.len() - i,
        {
            proof {
                assert(es@.contains(es@[i as int]));
            }
            let (_, t, kind) = edge_at(&self.graph, es[i]);
            let ghost r0 = r@;
            if kind == k && !crate::builder::vec_contains(&r, t) {
                r.push(t);
                proof {
                    assert(gv.edges[es@[i as int] as int].target < gv.nodes.len());
                    assert forall|a: int, b: int| 0 <= a < r@.len() && 0 <= b < r@.len() && a != b implies r@[a] != r@[b] by {
                        if a < r0.len() && b < r0.len() {
                            assert(r@[a] == r0[a] && r@[b] == r0[b]);
                        } else if a < r0.len() {
                            assert(r0.contains(r@[a]));
                        } else {
                            assert(r0.contains(r@[b]));
                        }
                    }
                }
            }
            proof {
                assert forall|v: usize| #[trigger] r@.contains(v) <==> exists|j: int|
                    0 <= j < i + 1 && gv.edges[es@[j] as int].kind == k && gv.edges[es@[j] as int].target == v by {
                    if r@.contains(v) && !r0.contains(v) {
                        let a = choose|a: int| 0 <= a < r@.len() && r@[a] == v;
                        assert(a == r0.len());
                    }
                    if r0.contains(v) {
                        let a = choose|a: int| 0 <= a < r0.len() && r0[a] == v;
                        assert(r@[a] == v);
                    }
                    if exists|j: int| 0 <= j < i + 1 && gv.edges[es@[j] as int].kind == k && gv.edges[es@[j] as int].target == v {
                        let j = choose|j: int| 0 <= j < i + 1 && gv.edges[es@[j] as int].kind == k && gv.edges[es@[j] as int].target == v;
                        if j == i && !r0.contains(v) {
                            assert(r@[r0.len() as int] == v);
                        }
                    }
                }
                assert forall|a: int| 0 <= a < r@.len() implies #[trigger] r@[a] < gv.nodes.len() by {
                    if a < r0.len() {
                        assert(r@[a] == r0[a]);
                    }
                }
            }
            i += 1;
        }
        proof {
            assert forall|v: usize| #[trigger] r@.contains(v) <==> self.gv().has_edge(node, v, k) by {
                if r@.contains(v) {
                    let j = choose|j: int| 0 <= j < es@.len() && gv.edges[es@[j] as int].kind == k && gv.edges[es@[j] as int].target == v;
                    assert(es@.contains(es@[j]));
                    assert(gv.edges[es@[j] as int] == (EdgeView { source: node, target: v, kind: k }));
                }
                if gv.has_edge(node, v, k) {
                    let e = choose|e: int| 0 <= e < gv.edges.len() && #[trigger] gv.edges[e] == (EdgeView {
                        source: node,
                        target: v,
                        kind: k,
                    });
                    assert(es@.contains(e as usize));
                    let j = choose|j: int| 0 <= j < es@.len() && es@[j] == e as usize;
                    assert(gv.edges[es@[j] as int].target == v);
                }
            }
        }
        r
    }

    /// The immediate po successors of `node`.
    pub fn close_po_neighbors(&self, node: usize) -> (r: Vec<usize>)
        requires
            self.wf(),
        ensures
            forall|v: usize| #[trigger] r@.contains(v) <==> self.gv().po_edge(node, v),
            r@.no_duplicates(),
            all_below(r@, self.gv().nodes.len()),
    {
        self.successors(node, AegEdge::ProgramOrder)
    }
}

} // verus!

verus! {

/// The number of unset flags.
pub open spec fn count_false(d: Seq<bool>) -> nat
    decreases d.len(),
{
    if d.len() == 0 {
        0
    } else {
        count_false(d.drop_last()) + if d.last() {
            0nat
        } else {
            1nat
        }
    }
}

proof fn lemma_count_false_set(d: Seq<bool>, i: int)
    requires
        0 <= i < d.len(),
        !d[i],
    ensures
        count_false(d.update(i, true)) + 1 == count_false(d),
    decreases d.len(),
{
    let d2 = d.update(i, true);
    if i < d.len() - 1 {
        lemma_count_false_set(d.drop_last(), i);
        assert(d2.drop_last() =~= d.drop_last().update(i, true));
    } else {
        assert(d2.drop_last() =~= d.drop_last());
    }
}

/// A walk that stays on po edges, extended by one more po edge.
proof fn lemma_reach_step(g: GraphView, a: usize, b: usize, c: usize)
    requires
        g.po_reaches(a, b) || a == b,
        g.po_edge(b, c),
    ensures
        g.po_reaches(a, c),
{
    if g.po_reaches(a, b) {
        let p = choose|p: Seq<usize>| p.len() >= 2 && p[0] == a && p.last() == b && #[trigger] g.is_po_walk(p);
        let q = p.push(c);
        assert forall|i: int| 0 <= i < q.len() - 1 implies #[trigger] g.po_edge(q[i], q[i + 1]) by {
            if i < p.len() - 1 {
                assert(g.po_edge(p[i], p[i + 1]));
            } else {
                assert(q[i] == p.last());
            }
        }
        assert(g.is_po_walk(q));
    } else {
        let q = seq![a, c];
        assert forall|i: int| 0 <= i < q.len() - 1 implies #[trigger] g.po_edge(q[i], q[i + 1]) by {}
        assert(g.is_po_walk(q));
    }
}

/// A set of nodes that holds the po successors of `a` and is closed under
/// po edges holds every node that `a` reaches.
proof fn lemma_closed_reach(g: GraphView, a: usize, s: Seq<usize>, v: usize)
    requires
        g.po_reaches(a, v),
        forall|w: usize| g.po_edge(a, w) ==> #[trigger] s.contains(w),
        forall|x: usize, w: usize| s.contains(x) && #[trigger] g.po_edge(x, w) ==> s.contains(w),
    ensures
        s.contains(v),
{
    let p = choose|p: Seq<usize>| p.len() >= 2 && p[0] == a && p.last() == v && #[trigger] g.is_po_walk(p);
    let z: int = 0;
    assert(g.po_edge(p[z], p[z + 1]));
    lemma_closed_walk(g, s, p, p.len() - 1);
    assert(p[p.len() - 1] == p.last());
}

proof fn lemma_closed_walk(g: GraphView, s: Seq<usize>, p: Seq<usize>, i: int)
    requires
        1 <= i < p.len(),
        g.is_po_walk(p),
        s.contains(p[1]),
        forall|x: usize, w: usize| s.contains(x) && #[trigger] g.po_edge(x, w) ==> s.contains(w),
    ensures
        s.contains(p[i]),
    decreases i,
{
    if i > 1 {
        lemma_closed_walk(g, s, p, i - 1);
        let j = i - 1;
        assert(g.po_edge(p[j], p[j + 1]));
    }
}

impl AbstractEventGraph {
    /// The nodes reached from `node` by one or more po edges, each once, in
    /// depth-first order. Loops make the po edges cyclic, so a node may
    /// reach itself.
    pub fn transitive_po_neighbors(&self, node: usize) -> (r: Vec<usize>)
        requires
            self.wf(),
            node < self.gv().nodes.len(),
        ensures
            forall|v: usize| #[trigger] r@.contains(v) <==> self.gv().po_reaches(node, v),
            r@.no_duplicates(),
            all_below(r@, self.gv().nodes.len()),
    {
        let ghost gv = self.gv();
        let n = node_count(&self.graph);
        let mut discovered: Vec<bool> = Vec::new();
        let mut i: usize = 0;
        while i < n
            invariant
                i <= n,
                discovered@.len() == i,
                forall|k: int| 0 <= k < i ==> !#[trigger] discovered@[k],
            decreases n - i,
        {
            discovered.push(false);
            i += 1;
        }
        let mut stack = self.close_po_neighbors(node);
        proof {
            assert forall|w: usize| #[trigger] stack@.contains(w) implies gv.po_reaches(node, w) by {
                lemma_reach_step(gv, node, node, w);
            }
        }
        let mut out: Vec<usize> = Vec::new();
        while stack.len() > 0
            invariant
                self.wf(),
                gv == self.gv(),
                n == gv.nodes.len(),
                discovered@.len() == n,
                all_below(stack@, n as nat),
                all_below(out@, n as nat),
                forall|v: int| 0 <= v < n ==> (#[trigger] discovered@[v] <==> out@.contains(v as usize)),
                out@.no_duplicates(),
                forall|v: usize| #[trigger] out@.contains(v) ==> gv.po_reaches(node, v),
                forall|v: usize| #[trigger] stack@.contains(v) ==> gv.po_reaches(node, v),
                forall|x: usize, w: usize|
                    out@.contains(x) && #[trigger] gv.po_edge(x, w) ==> out@.contains(w)
                        || stack@.contains(w),
                forall|w: usize| #[trigger] gv.po_edge(node, w) ==> out@.contains(w) || stack@.contains(w),
            decreases count_false(discovered@), stack@.len(),
        {
            let ghost stack0 = stack@;
            let curr = stack.pop().unwrap();
            proof {
                assert(stack0 == stack@.push(curr));
                assert forall|w: usize| stack0.contains(w) && w != curr implies #[trigger] stack@.contains(w) by {
                    let j = choose|j: int| 0 <= j < stack0.len() && stack0[j] == w;
                    assert(j < stack@.len());
                    assert(stack@[j] == w);
                }
                assert(stack0.contains(curr)) by {
                    assert(stack0[stack0.len() - 1] == curr);
                }
                assert(gv.po_reaches(node, curr));
                assert forall|w: usize| #[trigger] stack@.contains(w) implies stack0.contains(w) by {
                    let j = choose|j: int| 0 <= j < stack@.len() && stack@[j] == w;
                    assert(stack0[j] == w);
                }
                assert(curr < n);
            }
            if !discovered[curr] {
                proof {
                    lemma_count_false_set(discovered@, curr as int);
                }
                discovered.set(curr, true);
                let ghost out0 = out@;
                out.push(curr);
                proof {
                    assert forall|v: int| 0 <= v < n implies (#[trigger] discovered@[v] <==> out@.contains(
                        v as usize,
                    )) by {
                        if v == curr {
                            assert(out@[out0.len() as int] == curr);
                        } else {
                            assert(discovered@[v] == out0.contains(v as usize) || true);
                            if out@.contains(v as usize) {
                                let j = choose|j: int| 0 <= j < out@.len() && out@[j] == v as usize;
                                assert(j < out0.len());
                                assert(out0[j] == v as usize);
                            }
                            if out0.contains(v as usize) {
                                let j = choose|j: int| 0 <= j < out0.len() && out0[j] == v as usize;
                                assert(out@[j] == v as usize);
                            }
                        }
                    }
                    assert forall|v: usize| #[trigger] out@.contains(v) implies out0.contains(v) || v == curr by {
                        let j = choose|j: int| 0 <= j < out@.len() && out@[j] == v;
                        if j < out0.len() {
                            assert(out0[j] == v);
                        }
                    }
                    assert forall|v: usize| out0.contains(v) implies #[trigger] out@.contains(v) by {
                        let j = choose|j: int| 0 <= j < out0.len() && out0[j] == v;
                        assert(out@[j] == v);
                    }
                    assert(out@.contains(curr)) by {
                        assert(out@[out0.len() as int] == curr);
                    }
                    assert(!out0.contains(curr));
                }
                let succ = self.close_po_neighbors(curr);
                let ghost stack1 = stack@;
                let mut k: usize = 0;
                while k < succ.len()
                    invariant
                        self.wf(),
                        gv == self.gv(),
                        n == gv.nodes.len(),
                        discovered@.len() == n,
                        k <= succ@.len(),
                        all_below(succ@, n as nat),
                        all_below(stack@, n as nat),
                        forall|v: int| 0 <= v < n ==> (#[trigger] discovered@[v] <==> out@.contains(v as usize)),
                        forall|v: usize| #[trigger] succ@.contains(v) <==> gv.po_edge(curr, v),
                        forall|v: usize| stack1.contains(v) ==> #[trigger] stack@.contains(v),
                        forall|v: usize| #[trigger] stack@.contains(v) ==> stack1.contains(v) || succ@.contains(v),
                        forall|m: int| 0 <= m < k ==> out@.contains(#[trigger] succ@[m]) || stack@.contains(succ@[m]),
                    decreases succ@.len() - k,
                {
                    let ghost stack2 = stack@;
                    assert(forall|v: usize| stack2.contains(v) ==> stack1.contains(v) || succ@.contains(v));
                    let sk = succ[k];
                    if !discovered[sk] {
                        stack.push(sk);
                        proof {
                            assert(stack@[stack2.len() as int] == sk);
                            assert forall|v: usize| stack2.contains(v) implies #[trigger] stack@.contains(v) by {
                                let j = choose|j: int| 0 <= j < stack2.len() && stack2[j] == v;
                                assert(stack@[j] == v);
                            }
                            assert forall|v: usize| #[trigger] stack@.contains(v) implies stack1.contains(v) || succ@.contains(v) by {
                                let j = choose|j: int| 0 <= j < stack@.len() && stack@[j] == v;
                                if j < stack2.len() {
                                    assert(stack2[j] == v);
                                    assert(stack2.contains(v));
                                } else {
                                    assert(j == stack2.len());
                                    assert(succ@[k as int] == v);
                                    assert(succ@.contains(v));
                                }
                            }
                        }
                    } else {
                        proof {
                            assert(discovered@[sk as int]);
                        }
                    }
                    k += 1;
                }
                proof {
                    assert forall|w: usize| #[trigger] stack@.contains(w) implies gv.po_reaches(node, w) by {
                        if !stack1.contains(w) {
                            lemma_reach_step(gv, node, curr, w);
                        }
                    }
                    assert forall|x: usize, w: usize|
                        out@.contains(x) && #[trigger] gv.po_edge(x, w) implies out@.contains(w)
                        || stack@.contains(w) by {
                        if x == curr {
                            assert(succ@.contains(w));
                            let m = choose|m: int| 0 <= m < succ@.len() && succ@[m] == w;
                            assert(out@.contains(succ@[m]) || stack@.contains(succ@[m]));
                        } else {
                            assert(out0.contains(x));
                            if stack0.contains(w) && w != curr {
                                assert(stack1.contains(w));
                            }
                        }
                    }
                    assert forall|w: usize| #[trigger] gv.po_edge(node, w) implies out@.contains(w)
                        || stack@.contains(w) by {
                        if stack0.contains(w) && w != curr {
                            assert(stack1.contains(w));
                        }
                    }
                    assert(out@.no_duplicates()) by {
                        assert forall|a: int, b: int|
                            0 <= a < out@.len() && 0 <= b < out@.len() && a != b implies out@[a] != out@[b] by {
                            if a < out0.len() && b < out0.len() {
                                assert(out0[a] == out@[a] && out0[b] == out@[b]);
                            } else if a < out0.len() {
                                assert(out0.contains(out@[a]));
                            } else if b < out0.len() {
                                assert(out0.contains(out@[b]));
                            }
                        }
                    }
                }
            } else {
                proof {
                    assert(out@.contains(curr));
                    assert forall|x: usize, w: usize|
                        out@.contains(x) && #[trigger] gv.po_edge(x, w) implies out@.contains(w)
                        || stack@.contains(w) by {
                        if stack0.contains(w) && w != curr {
                        }
                    }
                    assert forall|w: usize| #[trigger] gv.po_edge(node, w) implies out@.contains(w)
                        || stack@.contains(w) by {
                        if stack0.contains(w) && w != curr {
                        }
                    }
                }
            }
        }
        proof {
            assert forall|v: usize| #[trigger] out@.contains(v) <== gv.po_reaches(node, v) by {
                if gv.po_reaches(node, v) {
                    lemma_closed_reach(gv, node, out@, v);
                }
            }
        }
        out
    }

    /// Whether `b` is reached from `a` by one or more po edges.
    pub fn is_po_connected(&self, a: usize, b: usize) -> (r: bool)
        requires
            self.wf(),
            a < self.gv().nodes.len(),
        ensures
            r == self.gv().po_reaches(a, b),
    {
        let ns = self.transitive_po_neighbors(a);
        crate::builder::vec_contains(&ns, b)
    }

    /// The successors of `node` in a cycle: its competing neighbours, then
    /// every node it reaches by po edges.
    pub fn neighbors(&self, node: usize) -> (r: Vec<usize>)
        requires
            self.wf(),
            node < self.gv().nodes.len(),
        ensures
            forall|v: usize| #[trigger] r@.contains(v) <==> (self.gv().has_edge(
                node,
                v,
                AegEdge::Competing,
            ) || self.gv().po_reaches(node, v)),
            r@.no_duplicates(),
            all_below(r@, self.gv().nodes.len()),
    {
        let mut r = self.successors(node, AegEdge::Competing);
        let po = self.transitive_po_neighbors(node);
        let ghost r0 = r@;
        let mut i: usize = 0;
        while i < po.len()
            invariant
                i <= po@.len(),
                forall|v: usize| #[trigger] r@.contains(v) <==> (r0.contains(v) || po@.take(i as int).contains(v)),
                r@.no_duplicates(),
                all_below(r@, self.gv().nodes.len()),
                all_below(po@, self.gv().nodes.len()),
            decreases po@.len() - i,
        {
            let v = po[i];
            let ghost rb = r@;
            if !crate::builder::vec_contains(&r, v) {
                r.push(v);
                proof {
                    assert forall|a: int, b: int| 0 <= a < r@.len() && 0 <= b < r@.len() && a != b implies r@[a] != r@[b] by {
                        if a < rb.len() && b < rb.len() {
                            assert(r@[a] == rb[a] && r@[b] == rb[b]);
                        } else if a < rb.len() {
                            assert(rb.contains(r@[a]));
                        } else {
                            assert(rb.contains(r@[b]));
                        }
                    }
                    assert forall|k: int| 0 <= k < r@.len() implies #[trigger] r@[k] < self.gv().nodes.len() by {
                        if k < rb.len() {
                            assert(r@[k] == rb[k]);
                        }
                    }
                }
            }
            proof {
                assert(po@.take(i + 1) =~= po@.take(i as int).push(v));
                assert forall|w: usize| #[trigger] r@.contains(w) <==> (r0.contains(w) || po@.take(i + 1).contains(w)) by {
                    if r@.contains(w) && !rb.contains(w) {
                        let a = choose|a: int| 0 <= a < r@.len() && r@[a] == w;
                        assert(a == rb.len());
                        assert(po@.take(i + 1)[i as int] == w);
                    }
                    if rb.contains(w) {
                        let a = choose|a: int| 0 <= a < rb.len() && rb[a] == w;
                        assert(r@[a] == w);
                    }
                    if po@.take(i + 1).contains(w) {
                        let a = choose|a: int| 0 <= a < i + 1 && #[trigger] po@.take(i + 1)[a] == w;
                        if a < i {
                            assert(po@.take(i as int)[a] == w);
                        } else if !rb.contains(w) {
                            assert(r@[rb.len() as int] == w);
                        }
                    }
                }
            }
            i += 1;
        }
        proof {
            assert(po@.take(po@.len() as int) =~= po@);
        }
        r
    }
}

} // verus!

verus! {

/// Program-order connection extends along po edges: if `b` is po-connected
/// from `a` and a po edge leads from `b` to `c`, then `c` is po-connected
/// from `a`.
pub proof fn lemma_po_connected_transitive(g: GraphView, a: usize, b: usize, c: usize)
    requires
        g.po_reaches(a, b),
        g.po_edge(b, c),
    ensures
        g.po_reaches(a, c),
{
    lemma_reach_step(g, a, b, c);
}

/// No node is po-connected to itself by default: a node that no po edge
/// enters is never po-connected to itself (only a po cycle through a loop
/// makes a node reach itself).
pub proof fn lemma_po_connected_irreflexive(g: GraphView, a: usize)
    requires
        forall|x: usize| !#[trigger] g.po_edge(x, a),
    ensures
        !g.po_reaches(a, a),
{
    if g.po_reaches(a, a) {
        let p = choose|p: Seq<usize>| p.len() >= 2 && p[0] == a && p.last() == a && #[trigger] g.is_po_walk(p);
        let j = p.len() - 2;
        assert(g.po_edge(p[j], p[j + 1]));
        assert(p[j + 1] == a);
    }
}

} // verus!

verus! {

/// Consecutive nodes of `p` are joined by edges of any label.
pub open spec fn is_walk(g: GraphView, p: Seq<usize>) -> bool {
    forall|i: int|
        0 <= i < p.len() - 1 ==> #[trigger] g.po_edge(p[i], p[i + 1]) || g.has_edge(
            p[i],
            p[i + 1],
            AegEdge::Competing,
        )
}

/// The cost of a walk's first `n` steps: nothing for a step along a po
/// edge, 100 for a step that only a competing edge makes.
pub open spec fn walk_cost(g: GraphView, p: Seq<usize>, n: int) -> nat
    decreases n,
{
    if n <= 0 || n >= p.len() {
        0
    } else {
        walk_cost(g, p, n - 1) + if g.po_edge(p[n - 1], p[n]) {
            0nat
        } else {
            100nat
        }
    }
}

/// The cost of a label in the search for po paths.
fn edge_cost(w: &AegEdge) -> (r: u32)
    ensures
        r == if *w == AegEdge::ProgramOrder { 0u32 } else { 100u32 },
{
    match w {
        AegEdge::ProgramOrder => 0,
        AegEdge::Competing => 100,
    }
}

fn is_node(n: usize, goal: usize) -> (r: bool)
    ensures
        r == (n == goal),
{
    n == goal
}

fn no_estimate(n: usize) -> (r: u32)
    ensures
        r == 0,
{
    0
}

/// Relies on `petgraph::algo::astar` with an estimate of 0, which never
/// overestimates: a cheapest walk from `a` to `b`, a po edge costing 0 and
/// a competing edge 100; there is none only when no walk leads there.
#[verifier::external_body]
fn cheapest_walk(g: &Aeg, a: usize, b: usize) -> (r: Option<Vec<usize>>)
    requires
        a < graph_nodes(*g).len(),
    ensures
        r matches Some(p) ==> {
            &&& p@.len() >= 1
            &&& p@[0] == a
            &&& p@.last() == b
            &&& is_walk(view_of(*g), p@)
            &&& forall|q: Seq<usize>|
                q.len() >= 1 && q[0] == a && q.last() == b && #[trigger] is_walk(view_of(*g), q)
                    ==> walk_cost(view_of(*g), p@, p@.len() - 1) <= walk_cost(view_of(*g), q, q.len() - 1)
        },
        r is None ==> forall|q: Seq<usize>|
            q.len() >= 1 && q[0] == a && q.last() == b ==> !#[trigger] is_walk(view_of(*g), q),
{
    petgraph::algo::astar(
        g,
        petgraph::graph::NodeIndex::new(a),
        |n| is_node(n.index(), b),
        |e| edge_cost(e.weight()),
        |n| no_estimate(n.index()),
    ).map(|(_, path)| path.into_iter().map(|n| n.index()).collect())
}

proof fn lemma_po_walk_is_free(g: GraphView, p: Seq<usize>, n: int)
    requires
        g.is_po_walk(p),
        n < p.len(),
    ensures
        walk_cost(g, p, n) == 0,
    decreases n,
{
    if n > 0 {
        lemma_po_walk_is_free(g, p, n - 1);
        let j = n - 1;
        assert(g.po_edge(p[j], p[j + 1]));
    }
}

proof fn lemma_free_walk_is_po(g: GraphView, p: Seq<usize>, n: int)
    requires
        walk_cost(g, p, n) == 0,
        n < p.len(),
    ensures
        forall|i: int| 0 <= i < n ==> #[trigger] g.po_edge(p[i], p[i + 1]),
    decreases n,
{
    if n > 0 {
        lemma_free_walk_is_po(g, p, n - 1);
        assert forall|i: int| 0 <= i < n implies #[trigger] g.po_edge(p[i], p[i + 1]) by {
            if i == n - 1 {
                assert(p[i + 1] == p[n]);
            }
        }
    }
}

impl AbstractEventGraph {
    /// A shortest po path from `a` to `b`, if `b` is po-connected from `a`.
    pub fn po_between(&self, a: usize, b: usize) -> (r: Option<Vec<usize>>)
        requires
            self.wf(),
            a < self.gv().nodes.len(),
        ensures
            r is Some <==> self.gv().po_reaches(a, b),
            r matches Some(p) ==> p@.len() >= 1 && p@[0] == a && p@.last() == b && self.gv().is_po_walk(p@),
            r matches Some(p) ==> (a != b ==> p@.len() >= 2),
    {
        if !self.is_po_connected(a, b) {
            return None;
        }
        let ghost g = self.gv();
        let r = cheapest_walk(&self.graph, a, b);
        proof {
            let q = choose|q: Seq<usize>| q.len() >= 2 && q[0] == a && q.last() == b && #[trigger] g.is_po_walk(q);
            assert(is_walk(g, q)) by {
                assert forall|i: int| 0 <= i < q.len() - 1 implies #[trigger] g.po_edge(q[i], q[i + 1])
                    || g.has_edge(q[i], q[i + 1], AegEdge::Competing) by {
                    assert(g.po_edge(q[i], q[i + 1]));
                }
            }
            lemma_po_walk_is_free(g, q, q.len() - 1);
            if r is Some {
                let p = r->0;
                assert(walk_cost(g, p@, p@.len() - 1) <= walk_cost(g, q, q.len() - 1));
                lemma_free_walk_is_po(g, p@, p@.len() - 1);
                assert forall|i: int| 0 <= i < p@.len() - 1 implies #[trigger] g.po_edge(p@[i], p@[i + 1]) by {}
            }
        }
        r
    }
}

} // verus!
