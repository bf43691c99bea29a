//! Construction of the abstract event graph from a program.
//!
//! The spec functions of this module state, statement by statement, which
//! events and which edges the construction adds and in which order; the
//! executable functions are proved to perform exactly those steps.
use crate::ast::{CondExpr, Expr, FenceType, Program, Statement, Thread};
use crate::graph::{
    lemma_push_fresh_target, lemma_push_node_keeps_simple, lemma_update_keeps_simple, add_edge, add_node, graph_nodes, new_graph, node_at, update_edge, view_of, Aeg, AegEdge, Fence,
    GraphView, Node,
};
use vstd::prelude::*;

verus! {

/// The state threaded through the construction of one thread: the graph,
/// the immediate po-predecessors of the next event, and the reads and writes
/// emitted so far.
pub struct Emit {
    pub g: GraphView,
    pub last: Seq<usize>,
    pub reads: Seq<usize>,
    pub writes: Seq<usize>,
}

pub open spec fn is_global(globals: Seq<String>, x: Seq<char>) -> bool {
    exists|i: int| 0 <= i < globals.len() && #[trigger] globals[i]@ == x
}

pub open spec fn opt_view(r: Option<Vec<usize>>) -> Option<Seq<usize>> {
    match r {
        Some(v) => Some(v@),
        None => None,
    }
}

/// Draw a po edge from each node of `last`, in order, to `cur`, skipping
/// `cur` itself.
pub open spec fn connect(g: GraphView, last: Seq<usize>, cur: usize) -> GraphView
    decreases last.len(),
{
    if last.len() == 0 {
        g
    } else {
        let g1 = connect(g, last.drop_last(), cur);
        if last.last() != cur {
            g1.update_edge(last.last(), cur, AegEdge::ProgramOrder)
        } else {
            g1
        }
    }
}

/// `connect` from `last` to each node of `targets`, in order.
pub open spec fn connect_all(g: GraphView, last: Seq<usize>, targets: Seq<usize>) -> GraphView
    decreases targets.len(),
{
    if targets.len() == 0 {
        g
    } else {
        connect(connect_all(g, last, targets.drop_last()), last, targets.last())
    }
}

/// The read of a global in an expression: a new event, chained po-after the
/// previous read of the same condition.
pub open spec fn expr_reads(
    g: GraphView,
    reads: Seq<usize>,
    e: Expr,
    globals: Seq<String>,
    thread: String,
) -> (GraphView, Seq<usize>) {
    match e {
        Expr::Num(_) => (g, reads),
        Expr::Var(v) => if is_global(globals, v@) {
            let n = g.nodes.len() as usize;
            let g1 = g.push_node(Node::Read(thread, v));
            let g2 = if reads.len() > 0 {
                g1.push_edge(reads.last(), n, AegEdge::ProgramOrder)
            } else {
                g1
            };
            (g2, reads.push(n))
        } else {
            (g, reads)
        },
    }
}

/// The reads of a condition, left to right, as one po chain.
pub open spec fn cond_reads(
    g: GraphView,
    reads: Seq<usize>,
    c: CondExpr,
    globals: Seq<String>,
    thread: String,
) -> (GraphView, Seq<usize>)
    decreases c,
{
    match c {
        CondExpr::Neg(e) => cond_reads(g, reads, *e, globals, thread),
        CondExpr::And(a, b) => {
            let (g1, r1) = cond_reads(g, reads, *a, globals, thread);
            cond_reads(g1, r1, *b, globals, thread)
        },
        CondExpr::Eq(a, b) => {
            let (g1, r1) = expr_reads(g, reads, a, globals, thread);
            expr_reads(g1, r1, b, globals, thread)
        },
        CondExpr::Leq(a, b) => {
            let (g1, r1) = expr_reads(g, reads, a, globals, thread);
            expr_reads(g1, r1, b, globals, thread)
        },
    }
}

/// A new event, po-after every node of `last`, which it then replaces.
pub open spec fn emit(st: Emit, n: Node) -> Emit {
    let i = st.g.nodes.len() as usize;
    Emit {
        g: connect(st.g.push_node(n), st.last, i),
        last: seq![i],
        reads: if n is Read {
            st.reads.push(i)
        } else {
            st.reads
        },
        writes: if n is Write {
            st.writes.push(i)
        } else {
            st.writes
        },
    }
}

/// `x := e`: the read of `e` if it is a global, then the write of `x` if it
/// is one. The result's second part is the statement's first event.
pub open spec fn access(st: Emit, x: String, e: Expr, globals: Seq<String>, thread: String) -> (
    Emit,
    Option<Seq<usize>>,
) {
    let (st1, f1) = match e {
        Expr::Var(y) => if is_global(globals, y@) {
            (emit(st, Node::Read(thread, y)), Some(seq![st.g.nodes.len() as usize]))
        } else {
            (st, None)
        },
        Expr::Num(_) => (st, None),
    };
    if is_global(globals, x@) {
        let f2 = if f1 is Some {
            f1
        } else {
            Some(seq![st1.g.nodes.len() as usize])
        };
        (emit(st1, Node::Write(thread, x)), f2)
    } else {
        (st1, f1)
    }
}

/// Append each node of `add` to `base` unless it is there already.
pub open spec fn add_unique(base: Seq<usize>, add: Seq<usize>) -> Seq<usize>
    decreases add.len(),
{
    if add.len() == 0 {
        base
    } else {
        let b = add_unique(base, add.drop_last());
        if b.contains(add.last()) {
            b
        } else {
            b.push(add.last())
        }
    }
}

/// The condition's reads, chained po-after `st.last`; the result's last
/// part is the condition's first read, if any.
pub open spec fn enter_cond(st: Emit, c: CondExpr, globals: Seq<String>, thread: String) -> (
    Emit,
    Seq<usize>,
) {
    let (g1, cr) = cond_reads(st.g, Seq::empty(), c, globals, thread);
    if cr.len() > 0 {
        (
            Emit {
                g: connect(g1, st.last, cr[0]),
                last: seq![cr.last()],
                reads: st.reads + cr,
                writes: st.writes,
            },
            cr,
        )
    } else {
        (Emit { g: g1, last: st.last, reads: st.reads, writes: st.writes }, cr)
    }
}

pub open spec fn if_spec(st: Emit, s: Statement, globals: Seq<String>, thread: String) -> (
    Emit,
    Option<Seq<usize>>,
)
    decreases s, 0nat,
{
    if let Statement::If(c, thn_v, els_v) = s {
    let thn = thn_v@;
    let els = els_v@;
    let (s1, cr) = enter_cond(st, c, globals, thread);
    let branch = s1.last;
    let (t, ft) = stmts_spec(s1, thn, globals, thread, thn.len());
    let (e, fe) = stmts_spec(
        Emit { g: t.g, last: branch, reads: t.reads, writes: t.writes },
        els,
        globals,
        thread,
        els.len(),
    );
    let first = if cr.len() > 0 {
        Some(seq![cr[0]])
    } else if ft is Some {
        Some(
            ft->0 + match fe {
                Some(f) => f,
                None => Seq::empty(),
            },
        )
    } else {
        fe
    };
    (
        Emit {
            g: e.g,
            last: add_unique(e.last, t.last) + branch,
            reads: e.reads,
            writes: e.writes,
        },
        first,
    )
    } else {
        (st, None)
    }
}

pub open spec fn while_spec(st: Emit, s: Statement, globals: Seq<String>, thread: String) -> (
    Emit,
    Option<Seq<usize>>,
)
    decreases s, 0nat,
{
    if let Statement::While(c, body_v) = s {
    let body = body_v@;
    let (s1, cr) = enter_cond(st, c, globals, thread);
    let branch = s1.last;
    let (b, fb) = stmts_spec(s1, body, globals, thread, body.len());
    if cr.len() > 0 {
        if fb is Some {
            let (g3, cr2) = cond_reads(b.g, Seq::empty(), c, globals, thread);
            if cr2.len() > 0 {
                (
                    Emit {
                        g: connect_all(connect(g3, b.last, cr2[0]), seq![cr2.last()], fb->0),
                        last: branch.push(cr2.last()),
                        reads: b.reads + cr2,
                        writes: b.writes,
                    },
                    Some(seq![cr[0]]),
                )
            } else {
                (Emit { g: g3, last: b.last, reads: b.reads, writes: b.writes }, Some(seq![cr[0]]))
            }
        } else {
            (
                Emit { g: connect(b.g, b.last, cr[0]), last: b.last, reads: b.reads, writes: b.writes },
                Some(seq![cr[0]]),
            )
        }
    } else if fb is Some {
        (
            Emit {
                g: connect_all(b.g, b.last, fb->0),
                last: b.last + branch,
                reads: b.reads,
                writes: b.writes,
            },
            fb,
        )
    } else {
        (b, None)
    }
    } else {
        (st, None)
    }
}

/// The events and edges of one statement.
pub open spec fn stmt_spec(st: Emit, s: Statement, globals: Seq<String>, thread: String) -> (
    Emit,
    Option<Seq<usize>>,
)
    decreases s, 1nat,
{
    match s {
        Statement::Assign(x, e) => access(st, x, e, globals, thread),
        Statement::Modify(x, e) => access(st, x, e, globals, thread),
        Statement::Fence(f) => {
            let i = st.g.nodes.len() as usize;
            (emit(st, Node::Fence(thread, Fence::Full)), Some(seq![i]))
        },
        Statement::If(..) => if_spec(st, s, globals, thread),
        Statement::While(..) => while_spec(st, s, globals, thread),
    }
}

/// The first `n` statements of `ss`, in order; the result's second part is
/// the first event of the first statement that has one.
pub open spec fn stmts_spec(
    st: Emit,
    ss: Seq<Statement>,
    globals: Seq<String>,
    thread: String,
    n: nat,
) -> (Emit, Option<Seq<usize>>)
    decreases ss, n,
{
    if n == 0 || n > ss.len() {
        (st, None)
    } else {
        let (s1, f1) = stmts_spec(st, ss, globals, thread, (n - 1) as nat);
        let (s2, f2) = stmt_spec(s1, ss[n - 1], globals, thread);
        (s2, if f1 is Some { f1 } else { f2 })
    }
}

} // verus!

verus! {

/// Every fence of the statement is a write-read fence, the one kind that
/// the analysis models.
pub open spec fn stmt_supported(s: Statement) -> bool
    decreases s, 1nat,
{
    match s {
        Statement::Fence(f) => f == FenceType::WR,
        Statement::If(_, thn, els) => stmts_supported(thn@, thn@.len()) && stmts_supported(
            els@,
            els@.len(),
        ),
        Statement::While(_, body) => stmts_supported(body@, body@.len()),
        _ => true,
    }
}

/// The first `n` statements of `ss` are supported.
pub open spec fn stmts_supported(ss: Seq<Statement>, n: nat) -> bool
    decreases ss, n,
{
    if n == 0 || n > ss.len() {
        true
    } else {
        stmts_supported(ss, (n - 1) as nat) && stmt_supported(ss[n - 1])
    }
}

pub open spec fn all_below(s: Seq<usize>, n: nat) -> bool {
    forall|k: int| 0 <= k < s.len() ==> #[trigger] s[k] < n
}

/// Every index that the state holds names a node of its graph, and the
/// graph has no parallel edges.
pub open spec fn wf(st: Emit) -> bool {
    &&& st.g.simple()
    &&& st.g.edges_in_range()
    &&& all_below(st.last, st.g.nodes.len())
    &&& all_below(st.reads, st.g.nodes.len())
    &&& all_below(st.writes, st.g.nodes.len())
}

/// `b` holds the nodes of `a`, unchanged, and maybe more after them.
pub open spec fn grows(a: GraphView, b: GraphView) -> bool {
    &&& a.nodes.len() <= b.nodes.len()
    &&& forall|i: int| 0 <= i < a.nodes.len() ==> #[trigger] b.nodes[i] == a.nodes[i]
}

pub open spec fn emit_of(g: Aeg, last: Vec<usize>, reads: Vec<usize>, writes: Vec<usize>) -> Emit {
    Emit { g: view_of(g), last: last@, reads: reads@, writes: writes@ }
}

/// Whether `x` names a global.
pub(crate) fn is_global_var(globals: &Vec<String>, x: &String) -> (r: bool)
    ensures
        r == is_global(globals@, x@),
{
    let mut i: usize = 0;
    while i < globals.len()
        invariant
            i <= globals@.len(),
            forall|k: int| 0 <= k < i ==> #[trigger] globals@[k]@ != x@,
        decreases globals@.len() - i,
    {
        if globals[i] == *x {
            return true;
        }
        i += 1;
    }
    false
}

fn single(i: usize) -> (r: Vec<usize>)
    ensures
        r@ == seq![i],
{
    let mut r: Vec<usize> = Vec::new();
    r.push(i);
    r
}

pub(crate) fn copy_vec(v: &Vec<usize>) -> (r: Vec<usize>)
    ensures
        r@ == v@,
{
    let mut r: Vec<usize> = Vec::new();
    let mut k: usize = 0;
    while k < v.len()
        invariant
            k <= v@.len(),
            r@ == v@.take(k as int),
        decreases v@.len() - k,
    {
        r.push(v[k]);
        k += 1;
        proof {
            assert(r@ =~= v@.take(k as int));
        }
    }
    proof {
        assert(v@.take(v@.len() as int) =~= v@);
    }
    r
}

pub(crate) fn append_all(dst: &mut Vec<usize>, src: &Vec<usize>)
    ensures
        final(dst)@ == old(dst)@ + src@,
{
    let ghost d0 = dst@;
    let mut k: usize = 0;
    while k < src.len()
        invariant
            k <= src@.len(),
            dst@ == d0 + src@.take(k as int),
        decreases src@.len() - k,
    {
        dst.push(src[k]);
        k += 1;
        proof {
            assert(dst@ =~= d0 + src@.take(k as int));
        }
    }
    proof {
        assert(src@.take(src@.len() as int) =~= src@);
    }
}

pub(crate) fn vec_contains(v: &Vec<usize>, x: usize) -> (r: bool)
    ensures
        r == v@.contains(x),
{
    let mut k: usize = 0;
    while k < v.len()
        invariant
            k <= v@.len(),
            forall|m: int| 0 <= m < k ==> v@[m] != x,
        decreases v@.len() - k,
    {
        if v[k] == x {
            return true;
        }
        k += 1;
    }
    false
}

/// Append each node of `add` to `base` unless it is there already.
fn merge_unique(base: &mut Vec<usize>, add: &Vec<usize>)
    ensures
        final(base)@ == add_unique(old(base)@, add@),
{
    let ghost b0 = base@;
    let mut k: usize = 0;
    while k < add.len()
        invariant
            k <= add@.len(),
            base@ == add_unique(b0, add@.take(k as int)),
        decreases add@.len() - k,
    {
        proof {
            assert(add@.take(k + 1).drop_last() =~= add@.take(k as int));
        }
        if !vec_contains(base, add[k]) {
            base.push(add[k]);
        }
        k += 1;
    }
    proof {
        assert(add@.take(add@.len() as int) =~= add@);
    }
}

/// Draw a po edge from each node of `last` to `cur`, but from `cur` itself.
fn connect_previous(g: &mut Aeg, last: &Vec<usize>, cur: usize)
    requires
        all_below(last@, graph_nodes(*old(g)).len()),
        cur < graph_nodes(*old(g)).len(),
        view_of(*old(g)).simple(),
        view_of(*old(g)).edges_in_range(),
    ensures
        view_of(*final(g)) == connect(view_of(*old(g)), last@, cur),
        graph_nodes(*final(g)) == graph_nodes(*old(g)),
        view_of(*final(g)).simple(),
        view_of(*final(g)).edges_in_range(),
{
    let ghost g0 = view_of(*g);
    let mut i: usize = 0;
    while i < last.len()
        invariant
            i <= last@.len(),
            all_below(last@, g0.nodes.len()),
            cur < g0.nodes.len(),
            view_of(*g) == connect(g0, last@.take(i as int), cur),
            graph_nodes(*g) == g0.nodes,
            view_of(*g).simple(),
            view_of(*g).edges_in_range(),
        decreases last@.len() - i,
    {
        proof {
            assert(last@.take(i + 1).drop_last() =~= last@.take(i as int));
        }
        let node = last[i];
        if node != cur {
            proof {
                lemma_update_keeps_simple(view_of(*g), node, cur, AegEdge::ProgramOrder);
            }
            update_edge(g, node, cur, AegEdge::ProgramOrder);
        }
        i += 1;
    }
    proof {
        assert(last@.take(last@.len() as int) =~= last@);
    }
}

/// `connect_previous` from `last` to each node of `targets`, in order.
fn connect_to_all(g: &mut Aeg, last: &Vec<usize>, targets: &Vec<usize>)
    requires
        all_below(last@, graph_nodes(*old(g)).len()),
        all_below(targets@, graph_nodes(*old(g)).len()),
        view_of(*old(g)).simple(),
        view_of(*old(g)).edges_in_range(),
    ensures
        view_of(*final(g)) == connect_all(view_of(*old(g)), last@, targets@),
        graph_nodes(*final(g)) == graph_nodes(*old(g)),
        view_of(*final(g)).simple(),
        view_of(*final(g)).edges_in_range(),
{
    let ghost g0 = view_of(*g);
    let mut i: usize = 0;
    while i < targets.len()
        invariant
            i <= targets@.len(),
            all_below(last@, g0.nodes.len()),
            all_below(targets@, g0.nodes.len()),
            view_of(*g) == connect_all(g0, last@, targets@.take(i as int)),
            graph_nodes(*g) == g0.nodes,
            view_of(*g).simple(),
            view_of(*g).edges_in_range(),
        decreases targets@.len() - i,
    {
        proof {
            assert(targets@.take(i + 1).drop_last() =~= targets@.take(i as int));
        }
        connect_previous(g, last, targets[i]);
        i += 1;
    }
    proof {
        assert(targets@.take(targets@.len() as int) =~= targets@);
    }
}

fn handle_expression(
    g: &mut Aeg,
    reads: &mut Vec<usize>,
    e: &Expr,
    globals: &Vec<String>,
    thread: &String,
)
    requires
        all_below(old(reads)@, graph_nodes(*old(g)).len()),
        view_of(*old(g)).simple(),
        view_of(*old(g)).edges_in_range(),
    ensures
        ({
            let (g1, r1) = expr_reads(view_of(*old(g)), old(reads)@, *e, globals@, *thread);
            view_of(*final(g)) == g1 && final(reads)@ == r1
        }),
        all_below(final(reads)@, graph_nodes(*final(g)).len()),
        grows(view_of(*old(g)), view_of(*final(g))),
        view_of(*final(g)).simple(),
        view_of(*final(g)).edges_in_range(),
{
    match e {
        Expr::Num(_) => {},
        Expr::Var(v) => {
            if is_global_var(globals, v) {
                let ghost g0 = view_of(*g);
                proof {
                    lemma_push_node_keeps_simple(g0, Node::Read(*thread, *v));
                }
                let n = add_node(g, Node::Read(thread.clone(), v.clone()));
                if reads.len() > 0 {
                    let l = reads[reads.len() - 1];
                    proof {
                        let g1 = view_of(*g);
                        assert forall|e: int| 0 <= e < g1.edges.len() implies g1.edges[e].target != n by {
                            assert(g0.edges[e].source < g0.nodes.len());
                            assert(g0.edges[e].target < g0.nodes.len());
                        }
                        lemma_push_fresh_target(g1, l, n, AegEdge::ProgramOrder);
                    }
                    add_edge(g, l, n, AegEdge::ProgramOrder);
                }
                reads.push(n);
            }
        },
    }
}

/// The reads of globals in a condition, left to right, chained in po.
fn handle_condition(
    g: &mut Aeg,
    reads: &mut Vec<usize>,
    c: &CondExpr,
    globals: &Vec<String>,
    thread: &String,
)
    requires
        all_below(old(reads)@, graph_nodes(*old(g)).len()),
        view_of(*old(g)).simple(),
        view_of(*old(g)).edges_in_range(),
    ensures
        ({
            let (g1, r1) = cond_reads(view_of(*old(g)), old(reads)@, *c, globals@, *thread);
            view_of(*final(g)) == g1 && final(reads)@ == r1
        }),
        all_below(final(reads)@, graph_nodes(*final(g)).len()),
        grows(view_of(*old(g)), view_of(*final(g))),
        view_of(*final(g)).simple(),
        view_of(*final(g)).edges_in_range(),
    decreases c,
{
    match c {
        CondExpr::Neg(e) => handle_condition(g, reads, e, globals, thread),
        CondExpr::And(a, b) => {
            handle_condition(g, reads, a, globals, thread);
            handle_condition(g, reads, b, globals, thread);
        },
        CondExpr::Eq(a, b) => {
            handle_expression(g, reads, a, globals, thread);
            handle_expression(g, reads, b, globals, thread);
        },
        CondExpr::Leq(a, b) => {
            handle_expression(g, reads, a, globals, thread);
            handle_expression(g, reads, b, globals, thread);
        },
    }
}

} // verus!

verus! {

/// Add the event `n` po-after every node of `last`, which it then replaces.
fn emit_event(
    g: &mut Aeg,
    last: &mut Vec<usize>,
    reads: &mut Vec<usize>,
    writes: &mut Vec<usize>,
    n: Node,
) -> (i: usize)
    requires
        wf(emit_of(*old(g), *old(last), *old(reads), *old(writes))),
    ensures
        emit_of(*final(g), *final(last), *final(reads), *final(writes)) == emit(
            emit_of(*old(g), *old(last), *old(reads), *old(writes)),
            n,
        ),
        i == graph_nodes(*old(g)).len(),
        wf(emit_of(*final(g), *final(last), *final(reads), *final(writes))),
        grows(view_of(*old(g)), view_of(*final(g))),
{
    let is_read = matches!(n, Node::Read(..));
    let is_write = matches!(n, Node::Write(..));
    proof {
        lemma_push_node_keeps_simple(view_of(*g), n);
    }
    let i = add_node(g, n);
    connect_previous(g, last, i);
    *last = single(i);
    if is_read {
        reads.push(i);
    } else if is_write {
        writes.push(i);
    }
    i
}

/// `x := e`: the read of `e` if it is a global, then the write of `x` if it
/// is one. Returns the first event emitted, if any.
fn handle_access(
    g: &mut Aeg,
    last: &mut Vec<usize>,
    reads: &mut Vec<usize>,
    writes: &mut Vec<usize>,
    x: &String,
    e: &Expr,
    globals: &Vec<String>,
    thread: &String,
) -> (r: Option<Vec<usize>>)
    requires
        wf(emit_of(*old(g), *old(last), *old(reads), *old(writes))),
    ensures
        ({
            let (st, f) = access(
                emit_of(*old(g), *old(last), *old(reads), *old(writes)),
                *x,
                *e,
                globals@,
                *thread,
            );
            emit_of(*final(g), *final(last), *final(reads), *final(writes)) == st && opt_view(r)
                == f
        }),
        wf(emit_of(*final(g), *final(last), *final(reads), *final(writes))),
        grows(view_of(*old(g)), view_of(*final(g))),
        r matches Some(v) ==> all_below(v@, graph_nodes(*final(g)).len()),
{
    let mut first: Option<Vec<usize>> = None;
    match e {
        Expr::Var(y) => {
            if is_global_var(globals, y) {
                let r = emit_event(g, last, reads, writes, Node::Read(thread.clone(), y.clone()));
                first = Some(single(r));
            }
        },
        Expr::Num(_) => {},
    }
    if is_global_var(globals, x) {
        let w = emit_event(g, last, reads, writes, Node::Write(thread.clone(), x.clone()));
        if first.is_none() {
            first = Some(single(w));
        }
    }
    first
}

/// The reads of a condition, chained po-after `last`, which the last of them
/// then replaces. Returns the reads.
fn enter_condition(
    g: &mut Aeg,
    last: &mut Vec<usize>,
    reads: &mut Vec<usize>,
    writes: &mut Vec<usize>,
    c: &CondExpr,
    globals: &Vec<String>,
    thread: &String,
) -> (cr: Vec<usize>)
    requires
        wf(emit_of(*old(g), *old(last), *old(reads), *old(writes))),
    ensures
        ({
            let (st, crs) = enter_cond(
                emit_of(*old(g), *old(last), *old(reads), *old(writes)),
                *c,
                globals@,
                *thread,
            );
            emit_of(*final(g), *final(last), *final(reads), *final(writes)) == st && cr@ == crs
        }),
        wf(emit_of(*final(g), *final(last), *final(reads), *final(writes))),
        grows(view_of(*old(g)), view_of(*final(g))),
        all_below(cr@, graph_nodes(*final(g)).len()),
{
    let mut cr: Vec<usize> = Vec::new();
    handle_condition(g, &mut cr, c, globals, thread);
    if cr.len() > 0 {
        connect_previous(g, last, cr[0]);
        *last = single(cr[cr.len() - 1]);
        append_all(reads, &cr);
    }
    cr
}

/// The events and edges of one statement; returns its first event(s).
fn handle_statement(
    g: &mut Aeg,
    last: &mut Vec<usize>,
    reads: &mut Vec<usize>,
    writes: &mut Vec<usize>,
    s: &Statement,
    globals: &Vec<String>,
    thread: &String,
) -> (r: Option<Vec<usize>>)
    requires
        wf(emit_of(*old(g), *old(last), *old(reads), *old(writes))),
        stmt_supported(*s),
    ensures
        ({
            let (st, f) = stmt_spec(
                emit_of(*old(g), *old(last), *old(reads), *old(writes)),
                *s,
                globals@,
                *thread,
            );
            emit_of(*final(g), *final(last), *final(reads), *final(writes)) == st && opt_view(r)
                == f
        }),
        wf(emit_of(*final(g), *final(last), *final(reads), *final(writes))),
        grows(view_of(*old(g)), view_of(*final(g))),
        r matches Some(v) ==> all_below(v@, graph_nodes(*final(g)).len()),
    decreases s, 1nat,
{
    match s {
        Statement::Assign(x, e) => handle_access(g, last, reads, writes, x, e, globals, thread),
        Statement::Modify(x, e) => handle_access(g, last, reads, writes, x, e, globals, thread),
        Statement::Fence(_) => {
            let f = emit_event(g, last, reads, writes, Node::Fence(thread.clone(), Fence::Full));
            Some(single(f))
        },
        Statement::If(..) => handle_if(g, last, reads, writes, s, globals, thread),
        Statement::While(..) => handle_while(g, last, reads, writes, s, globals, thread),
    }
}

/// The statements of `ss`, in order; returns the first event(s) of the
/// first statement that has any.
fn handle_statements(
    g: &mut Aeg,
    last: &mut Vec<usize>,
    reads: &mut Vec<usize>,
    writes: &mut Vec<usize>,
    ss: &Vec<Statement>,
    globals: &Vec<String>,
    thread: &String,
) -> (r: Option<Vec<usize>>)
    requires
        wf(emit_of(*old(g), *old(last), *old(reads), *old(writes))),
        stmts_supported(ss@, ss@.len()),
    ensures
        ({
            let (st, f) = stmts_spec(
                emit_of(*old(g), *old(last), *old(reads), *old(writes)),
                ss@,
                globals@,
                *thread,
                ss@.len(),
            );
            emit_of(*final(g), *final(last), *final(reads), *final(writes)) == st && opt_view(r)
                == f
        }),
        wf(emit_of(*final(g), *final(last), *final(reads), *final(writes))),
        grows(view_of(*old(g)), view_of(*final(g))),
        r matches Some(v) ==> all_below(v@, graph_nodes(*final(g)).len()),
    decreases ss, 0nat,
{
    let ghost st0 = emit_of(*g, *last, *reads, *writes);
    let mut first: Option<Vec<usize>> = None;
    let mut i: usize = 0;
    proof {
        lemma_stmts_supported_prefix(ss@, ss@.len(), 0);
    }
    while i < ss.len()
        invariant
            i <= ss@.len(),
            stmts_supported(ss@, ss@.len()),
            wf(emit_of(*g, *last, *reads, *writes)),
            grows(st0.g, view_of(*g)),
            ({
                let (st, f) = stmts_spec(st0, ss@, globals@, *thread, i as nat);
                emit_of(*g, *last, *reads, *writes) == st && opt_view(first) == f
            }),
            first matches Some(v) ==> all_below(v@, graph_nodes(*g).len()),
        decreases ss@.len() - i,
    {
        proof {
            lemma_stmts_supported_prefix(ss@, ss@.len(), (i + 1) as nat);
            assert(decreases_to!(ss => ss@[i as int]));
        }
        let ghost gb = view_of(*g);
        let f = handle_statement(g, last, reads, writes, &ss[i], globals, thread);
        if first.is_none() {
            first = f;
        } else {
            proof {
                let v = first->0;
                assert forall|k: int| 0 <= k < v@.len() implies #[trigger] v@[k] < graph_nodes(
                    *g,
                ).len() by {
                    assert(v@[k] < gb.nodes.len());
                }
            }
        }
        i += 1;
    }
    first
}

pub(crate) proof fn lemma_stmts_supported_prefix(ss: Seq<Statement>, n: nat, m: nat)
    requires
        stmts_supported(ss, n),
        n <= ss.len(),
        m <= n,
    ensures
        stmts_supported(ss, m),
        0 < m ==> stmt_supported(ss[m - 1]),
    decreases n - m,
{
    if m < n {
        lemma_stmts_supported_prefix(ss, (n - 1) as nat, m);
    }
}

/// `if (c) { thn } else { els }`: the branches start from the condition's
/// last read; afterwards the ends of both branches and the branch point
/// itself (the skip connection) precede the next event.
fn handle_if(
    g: &mut Aeg,
    last: &mut Vec<usize>,
    reads: &mut Vec<usize>,
    writes: &mut Vec<usize>,
    s: &Statement,
    globals: &Vec<String>,
    thread: &String,
) -> (r: Option<Vec<usize>>)
    requires
        wf(emit_of(*old(g), *old(last), *old(reads), *old(writes))),
        stmt_supported(*s),
        s is If,
    ensures
        ({
            let (st, f) = if_spec(
                emit_of(*old(g), *old(last), *old(reads), *old(writes)),
                *s,
                globals@,
                *thread,
            );
            emit_of(*final(g), *final(last), *final(reads), *final(writes)) == st && opt_view(r)
                == f
        }),
        wf(emit_of(*final(g), *final(last), *final(reads), *final(writes))),
        grows(view_of(*old(g)), view_of(*final(g))),
        r matches Some(v) ==> all_below(v@, graph_nodes(*final(g)).len()),
    decreases s, 0nat,
{
    if let Statement::If(c, thn, els) = s {
        let cr = enter_condition(g, last, reads, writes, c, globals, thread);
        let branch = copy_vec(last);
        let mut thn_last = copy_vec(last);
        let ghost g1 = view_of(*g);
        let ft = handle_statements(g, &mut thn_last, reads, writes, thn, globals, thread);
        let ghost g2 = view_of(*g);
        let fe = handle_statements(g, last, reads, writes, els, globals, thread);
        let ghost g3 = view_of(*g);
        let ghost le = last@;
        merge_unique(last, &thn_last);
        append_all(last, &branch);
        proof {
            assert forall|k: int| 0 <= k < last@.len() implies #[trigger] last@[k] < g3.nodes.len() by {
                let merged = add_unique(le, thn_last@);
                lemma_add_unique_below(le, thn_last@, g3.nodes.len());
                if k < merged.len() {
                    assert(last@[k] == merged[k]);
                } else {
                    assert(last@[k] == branch@[k - merged.len()]);
                }
            }
        }
        if cr.len() > 0 {
            Some(single(cr[0]))
        } else if let Some(mut ftv) = ft {
            if let Some(fev) = fe {
                append_all(&mut ftv, &fev);
            }
            Some(ftv)
        } else {
            fe
        }
    } else {
        None
    }
}

proof fn lemma_add_unique_below(base: Seq<usize>, add: Seq<usize>, n: nat)
    requires
        all_below(base, n),
        all_below(add, n),
    ensures
        all_below(add_unique(base, add), n),
    decreases add.len(),
{
    if add.len() > 0 {
        lemma_add_unique_below(base, add.drop_last(), n);
    }
}

/// `while (c) { body }`: the condition is read a second time after the
/// body, with a back edge from that second copy to the body's first event;
/// both copies of the condition precede the next event.
fn handle_while(
    g: &mut Aeg,
    last: &mut Vec<usize>,
    reads: &mut Vec<usize>,
    writes: &mut Vec<usize>,
    s: &Statement,
    globals: &Vec<String>,
    thread: &String,
) -> (r: Option<Vec<usize>>)
    requires
        wf(emit_of(*old(g), *old(last), *old(reads), *old(writes))),
        stmt_supported(*s),
        s is While,
    ensures
        ({
            let (st, f) = while_spec(
                emit_of(*old(g), *old(last), *old(reads), *old(writes)),
                *s,
                globals@,
                *thread,
            );
            emit_of(*final(g), *final(last), *final(reads), *final(writes)) == st && opt_view(r)
                == f
        }),
        wf(emit_of(*final(g), *final(last), *final(reads), *final(writes))),
        grows(view_of(*old(g)), view_of(*final(g))),
        r matches Some(v) ==> all_below(v@, graph_nodes(*final(g)).len()),
    decreases s, 0nat,
{
    if let Statement::While(c, body) = s {
        let cr = enter_condition(g, last, reads, writes, c, globals, thread);
        let branch = copy_vec(last);
        let fb = handle_statements(g, last, reads, writes, body, globals, thread);
        if cr.len() > 0 {
            if let Some(fbv) = fb {
                let mut cr2: Vec<usize> = Vec::new();
                handle_condition(g, &mut cr2, c, globals, thread);
                if cr2.len() > 0 {
                    connect_previous(g, last, cr2[0]);
                    let lr = cr2[cr2.len() - 1];
                    let lrv = single(lr);
                    connect_to_all(g, &lrv, &fbv);
                    append_all(reads, &cr2);
                    let mut nl = branch;
                    nl.push(lr);
                    *last = nl;
                }
                Some(single(cr[0]))
            } else {
                connect_previous(g, last, cr[0]);
                Some(single(cr[0]))
            }
        } else if let Some(fbv) = fb {
            connect_to_all(g, last, &fbv);
            append_all(last, &branch);
            Some(fbv)
        } else {
            None
        }
    } else {
        None
    }
}

} // verus!

verus! {

/// The writes and the reads of each thread, in thread order.
pub type ThreadAccesses = Seq<(Seq<usize>, Seq<usize>)>;

/// The events and po edges of the first `n` threads, each built from an
/// empty state, and the writes and reads of each.
pub open spec fn threads_spec(g: GraphView, threads: Seq<Thread>, globals: Seq<String>, n: nat) -> (
    GraphView,
    ThreadAccesses,
)
    decreases n,
{
    if n == 0 || n > threads.len() {
        (g, Seq::empty())
    } else {
        let (g1, tn) = threads_spec(g, threads, globals, (n - 1) as nat);
        let t = threads[n - 1];
        let st = stmts_spec(
            Emit { g: g1, last: Seq::empty(), reads: Seq::empty(), writes: Seq::empty() },
            t.instructions@,
            globals,
            t.name,
            t.instructions@.len(),
        ).0;
        (st.g, tn.push((st.writes, st.reads)))
    }
}

/// The two competing edges between write `w` and access `o` when they
/// touch the same location.
pub open spec fn pair_competing(g: GraphView, w: usize, o: usize) -> GraphView {
    if g.nodes[o as int].memory() == g.nodes[w as int].memory() {
        g.update_edge(w, o, AegEdge::Competing).update_edge(o, w, AegEdge::Competing)
    } else {
        g
    }
}

/// `pair_competing` of `w` with the first `n` accesses of `others`.
pub open spec fn against(g: GraphView, w: usize, others: Seq<usize>, n: nat) -> GraphView
    decreases n,
{
    if n == 0 || n > others.len() {
        g
    } else {
        pair_competing(against(g, w, others, (n - 1) as nat), w, others[n - 1])
    }
}

/// The competing edges of write `w` of thread `i` with the writes, then the
/// reads, of each of the first `n` threads but `i`.
pub open spec fn write_competing(g: GraphView, w: usize, tn: ThreadAccesses, i: int, n: nat) -> GraphView
    decreases n,
{
    if n == 0 || n > tn.len() {
        g
    } else {
        let g1 = write_competing(g, w, tn, i, (n - 1) as nat);
        if n - 1 == i {
            g1
        } else {
            let (ws, rs) = tn[n - 1];
            against(against(g1, w, ws, ws.len()), w, rs, rs.len())
        }
    }
}

/// The competing edges of the first `n` writes of thread `i`.
pub open spec fn thread_competing(g: GraphView, tn: ThreadAccesses, i: int, n: nat) -> GraphView
    decreases n,
{
    if n == 0 || n > tn[i].0.len() {
        g
    } else {
        write_competing(thread_competing(g, tn, i, (n - 1) as nat), tn[i].0[n - 1], tn, i, tn.len())
    }
}

/// The competing edges of the writes of the first `n` threads.
pub open spec fn all_competing(g: GraphView, tn: ThreadAccesses, n: nat) -> GraphView
    decreases n,
{
    if n == 0 || n > tn.len() {
        g
    } else {
        thread_competing(all_competing(g, tn, (n - 1) as nat), tn, n - 1, tn[n - 1].0.len())
    }
}

/// The abstract event graph of a program: the threads' events and po
/// edges, then the competing edges.
pub open spec fn aeg_spec(p: Program) -> GraphView {
    let (g, tn) = threads_spec(GraphView::empty(), p.threads@, p.global_vars@, p.threads@.len());
    all_competing(g, tn, tn.len())
}

/// Every fence of the program is a write-read fence.
pub open spec fn program_supported(p: Program) -> bool {
    forall|t: int|
        0 <= t < p.threads@.len() ==> stmts_supported(
            #[trigger] p.threads@[t].instructions@,
            p.threads@[t].instructions@.len(),
        )
}

pub open spec fn accesses_view(tn: Seq<(Vec<usize>, Vec<usize>)>) -> ThreadAccesses {
    tn.map_values(|p: (Vec<usize>, Vec<usize>)| (p.0@, p.1@))
}

pub open spec fn accesses_below(tn: ThreadAccesses, n: nat) -> bool {
    &&& forall|t: int| 0 <= t < tn.len() ==> all_below(#[trigger] tn[t].0, n)
    &&& forall|t: int| 0 <= t < tn.len() ==> all_below(#[trigger] tn[t].1, n)
}

/// Whether two events access the same location (or are both fences).
pub(crate) fn same_memory(a: &Node, b: &Node) -> (r: bool)
    ensures
        r == (a.memory() == b.memory()),
{
    match (a.address(), b.address()) {
        (Some(x), Some(y)) => *x == *y,
        (None, None) => true,
        _ => false,
    }
}

fn competing_against(g: &mut Aeg, w: usize, others: &Vec<usize>)
    requires
        w < graph_nodes(*old(g)).len(),
        all_below(others@, graph_nodes(*old(g)).len()),
        view_of(*old(g)).simple(),
        view_of(*old(g)).edges_in_range(),
    ensures
        view_of(*final(g)) == against(view_of(*old(g)), w, others@, others@.len()),
        graph_nodes(*final(g)) == graph_nodes(*old(g)),
        view_of(*final(g)).simple(),
        view_of(*final(g)).edges_in_range(),
{
    let ghost g0 = view_of(*g);
    let mut k: usize = 0;
    while k < others.len()
        invariant
            k <= others@.len(),
            w < g0.nodes.len(),
            all_below(others@, g0.nodes.len()),
            view_of(*g) == against(g0, w, others@, k as nat),
            graph_nodes(*g) == g0.nodes,
            view_of(*g).simple(),
            view_of(*g).edges_in_range(),
        decreases others@.len() - k,
    {
        let o = others[k];
        if same_memory(node_at(g, o), node_at(g, w)) {
            proof {
                lemma_update_keeps_simple(view_of(*g), w, o, AegEdge::Competing);
            }
            update_edge(g, w, o, AegEdge::Competing);
            proof {
                lemma_update_keeps_simple(view_of(*g), o, w, AegEdge::Competing);
            }
            update_edge(g, o, w, AegEdge::Competing);
        }
        k += 1;
    }
}

/// Competing edges between each write of a thread and each access of
/// another thread to the same location, in both directions.
fn add_competing_edges(g: &mut Aeg, tn: &Vec<(Vec<usize>, Vec<usize>)>)
    requires
        accesses_below(accesses_view(tn@), graph_nodes(*old(g)).len()),
        view_of(*old(g)).simple(),
        view_of(*old(g)).edges_in_range(),
    ensures
        view_of(*final(g)) == all_competing(view_of(*old(g)), accesses_view(tn@), tn@.len()),
        graph_nodes(*final(g)) == graph_nodes(*old(g)),
        view_of(*final(g)).simple(),
        view_of(*final(g)).edges_in_range(),
{
    let ghost g0 = view_of(*g);
    let ghost tv = accesses_view(tn@);
    let mut i: usize = 0;
    while i < tn.len()
        invariant
            i <= tn@.len(),
            tv == accesses_view(tn@),
            accesses_below(tv, g0.nodes.len()),
            view_of(*g) == all_competing(g0, tv, i as nat),
            graph_nodes(*g) == g0.nodes,
            view_of(*g).simple(),
            view_of(*g).edges_in_range(),
        decreases tn@.len() - i,
    {
        let ghost gi = view_of(*g);
        let ws = &tn[i].0;
        let mut k: usize = 0;
        while k < ws.len()
            invariant
                i < tn@.len(),
                k <= ws@.len(),
                *ws == tn@[i as int].0,
                tv == accesses_view(tn@),
                accesses_below(tv, g0.nodes.len()),
                gi == all_competing(g0, tv, i as nat),
                view_of(*g) == thread_competing(gi, tv, i as int, k as nat),
                graph_nodes(*g) == g0.nodes,
                view_of(*g).simple(),
                view_of(*g).edges_in_range(),
            decreases ws@.len() - k,
        {
            let w = ws[k];
            let ghost gk = view_of(*g);
            assert(tv[i as int].0 == ws@);
            assert(w < g0.nodes.len());
            let mut j: usize = 0;
            while j < tn.len()
                invariant
                    i < tn@.len(),
                    k < ws@.len(),
                    w == ws@[k as int],
                    w < g0.nodes.len(),
                    *ws == tn@[i as int].0,
                    tv == accesses_view(tn@),
                    accesses_below(tv, g0.nodes.len()),
                    j <= tn@.len(),
                    view_of(*g) == write_competing(gk, w, tv, i as int, j as nat),
                    graph_nodes(*g) == g0.nodes,
                    view_of(*g).simple(),
                    view_of(*g).edges_in_range(),
                decreases tn@.len() - j,
            {
                if j != i {
                    assert(tv[j as int] == (tn@[j as int].0@, tn@[j as int].1@));
                    assert(all_below(tv[j as int].0, g0.nodes.len()));
                    assert(all_below(tv[j as int].1, g0.nodes.len()));
                    competing_against(g, w, &tn[j].0);
                    competing_against(g, w, &tn[j].1);
                }
                j += 1;
            }
            k += 1;
        }
        i += 1;
    }
}

/// Build the abstract event graph of a program whose fences are all
/// write-read fences.
pub fn create_aeg(program: &Program) -> (g: Aeg)
    requires
        program_supported(*program),
    ensures
        view_of(g) == aeg_spec(*program),
        view_of(g).simple(),
        view_of(g).edges_in_range(),
{
    let mut g = new_graph();
    let mut thread_nodes: Vec<(Vec<usize>, Vec<usize>)> = Vec::new();
    let mut t: usize = 0;
    while t < program.threads.len()
        invariant
            t <= program.threads@.len(),
            program_supported(*program),
            (view_of(g), accesses_view(thread_nodes@)) == threads_spec(
                GraphView::empty(),
                program.threads@,
                program.global_vars@,
                t as nat,
            ),
            accesses_below(accesses_view(thread_nodes@), graph_nodes(g).len()),
            thread_nodes@.len() == t,
            view_of(g).simple(),
            view_of(g).edges_in_range(),
        decreases program.threads@.len() - t,
    {
        let thread = &program.threads[t];
        assert(stmts_supported(thread.instructions@, thread.instructions@.len()));
        let mut last: Vec<usize> = Vec::new();
        let mut reads: Vec<usize> = Vec::new();
        let mut writes: Vec<usize> = Vec::new();
        let ghost gb = view_of(g);
        handle_statements(
            &mut g,
            &mut last,
            &mut reads,
            &mut writes,
            &thread.instructions,
            &program.global_vars,
            &thread.name,
        );
        let ghost tn0 = accesses_view(thread_nodes@);
        thread_nodes.push((writes, reads));
        proof {
            assert(accesses_view(thread_nodes@) =~= tn0.push((writes@, reads@)));
            assert(emit_of(g, last, reads, writes).g == view_of(g));
            let n = graph_nodes(g).len();
            assert forall|u: int| 0 <= u < accesses_view(thread_nodes@).len() implies all_below(
                #[trigger] accesses_view(thread_nodes@)[u].0,
                n,
            ) && all_below(accesses_view(thread_nodes@)[u].1, n) by {
                if u < tn0.len() {
                    assert(accesses_view(thread_nodes@)[u] == tn0[u]);
                    assert forall|k: int| 0 <= k < tn0[u].0.len() implies #[trigger] tn0[u].0[k]
                        < n by {
                        assert(tn0[u].0[k] < gb.nodes.len());
                    }
                    assert forall|k: int| 0 <= k < tn0[u].1.len() implies #[trigger] tn0[u].1[k]
                        < n by {
                        assert(tn0[u].1[k] < gb.nodes.len());
                    }
                }
            }
        }
        t += 1;
    }
    add_competing_edges(&mut g, &thread_nodes);
    g
}

} // verus!
