//! Facts that hold of every graph the construction builds: its edges join
//! nodes of the graph, po edges never cross threads, and competing edges
//! come in opposite pairs between accesses of different threads to one
//! location, at least one of them a write.
use crate::ast::{CondExpr, Expr, Program, Statement, Thread};
use crate::builder::{
    access, add_unique, aeg_spec, against, all_competing, cond_reads, connect, connect_all, emit,
    enter_cond, expr_reads, grows, if_spec, pair_competing, stmt_spec, stmts_spec, thread_competing,
    threads_spec, while_spec, write_competing, Emit, ThreadAccesses,
};
use crate::graph::{AegEdge, EdgeView, GraphView, Node};
use vstd::prelude::*;

verus! {

/// Every po edge joins two events of the same thread.
pub open spec fn po_within_threads(g: GraphView) -> bool {
    forall|e: int|
        0 <= e < g.edges.len() && #[trigger] g.edges[e].kind == AegEdge::ProgramOrder
            ==> g.nodes[g.edges[e].source as int].thread() == g.nodes[g.edges[e].target as int].thread()
}

/// Every competing edge joins accesses of different threads to the same
/// location, at least one of them a write, and has an opposite twin.
pub open spec fn competing_well_formed(g: GraphView) -> bool {
    forall|e: int|
        0 <= e < g.edges.len() && #[trigger] g.edges[e].kind == AegEdge::Competing ==> {
            let u = g.nodes[g.edges[e].source as int];
            let v = g.nodes[g.edges[e].target as int];
            &&& u.thread() != v.thread()
            &&& u.memory() is Some
            &&& u.memory() == v.memory()
            &&& u.is_write() || v.is_write()
            &&& g.has_edge(g.edges[e].target, g.edges[e].source, AegEdge::Competing)
        }
}

/// Each node of `s` is an event of thread `t`.
pub open spec fn owned(s: Seq<usize>, g: GraphView, t: Seq<char>) -> bool {
    forall|k: int|
        0 <= k < s.len() ==> #[trigger] s[k] < g.nodes.len() && g.nodes[s[k] as int].thread() == t
}

pub open spec fn all_reads(s: Seq<usize>, g: GraphView) -> bool {
    forall|k: int| 0 <= k < s.len() ==> (#[trigger] g.nodes[s[k] as int]).is_read()
}

pub open spec fn all_writes(s: Seq<usize>, g: GraphView) -> bool {
    forall|k: int| 0 <= k < s.len() ==> (#[trigger] g.nodes[s[k] as int]).is_write()
}

/// No edge is a competing edge (yet).
pub open spec fn all_po(g: GraphView) -> bool {
    forall|e: int| 0 <= e < g.edges.len() ==> #[trigger] g.edges[e].kind == AegEdge::ProgramOrder
}

pub open spec fn graph_ok(g: GraphView) -> bool {
    g.edges_in_range() && po_within_threads(g) && all_po(g)
}

/// The invariant of the construction of thread `t`.
pub open spec fn thread_inv(st: Emit, t: Seq<char>) -> bool {
    &&& graph_ok(st.g)
    &&& owned(st.last, st.g, t)
    &&& owned(st.reads, st.g, t) && all_reads(st.reads, st.g)
    &&& owned(st.writes, st.g, t) && all_writes(st.writes, st.g)
}

proof fn lemma_owned_grows(s: Seq<usize>, g1: GraphView, g2: GraphView, t: Seq<char>)
    requires
        owned(s, g1, t),
        grows(g1, g2),
    ensures
        owned(s, g2, t),
        all_reads(s, g1) ==> all_reads(s, g2),
        all_writes(s, g1) ==> all_writes(s, g2),
{
    assert forall|k: int| 0 <= k < s.len() implies #[trigger] s[k] < g2.nodes.len()
        && g2.nodes[s[k] as int].thread() == t by {
        assert(g2.nodes[s[k] as int] == g1.nodes[s[k] as int]);
    }
    if all_reads(s, g1) {
        assert forall|k: int| 0 <= k < s.len() implies (#[trigger] g2.nodes[s[k] as int]).is_read() by {
            assert(g2.nodes[s[k] as int] == g1.nodes[s[k] as int]);
        }
    }
    if all_writes(s, g1) {
        assert forall|k: int| 0 <= k < s.len() implies (#[trigger] g2.nodes[s[k] as int]).is_write() by {
            assert(g2.nodes[s[k] as int] == g1.nodes[s[k] as int]);
        }
    }
}

/// Relabelling or adding a po edge between two events of one thread keeps
/// the graph well formed.
proof fn lemma_update_po(g: GraphView, a: usize, b: usize)
    requires
        graph_ok(g),
        a < g.nodes.len(),
        b < g.nodes.len(),
        g.nodes[a as int].thread() == g.nodes[b as int].thread(),
    ensures
        graph_ok(g.update_edge(a, b, AegEdge::ProgramOrder)),
        g.update_edge(a, b, AegEdge::ProgramOrder).nodes == g.nodes,
{
    let g2 = g.update_edge(a, b, AegEdge::ProgramOrder);
    lemma_find_edge(g, a, b, g.edges.len());
    assert forall|e: int| 0 <= e < g2.edges.len() implies #[trigger] g2.edges[e].source
        < g2.nodes.len() && g2.edges[e].target < g2.nodes.len() by {
        if e < g.edges.len() {
            assert(g.edges[e].source < g.nodes.len());
        }
    }
    assert forall|e: int|
        0 <= e < g2.edges.len() && #[trigger] g2.edges[e].kind
            == AegEdge::ProgramOrder implies g2.nodes[g2.edges[e].source as int].thread()
        == g2.nodes[g2.edges[e].target as int].thread() by {
        if e < g.edges.len() && g2.edges[e] == g.edges[e] {
            assert(g.edges[e].kind == AegEdge::ProgramOrder);
        }
    }
}

/// What `find_edge` returns is an edge from `a` to `b`.
pub proof fn lemma_find_edge(g: GraphView, a: usize, b: usize, n: nat)
    requires
        n <= g.edges.len(),
    ensures
        g.find_edge_in(a, b, n) matches Some(e) ==> e < n && g.edges[e as int].source == a
            && g.edges[e as int].target == b,
    decreases n,
{
    if n > 0 {
        lemma_find_edge(g, a, b, (n - 1) as nat);
    }
}

proof fn lemma_push_node(g: GraphView, n: Node)
    requires
        graph_ok(g),
    ensures
        graph_ok(g.push_node(n)),
        grows(g, g.push_node(n)),
{
    let g2 = g.push_node(n);
    assert forall|e: int| 0 <= e < g2.edges.len() implies #[trigger] g2.edges[e].source
        < g2.nodes.len() && g2.edges[e].target < g2.nodes.len() by {
        assert(g.edges[e].source < g.nodes.len());
    }
    assert forall|e: int|
        0 <= e < g2.edges.len() && #[trigger] g2.edges[e].kind
            == AegEdge::ProgramOrder implies g2.nodes[g2.edges[e].source as int].thread()
        == g2.nodes[g2.edges[e].target as int].thread() by {
        assert(g.edges[e].source < g.nodes.len() && g.edges[e].target < g.nodes.len());
        assert(g.edges[e].kind == AegEdge::ProgramOrder);
    }
}

proof fn lemma_grows_trans(a: GraphView, b: GraphView, c: GraphView)
    requires
        grows(a, b),
        grows(b, c),
    ensures
        grows(a, c),
{
    assert forall|i: int| 0 <= i < a.nodes.len() implies #[trigger] c.nodes[i] == a.nodes[i] by {
        assert(c.nodes[i] == b.nodes[i]);
    }
}

proof fn lemma_connect(g: GraphView, last: Seq<usize>, cur: usize, t: Seq<char>)
    ensures
        connect(g, last, cur).nodes == g.nodes,
        graph_ok(g) && owned(last, g, t) && cur < g.nodes.len() && g.nodes[cur as int].thread()
            == t ==> graph_ok(connect(g, last, cur)),
    decreases last.len(),
{
    if last.len() > 0 {
        lemma_connect(g, last.drop_last(), cur, t);
        if graph_ok(g) && owned(last, g, t) && cur < g.nodes.len() && g.nodes[cur as int].thread()
            == t {
            assert(owned(last.drop_last(), g, t));
            assert(last.last() == last[last.len() - 1]);
            if last.last() != cur {
                lemma_update_po(connect(g, last.drop_last(), cur), last.last(), cur);
            }
        } else if last.last() != cur {
            let g1 = connect(g, last.drop_last(), cur);
            assert(g1.update_edge(last.last(), cur, AegEdge::ProgramOrder).nodes == g1.nodes);
        }
    }
}

proof fn lemma_connect_all(g: GraphView, last: Seq<usize>, targets: Seq<usize>, t: Seq<char>)
    ensures
        connect_all(g, last, targets).nodes == g.nodes,
        graph_ok(g) && owned(last, g, t) && owned(targets, g, t) ==> graph_ok(
            connect_all(g, last, targets),
        ),
    decreases targets.len(),
{
    if targets.len() > 0 {
        lemma_connect_all(g, last, targets.drop_last(), t);
        let g1 = connect_all(g, last, targets.drop_last());
        lemma_connect(g1, last, targets.last(), t);
        if graph_ok(g) && owned(last, g, t) && owned(targets, g, t) {
            assert(owned(targets.drop_last(), g, t));
            assert(targets.last() == targets[targets.len() - 1]);
            assert(owned(last, g1, t));
        }
    }
}

proof fn lemma_expr_reads(g: GraphView, reads: Seq<usize>, e: Expr, globals: Seq<String>, thread: String)
    ensures
        ({
            let (g1, r1) = expr_reads(g, reads, e, globals, thread);
            &&& grows(g, g1)
            &&& graph_ok(g) && owned(reads, g, thread@) && all_reads(reads, g) && g1.nodes.len()
                <= usize::MAX ==> graph_ok(g1) && owned(r1, g1, thread@) && all_reads(r1, g1)
        }),
{
    let (g1, r1) = expr_reads(g, reads, e, globals, thread);
    if let Expr::Var(v) = e {
        if crate::builder::is_global(globals, v@) {
            let n = g.nodes.len() as usize;
            let gp = g.push_node(Node::Read(thread, v));
            assert(grows(g, gp));
            assert(g1.nodes == gp.nodes);
            if graph_ok(g) && owned(reads, g, thread@) && all_reads(reads, g) && g1.nodes.len()
                <= usize::MAX {
                lemma_push_node(g, Node::Read(thread, v));
                lemma_owned_grows(reads, g, gp, thread@);
                assert(gp.nodes[n as int] == Node::Read(thread, v));
                if reads.len() > 0 {
                    assert(reads.last() == reads[reads.len() - 1]);
                    let g2 = gp.push_edge(reads.last(), n, AegEdge::ProgramOrder);
                    assert forall|e: int| 0 <= e < g2.edges.len() implies #[trigger] g2.edges[e].source
                        < g2.nodes.len() && g2.edges[e].target < g2.nodes.len() by {
                        if e < gp.edges.len() {
                            assert(gp.edges[e].source < gp.nodes.len());
                        }
                    }
                    assert forall|e: int|
                        0 <= e < g2.edges.len() && #[trigger] g2.edges[e].kind
                            == AegEdge::ProgramOrder implies g2.nodes[g2.edges[e].source as int].thread()
                        == g2.nodes[g2.edges[e].target as int].thread() by {
                        if e < gp.edges.len() {
                            assert(gp.edges[e].kind == AegEdge::ProgramOrder);
                        } else {
                            assert(g2.edges[e].source == reads[reads.len() - 1]);
                        }
                    }
                }
                assert(r1 == reads.push(n));
                assert forall|k: int| 0 <= k < r1.len() implies #[trigger] r1[k] < g1.nodes.len()
                    && g1.nodes[r1[k] as int].thread() == thread@ && g1.nodes[r1[k] as int].is_read() by {
                    if k < reads.len() {
                        assert(r1[k] == reads[k]);
                        assert(gp.nodes[reads[k] as int] == g.nodes[reads[k] as int]);
                    }
                }
            }
        }
    }
}

proof fn lemma_cond_reads(g: GraphView, reads: Seq<usize>, c: CondExpr, globals: Seq<String>, thread: String)
    ensures
        ({
            let (g1, r1) = cond_reads(g, reads, c, globals, thread);
            &&& grows(g, g1)
            &&& graph_ok(g) && owned(reads, g, thread@) && all_reads(reads, g) && g1.nodes.len()
                <= usize::MAX ==> graph_ok(g1) && owned(r1, g1, thread@) && all_reads(r1, g1)
        }),
    decreases c,
{
    match c {
        CondExpr::Neg(e) => lemma_cond_reads(g, reads, *e, globals, thread),
        CondExpr::And(a, b) => {
            lemma_cond_reads(g, reads, *a, globals, thread);
            let (g1, r1) = cond_reads(g, reads, *a, globals, thread);
            lemma_cond_reads(g1, r1, *b, globals, thread);
            lemma_grows_trans(g, g1, cond_reads(g1, r1, *b, globals, thread).0);
        },
        CondExpr::Eq(a, b) => {
            lemma_expr_reads(g, reads, a, globals, thread);
            let (g1, r1) = expr_reads(g, reads, a, globals, thread);
            lemma_expr_reads(g1, r1, b, globals, thread);
            lemma_grows_trans(g, g1, expr_reads(g1, r1, b, globals, thread).0);
        },
        CondExpr::Leq(a, b) => {
            lemma_expr_reads(g, reads, a, globals, thread);
            let (g1, r1) = expr_reads(g, reads, a, globals, thread);
            lemma_expr_reads(g1, r1, b, globals, thread);
            lemma_grows_trans(g, g1, expr_reads(g1, r1, b, globals, thread).0);
        },
    }
}

} // verus!

verus! {

pub open spec fn first_ok(f: Option<Seq<usize>>, g: GraphView, t: Seq<char>) -> bool {
    f matches Some(v) ==> owned(v, g, t)
}

proof fn lemma_owned_concat(a: Seq<usize>, b: Seq<usize>, g: GraphView, t: Seq<char>)
    requires
        owned(a, g, t),
        owned(b, g, t),
    ensures
        owned(a + b, g, t),
        all_reads(a, g) && all_reads(b, g) ==> all_reads(a + b, g),
{
    assert forall|k: int| 0 <= k < (a + b).len() implies #[trigger] (a + b)[k] < g.nodes.len()
        && g.nodes[(a + b)[k] as int].thread() == t by {
        if k < a.len() {
            assert((a + b)[k] == a[k]);
        } else {
            assert((a + b)[k] == b[k - a.len()]);
        }
    }
    if all_reads(a, g) && all_reads(b, g) {
        assert forall|k: int| 0 <= k < (a + b).len() implies (#[trigger] g.nodes[(a + b)[k] as int]).is_read() by {
            if k < a.len() {
                assert((a + b)[k] == a[k]);
            } else {
                assert((a + b)[k] == b[k - a.len()]);
            }
        }
    }
}

proof fn lemma_add_unique_owned(base: Seq<usize>, add: Seq<usize>, g: GraphView, t: Seq<char>)
    requires
        owned(base, g, t),
        owned(add, g, t),
    ensures
        owned(add_unique(base, add), g, t),
    decreases add.len(),
{
    if add.len() > 0 {
        assert(owned(add.drop_last(), g, t));
        lemma_add_unique_owned(base, add.drop_last(), g, t);
        assert(add.last() == add[add.len() - 1]);
        let b = add_unique(base, add.drop_last());
        assert forall|k: int| 0 <= k < b.push(add.last()).len() implies #[trigger] b.push(
            add.last(),
        )[k] < g.nodes.len() && g.nodes[b.push(add.last())[k] as int].thread() == t by {
            if k < b.len() {
                assert(b.push(add.last())[k] == b[k]);
            }
        }
    }
}

proof fn lemma_emit(st: Emit, n: Node, t: Seq<char>)
    ensures
        grows(st.g, emit(st, n).g),
        thread_inv(st, t) && n.thread() == t && emit(st, n).g.nodes.len() <= usize::MAX
            ==> thread_inv(emit(st, n), t),
{
    let i = st.g.nodes.len() as usize;
    let gp = st.g.push_node(n);
    lemma_connect(gp, st.last, i, t);
    assert(grows(st.g, gp));
    let r = emit(st, n);
    if thread_inv(st, t) && n.thread() == t && r.g.nodes.len() <= usize::MAX {
        lemma_push_node(st.g, n);
        lemma_owned_grows(st.last, st.g, gp, t);
        lemma_owned_grows(st.reads, st.g, gp, t);
        lemma_owned_grows(st.writes, st.g, gp, t);
        assert(gp.nodes[i as int] == n);
        assert(r.g.nodes == gp.nodes);
        assert(owned(seq![i], r.g, t));
        assert forall|k: int| 0 <= k < r.reads.len() implies #[trigger] r.reads[k] < r.g.nodes.len()
            && r.g.nodes[r.reads[k] as int].thread() == t && r.g.nodes[r.reads[k] as int].is_read() by {
            if k < st.reads.len() {
                assert(r.reads[k] == st.reads[k]);
            }
        }
        assert forall|k: int| 0 <= k < r.writes.len() implies #[trigger] r.writes[k] < r.g.nodes.len()
            && r.g.nodes[r.writes[k] as int].thread() == t && r.g.nodes[r.writes[k] as int].is_write() by {
            if k < st.writes.len() {
                assert(r.writes[k] == st.writes[k]);
            }
        }
    }
}

proof fn lemma_access(st: Emit, x: String, e: Expr, globals: Seq<String>, thread: String)
    ensures
        ({
            let (r, f) = access(st, x, e, globals, thread);
            &&& grows(st.g, r.g)
            &&& thread_inv(st, thread@) && r.g.nodes.len() <= usize::MAX ==> thread_inv(r, thread@)
                && first_ok(f, r.g, thread@)
        }),
{
    let (r, f) = access(st, x, e, globals, thread);
    let (st1, f1) = match e {
        Expr::Var(y) => if crate::builder::is_global(globals, y@) {
            (emit(st, Node::Read(thread, y)), Some(seq![st.g.nodes.len() as usize]))
        } else {
            (st, None)
        },
        Expr::Num(_) => (st, None),
    };
    if let Expr::Var(y) = e {
        lemma_emit(st, Node::Read(thread, y), thread@);
    }
    assert(grows(st.g, st1.g));
    if crate::builder::is_global(globals, x@) {
        lemma_emit(st1, Node::Write(thread, x), thread@);
        lemma_grows_trans(st.g, st1.g, r.g);
    }
    if thread_inv(st, thread@) && r.g.nodes.len() <= usize::MAX {
        assert(thread_inv(st1, thread@));
        if let Some(v) = f1 {
            assert(st1.last == v);
            lemma_owned_grows(v, st1.g, r.g, thread@);
        }
        if crate::builder::is_global(globals, x@) && f1 is None {
            assert(r.last == seq![st1.g.nodes.len() as usize]);
        }
    }
}

proof fn lemma_enter_cond(st: Emit, c: CondExpr, globals: Seq<String>, thread: String)
    ensures
        ({
            let (r, cr) = enter_cond(st, c, globals, thread);
            &&& grows(st.g, r.g)
            &&& thread_inv(st, thread@) && r.g.nodes.len() <= usize::MAX ==> thread_inv(r, thread@)
                && owned(cr, r.g, thread@)
        }),
{
    let (g1, cr) = cond_reads(st.g, Seq::empty(), c, globals, thread);
    lemma_cond_reads(st.g, Seq::empty(), c, globals, thread);
    let (r, _) = enter_cond(st, c, globals, thread);
    if cr.len() > 0 {
        lemma_connect(g1, st.last, cr[0], thread@);
    }
    assert(grows(st.g, r.g));
    if thread_inv(st, thread@) && r.g.nodes.len() <= usize::MAX {
        assert(owned(Seq::<usize>::empty(), st.g, thread@));
        lemma_owned_grows(st.last, st.g, g1, thread@);
        lemma_owned_grows(st.reads, st.g, g1, thread@);
        lemma_owned_grows(st.writes, st.g, g1, thread@);
        if cr.len() > 0 {
            assert(cr.last() == cr[cr.len() - 1]);
            lemma_owned_concat(st.reads, cr, g1, thread@);
        }
    }
}

proof fn lemma_stmts(st: Emit, ss: Seq<Statement>, globals: Seq<String>, thread: String, n: nat)
    ensures
        ({
            let (r, f) = stmts_spec(st, ss, globals, thread, n);
            &&& grows(st.g, r.g)
            &&& thread_inv(st, thread@) && r.g.nodes.len() <= usize::MAX ==> thread_inv(r, thread@)
                && first_ok(f, r.g, thread@)
        }),
    decreases ss, n,
{
    if n > 0 && n <= ss.len() {
        lemma_stmts(st, ss, globals, thread, (n - 1) as nat);
        let (s1, f1) = stmts_spec(st, ss, globals, thread, (n - 1) as nat);
        lemma_stmt(s1, ss[n - 1], globals, thread);
        let (s2, f2) = stmt_spec(s1, ss[n - 1], globals, thread);
        lemma_grows_trans(st.g, s1.g, s2.g);
        if thread_inv(st, thread@) && s2.g.nodes.len() <= usize::MAX {
            if let Some(v) = f1 {
                lemma_owned_grows(v, s1.g, s2.g, thread@);
            }
        }
    }
}

proof fn lemma_stmt(st: Emit, s: Statement, globals: Seq<String>, thread: String)
    ensures
        ({
            let (r, f) = stmt_spec(st, s, globals, thread);
            &&& grows(st.g, r.g)
            &&& thread_inv(st, thread@) && r.g.nodes.len() <= usize::MAX ==> thread_inv(r, thread@)
                && first_ok(f, r.g, thread@)
        }),
    decreases s, 1nat,
{
    match s {
        Statement::Assign(x, e) => lemma_access(st, x, e, globals, thread),
        Statement::Modify(x, e) => lemma_access(st, x, e, globals, thread),
        Statement::Fence(_) => {
            lemma_emit(st, Node::Fence(thread, crate::graph::Fence::Full), thread@);
        },
        Statement::If(..) => lemma_if(st, s, globals, thread),
        Statement::While(..) => lemma_while(st, s, globals, thread),
    }
}

proof fn lemma_if(st: Emit, s: Statement, globals: Seq<String>, thread: String)
    requires
        s is If,
    ensures
        ({
            let (r, f) = if_spec(st, s, globals, thread);
            &&& grows(st.g, r.g)
            &&& thread_inv(st, thread@) && r.g.nodes.len() <= usize::MAX ==> thread_inv(r, thread@)
                && first_ok(f, r.g, thread@)
        }),
    decreases s, 0nat,
{
    if let Statement::If(c, thn_v, els_v) = s {
        let thn = thn_v@;
        let els = els_v@;
        lemma_enter_cond(st, c, globals, thread);
        let (s1, cr) = enter_cond(st, c, globals, thread);
        let branch = s1.last;
        lemma_stmts(s1, thn, globals, thread, thn.len());
        let (t, ft) = stmts_spec(s1, thn, globals, thread, thn.len());
        let s2 = Emit { g: t.g, last: branch, reads: t.reads, writes: t.writes };
        lemma_stmts(s2, els, globals, thread, els.len());
        let (e, fe) = stmts_spec(s2, els, globals, thread, els.len());
        lemma_grows_trans(st.g, s1.g, t.g);
        lemma_grows_trans(st.g, t.g, e.g);
        let (r, f) = if_spec(st, s, globals, thread);
        assert(r.g == e.g);
        if thread_inv(st, thread@) && r.g.nodes.len() <= usize::MAX {
            lemma_owned_grows(branch, s1.g, t.g, thread@);
            assert(thread_inv(s2, thread@));
            lemma_owned_grows(branch, t.g, e.g, thread@);
            lemma_owned_grows(t.last, t.g, e.g, thread@);
            lemma_add_unique_owned(e.last, t.last, e.g, thread@);
            lemma_owned_concat(add_unique(e.last, t.last), branch, e.g, thread@);
            lemma_owned_grows(cr, s1.g, e.g, thread@);
            if cr.len() > 0 {
                assert(owned(seq![cr[0]], e.g, thread@));
            } else if let Some(fv) = ft {
                lemma_owned_grows(fv, t.g, e.g, thread@);
                if let Some(fev) = fe {
                    lemma_owned_concat(fv, fev, e.g, thread@);
                } else {
                    assert(fv + Seq::<usize>::empty() == fv);
                }
            }
        }
    }
}

proof fn lemma_while(st: Emit, s: Statement, globals: Seq<String>, thread: String)
    requires
        s is While,
    ensures
        ({
            let (r, f) = while_spec(st, s, globals, thread);
            &&& grows(st.g, r.g)
            &&& thread_inv(st, thread@) && r.g.nodes.len() <= usize::MAX ==> thread_inv(r, thread@)
                && first_ok(f, r.g, thread@)
        }),
    decreases s, 0nat,
{
    if let Statement::While(c, body_v) = s {
        let body = body_v@;
        lemma_enter_cond(st, c, globals, thread);
        let (s1, cr) = enter_cond(st, c, globals, thread);
        let branch = s1.last;
        lemma_stmts(s1, body, globals, thread, body.len());
        let (b, fb) = stmts_spec(s1, body, globals, thread, body.len());
        lemma_grows_trans(st.g, s1.g, b.g);
        let (r, f) = while_spec(st, s, globals, thread);
        if cr.len() > 0 {
            if let Some(fbv) = fb {
                let (g3, cr2) = cond_reads(b.g, Seq::empty(), c, globals, thread);
                lemma_cond_reads(b.g, Seq::empty(), c, globals, thread);
                lemma_grows_trans(st.g, b.g, g3);
                if cr2.len() > 0 {
                    let g4 = connect(g3, b.last, cr2[0]);
                    lemma_connect(g3, b.last, cr2[0], thread@);
                    lemma_connect_all(g4, seq![cr2.last()], fbv, thread@);
                    assert(grows(g3, r.g));
                    lemma_grows_trans(st.g, g3, r.g);
                    if thread_inv(st, thread@) && r.g.nodes.len() <= usize::MAX {
                        assert(owned(Seq::<usize>::empty(), b.g, thread@));
                        lemma_owned_grows(b.last, b.g, g3, thread@);
                        lemma_owned_grows(fbv, b.g, g3, thread@);
                        lemma_owned_grows(b.reads, b.g, g3, thread@);
                        lemma_owned_grows(b.writes, b.g, g3, thread@);
                        assert(cr2.last() == cr2[cr2.len() - 1]);
                        assert(owned(seq![cr2.last()], g4, thread@));
                        lemma_owned_concat(b.reads, cr2, g3, thread@);
                        lemma_owned_grows(branch, s1.g, b.g, thread@);
                        lemma_owned_grows(branch, b.g, g3, thread@);
                        lemma_owned_concat(branch, seq![cr2.last()], g3, thread@);
                        assert(branch.push(cr2.last()) == branch + seq![cr2.last()]);
                        lemma_owned_grows(cr, s1.g, r.g, thread@);
                        assert(owned(seq![cr[0]], r.g, thread@));
                    }
                } else {
                    if thread_inv(st, thread@) && r.g.nodes.len() <= usize::MAX {
                        assert(owned(Seq::<usize>::empty(), b.g, thread@));
                        lemma_owned_grows(b.last, b.g, g3, thread@);
                        lemma_owned_grows(b.reads, b.g, g3, thread@);
                        lemma_owned_grows(b.writes, b.g, g3, thread@);
                        lemma_owned_grows(cr, s1.g, r.g, thread@);
                        assert(owned(seq![cr[0]], r.g, thread@));
                    }
                }
            } else {
                lemma_connect(b.g, b.last, cr[0], thread@);
                if thread_inv(st, thread@) && r.g.nodes.len() <= usize::MAX {
                    lemma_owned_grows(cr, s1.g, b.g, thread@);
                    assert(owned(seq![cr[0]], r.g, thread@));
                }
            }
        } else if let Some(fbv) = fb {
            lemma_connect_all(b.g, b.last, fbv, thread@);
            if thread_inv(st, thread@) && r.g.nodes.len() <= usize::MAX {
                lemma_owned_grows(branch, s1.g, b.g, thread@);
                lemma_owned_concat(b.last, branch, b.g, thread@);
            }
        }
    }
}

} // verus!

verus! {

/// The writes of thread `i` of `tn` are writes of thread `names[i]`, and
/// its reads are reads of that thread.
pub open spec fn accesses_ok(tn: ThreadAccesses, g: GraphView, names: Seq<Seq<char>>) -> bool {
    &&& tn.len() == names.len()
    &&& forall|i: int|
        0 <= i < tn.len() ==> owned(#[trigger] tn[i].0, g, names[i]) && all_writes(tn[i].0, g)
            && owned(tn[i].1, g, names[i]) && all_reads(tn[i].1, g)
}

pub open spec fn thread_names(threads: Seq<Thread>) -> Seq<Seq<char>> {
    threads.map_values(|t: Thread| t.name@)
}

/// No two threads share a name.
pub open spec fn distinct_names(threads: Seq<Thread>) -> bool {
    forall|i: int, j: int|
        0 <= i < threads.len() && 0 <= j < threads.len() && i != j ==> #[trigger] threads[i].name@
            != #[trigger] threads[j].name@
}

proof fn lemma_threads(g: GraphView, threads: Seq<Thread>, globals: Seq<String>, n: nat)
    requires
        n <= threads.len(),
    ensures
        ({
            let (r, tn) = threads_spec(g, threads, globals, n);
            &&& grows(g, r)
            &&& graph_ok(g) && r.nodes.len() <= usize::MAX ==> graph_ok(r) && accesses_ok(
                tn,
                r,
                thread_names(threads).take(n as int),
            )
        }),
    decreases n,
{
    if n > 0 {
        lemma_threads(g, threads, globals, (n - 1) as nat);
        let (g1, tn) = threads_spec(g, threads, globals, (n - 1) as nat);
        let t = threads[n - 1];
        let st0 = Emit { g: g1, last: Seq::empty(), reads: Seq::empty(), writes: Seq::empty() };
        lemma_stmts(st0, t.instructions@, globals, t.name, t.instructions@.len());
        let st = stmts_spec(st0, t.instructions@, globals, t.name, t.instructions@.len()).0;
        lemma_grows_trans(g, g1, st.g);
        let (r, tn2) = threads_spec(g, threads, globals, n);
        if graph_ok(g) && r.nodes.len() <= usize::MAX {
            let names = thread_names(threads).take(n as int);
            let names1 = thread_names(threads).take(n - 1);
            assert(thread_inv(st0, t.name@));
            assert(tn2 == tn.push((st.writes, st.reads)));
            assert forall|i: int| 0 <= i < tn2.len() implies owned(#[trigger] tn2[i].0, r, names[i])
                && all_writes(tn2[i].0, r) && owned(tn2[i].1, r, names[i]) && all_reads(
                tn2[i].1,
                r,
            ) by {
                if i < tn.len() {
                    assert(tn2[i] == tn[i]);
                    assert(names[i] == names1[i]);
                    lemma_owned_grows(tn[i].0, g1, r, names1[i]);
                    lemma_owned_grows(tn[i].1, g1, r, names1[i]);
                } else {
                    assert(names[i] == t.name@);
                }
            }
        }
    }
}

/// What an update to a competing edge keeps and adds.
proof fn lemma_update_competing(g: GraphView, a: usize, b: usize)
    requires
        a < g.nodes.len(),
        b < g.nodes.len(),
    ensures
        ({
            let g2 = g.update_edge(a, b, AegEdge::Competing);
            &&& g2.nodes == g.nodes
            &&& g2.edges.len() >= g.edges.len()
            &&& g2.has_edge(a, b, AegEdge::Competing)
            &&& forall|e: int|
                0 <= e < g2.edges.len() ==> #[trigger] g2.edges[e] == (EdgeView {
                    source: a,
                    target: b,
                    kind: AegEdge::Competing,
                }) || (e < g.edges.len() && g2.edges[e] == g.edges[e])
            &&& forall|e: int|
                0 <= e < g.edges.len() && #[trigger] g.edges[e].kind == AegEdge::Competing ==> g2.edges[e]
                    == g.edges[e]
        }),
{
    lemma_find_edge(g, a, b, g.edges.len());
    let g2 = g.update_edge(a, b, AegEdge::Competing);
    let new_e = EdgeView { source: a, target: b, kind: AegEdge::Competing };
    match g.find_edge(a, b) {
        Some(e0) => {
            assert(g2.edges[e0 as int] == new_e);
        },
        None => {
            assert(g2.edges[g.edges.len() as int] == new_e);
        },
    }
}

pub open spec fn full_ok(g: GraphView) -> bool {
    g.edges_in_range() && po_within_threads(g) && competing_well_formed(g)
}

proof fn lemma_pair(g: GraphView, w: usize, o: usize)
    requires
        w < g.nodes.len(),
        o < g.nodes.len(),
    ensures
        pair_competing(g, w, o).nodes == g.nodes,
        full_ok(g) && g.nodes[w as int].is_write() && g.nodes[w as int].thread() != g.nodes[o as int].thread()
            ==> full_ok(pair_competing(g, w, o)),
        g.edges_in_range() && po_within_threads(g) ==> pair_competing(g, w, o).edges_in_range()
            && po_within_threads(pair_competing(g, w, o)),
{
    if g.nodes[o as int].memory() == g.nodes[w as int].memory() {
        let g1 = g.update_edge(w, o, AegEdge::Competing);
        lemma_update_competing(g, w, o);
        lemma_update_competing(g1, o, w);
        let g2 = g1.update_edge(o, w, AegEdge::Competing);
        if g.edges_in_range() && po_within_threads(g) {
            assert forall|e: int| 0 <= e < g2.edges.len() implies #[trigger] g2.edges[e].source
                < g2.nodes.len() && g2.edges[e].target < g2.nodes.len() by {
                if g2.edges[e] != (EdgeView { source: o, target: w, kind: AegEdge::Competing }) {
                    if g1.edges[e] != (EdgeView { source: w, target: o, kind: AegEdge::Competing }) {
                        assert(g.edges[e].source < g.nodes.len());
                    }
                }
            }
            assert forall|e: int|
                0 <= e < g2.edges.len() && #[trigger] g2.edges[e].kind
                    == AegEdge::ProgramOrder implies g2.nodes[g2.edges[e].source as int].thread()
                == g2.nodes[g2.edges[e].target as int].thread() by {
                assert(g1.edges[e] == g2.edges[e]);
                assert(g.edges[e] == g1.edges[e]);
                assert(g.edges[e].kind == AegEdge::ProgramOrder);
            }
        }
        if full_ok(g) && g.nodes[w as int].is_write() && g.nodes[w as int].thread()
            != g.nodes[o as int].thread() {
            assert forall|e: int|
                0 <= e < g2.edges.len() && #[trigger] g2.edges[e].kind
                    == AegEdge::Competing implies ({
                let u = g2.nodes[g2.edges[e].source as int];
                let v = g2.nodes[g2.edges[e].target as int];
                &&& u.thread() != v.thread()
                &&& u.memory() is Some
                &&& u.memory() == v.memory()
                &&& u.is_write() || v.is_write()
                &&& g2.has_edge(g2.edges[e].target, g2.edges[e].source, AegEdge::Competing)
            }) by {
                assert(g2.nodes[w as int].memory() is Some);
                if g2.edges[e] == (EdgeView { source: o, target: w, kind: AegEdge::Competing }) {
                    let e1 = choose|e1: int|
                        0 <= e1 < g1.edges.len() && #[trigger] g1.edges[e1] == (EdgeView {
                            source: w,
                            target: o,
                            kind: AegEdge::Competing,
                        });
                    assert(g1.edges[e1].kind == AegEdge::Competing);
                    assert(g2.edges[e1] == g1.edges[e1]);
                } else if g1.edges[e] == (EdgeView { source: w, target: o, kind: AegEdge::Competing }) {
                    assert(g2.edges[e] == g1.edges[e]);
                } else {
                    assert(g2.edges[e] == g1.edges[e]);
                    assert(g1.edges[e] == g.edges[e]);
                    assert(g.edges[e].kind == AegEdge::Competing);
                    let x = g.edges[e].target;
                    let y = g.edges[e].source;
                    let e2 = choose|e2: int|
                        0 <= e2 < g.edges.len() && #[trigger] g.edges[e2] == (EdgeView {
                            source: x,
                            target: y,
                            kind: AegEdge::Competing,
                        });
                    assert(g.edges[e2].kind == AegEdge::Competing);
                    assert(g1.edges[e2] == g.edges[e2]);
                    assert(g1.edges[e2].kind == AegEdge::Competing);
                    assert(g2.edges[e2] == g1.edges[e2]);
                }
            }
        }
    }
}

} // verus!

verus! {

pub open spec fn base_ok(g: GraphView) -> bool {
    g.edges_in_range() && po_within_threads(g)
}

proof fn lemma_against(g: GraphView, w: usize, others: Seq<usize>, n: nat, t: Seq<char>)
    requires
        n <= others.len(),
        w < g.nodes.len(),
        owned(others, g, t),
    ensures
        against(g, w, others, n).nodes == g.nodes,
        base_ok(g) ==> base_ok(against(g, w, others, n)),
        full_ok(g) && g.nodes[w as int].is_write() && g.nodes[w as int].thread() != t ==> full_ok(
            against(g, w, others, n),
        ),
    decreases n,
{
    if n > 0 {
        lemma_against(g, w, others, (n - 1) as nat, t);
        let g1 = against(g, w, others, (n - 1) as nat);
        assert(others[n - 1] < g.nodes.len());
        lemma_pair(g1, w, others[n - 1]);
    }
}

proof fn lemma_write_competing(
    g: GraphView,
    w: usize,
    tn: ThreadAccesses,
    names: Seq<Seq<char>>,
    i: int,
    n: nat,
)
    requires
        accesses_ok(tn, g, names),
        0 <= i < tn.len(),
        n <= tn.len(),
        w < g.nodes.len(),
    ensures
        write_competing(g, w, tn, i, n).nodes == g.nodes,
        base_ok(g) ==> base_ok(write_competing(g, w, tn, i, n)),
        full_ok(g) && g.nodes[w as int].is_write() && g.nodes[w as int].thread() == names[i]
            && (forall|j: int| 0 <= j < names.len() && j != i ==> #[trigger] names[j] != names[i])
            ==> full_ok(write_competing(g, w, tn, i, n)),
    decreases n,
{
    if n > 0 {
        lemma_write_competing(g, w, tn, names, i, (n - 1) as nat);
        let g1 = write_competing(g, w, tn, i, (n - 1) as nat);
        if n - 1 != i {
            let j = n - 1;
            let (ws, rs) = tn[j];
            assert(owned(tn[j].0, g, names[j]) && owned(tn[j].1, g, names[j]));
            assert(owned(ws, g1, names[j]));
            lemma_against(g1, w, ws, ws.len(), names[j]);
            let g2 = against(g1, w, ws, ws.len());
            assert(owned(rs, g2, names[j]));
            lemma_against(g2, w, rs, rs.len(), names[j]);
        }
    }
}

proof fn lemma_thread_competing(g: GraphView, tn: ThreadAccesses, names: Seq<Seq<char>>, i: int, n: nat)
    requires
        accesses_ok(tn, g, names),
        0 <= i < tn.len(),
        n <= tn[i].0.len(),
    ensures
        thread_competing(g, tn, i, n).nodes == g.nodes,
        base_ok(g) ==> base_ok(thread_competing(g, tn, i, n)),
        full_ok(g) && (forall|j: int| 0 <= j < names.len() && j != i ==> #[trigger] names[j] != names[i])
            ==> full_ok(thread_competing(g, tn, i, n)),
    decreases n,
{
    if n > 0 {
        lemma_thread_competing(g, tn, names, i, (n - 1) as nat);
        let g1 = thread_competing(g, tn, i, (n - 1) as nat);
        let w = tn[i].0[n - 1];
        assert(owned(tn[i].0, g, names[i]) && all_writes(tn[i].0, g));
        assert(w < g.nodes.len() && g.nodes[w as int].thread() == names[i]);
        assert(g.nodes[w as int].is_write());
        lemma_accesses_same_nodes(tn, g, g1, names);
        lemma_write_competing(g1, w, tn, names, i, tn.len());
    }
}

proof fn lemma_all_competing(g: GraphView, tn: ThreadAccesses, names: Seq<Seq<char>>, n: nat)
    requires
        accesses_ok(tn, g, names),
        n <= tn.len(),
    ensures
        all_competing(g, tn, n).nodes == g.nodes,
        base_ok(g) ==> base_ok(all_competing(g, tn, n)),
        full_ok(g) && (forall|i: int, j: int|
            0 <= i < names.len() && 0 <= j < names.len() && i != j ==> #[trigger] names[i]
                != #[trigger] names[j]) ==> full_ok(all_competing(g, tn, n)),
    decreases n,
{
    if n > 0 {
        lemma_all_competing(g, tn, names, (n - 1) as nat);
        let g1 = all_competing(g, tn, (n - 1) as nat);
        lemma_accesses_same_nodes(tn, g, g1, names);
        lemma_thread_competing(g1, tn, names, n - 1, tn[n - 1].0.len());
        if full_ok(g) && (forall|i: int, j: int|
            0 <= i < names.len() && 0 <= j < names.len() && i != j ==> #[trigger] names[i]
                != #[trigger] names[j]) {
            assert(forall|j: int|
                0 <= j < names.len() && j != n - 1 ==> #[trigger] names[j] != names[n - 1]);
        }
    }
}

proof fn lemma_accesses_same_nodes(tn: ThreadAccesses, g: GraphView, g1: GraphView, names: Seq<Seq<char>>)
    requires
        accesses_ok(tn, g, names),
        g1.nodes == g.nodes,
    ensures
        accesses_ok(tn, g1, names),
{
    assert forall|i: int| 0 <= i < tn.len() implies owned(#[trigger] tn[i].0, g1, names[i])
        && all_writes(tn[i].0, g1) && owned(tn[i].1, g1, names[i]) && all_reads(tn[i].1, g1) by {
        assert(owned(tn[i].0, g, names[i]) && all_writes(tn[i].0, g));
        assert(owned(tn[i].1, g, names[i]) && all_reads(tn[i].1, g));
    }
}

/// The graph of a program, before its competing edges, and the writes and
/// reads of its threads.
proof fn lemma_threads_phase(p: Program)
    ensures
        ({
            let (g, tn) = threads_spec(
                GraphView::empty(),
                p.threads@,
                p.global_vars@,
                p.threads@.len(),
            );
            &&& aeg_spec(p).nodes == g.nodes
            &&& aeg_spec(p).nodes.len() <= usize::MAX ==> graph_ok(g) && accesses_ok(
                tn,
                g,
                thread_names(p.threads@),
            )
        }),
{
    let threads = p.threads@;
    lemma_threads(GraphView::empty(), threads, p.global_vars@, threads.len());
    let (g, tn) = threads_spec(GraphView::empty(), threads, p.global_vars@, threads.len());
    assert(thread_names(threads).take(threads.len() as int) =~= thread_names(threads));
    if g.nodes.len() <= usize::MAX {
        assert(graph_ok(GraphView::empty()));
        lemma_all_competing(g, tn, thread_names(threads), tn.len());
    } else {
        lemma_all_competing_nodes(g, tn, tn.len());
    }
}

proof fn lemma_all_competing_nodes(g: GraphView, tn: ThreadAccesses, n: nat)
    ensures
        all_competing(g, tn, n).nodes == g.nodes,
    decreases n,
{
    if n > 0 && n <= tn.len() {
        lemma_all_competing_nodes(g, tn, (n - 1) as nat);
        lemma_thread_competing_nodes(all_competing(g, tn, (n - 1) as nat), tn, n - 1, tn[n - 1].0.len());
    }
}

proof fn lemma_thread_competing_nodes(g: GraphView, tn: ThreadAccesses, i: int, n: nat)
    ensures
        thread_competing(g, tn, i, n).nodes == g.nodes,
    decreases n,
{
    if n > 0 && n <= tn[i].0.len() {
        lemma_thread_competing_nodes(g, tn, i, (n - 1) as nat);
        lemma_write_competing_nodes(thread_competing(g, tn, i, (n - 1) as nat), tn[i].0[n - 1], tn, i, tn.len());
    }
}

proof fn lemma_write_competing_nodes(g: GraphView, w: usize, tn: ThreadAccesses, i: int, n: nat)
    ensures
        write_competing(g, w, tn, i, n).nodes == g.nodes,
    decreases n,
{
    if n > 0 && n <= tn.len() {
        lemma_write_competing_nodes(g, w, tn, i, (n - 1) as nat);
        let g1 = write_competing(g, w, tn, i, (n - 1) as nat);
        let (ws, rs) = tn[n - 1];
        lemma_against_nodes(g1, w, ws, ws.len());
        lemma_against_nodes(against(g1, w, ws, ws.len()), w, rs, rs.len());
    }
}

proof fn lemma_against_nodes(g: GraphView, w: usize, others: Seq<usize>, n: nat)
    ensures
        against(g, w, others, n).nodes == g.nodes,
    decreases n,
{
    if n > 0 && n <= others.len() {
        lemma_against_nodes(g, w, others, (n - 1) as nat);
        let g1 = against(g, w, others, (n - 1) as nat);
        let o = others[n - 1];
        if g1.nodes[o as int].memory() == g1.nodes[w as int].memory() {
            let g2 = g1.update_edge(w, o, AegEdge::Competing);
            assert(g2.nodes == g1.nodes);
            assert(g2.update_edge(o, w, AegEdge::Competing).nodes == g2.nodes);
        }
    }
}

/// Every edge of the graph of a program joins two of its nodes, and every
/// po edge joins two events of the same thread.
pub proof fn lemma_po_edges_within_threads(p: Program)
    requires
        aeg_spec(p).nodes.len() <= usize::MAX,
    ensures
        aeg_spec(p).edges_in_range(),
        po_within_threads(aeg_spec(p)),
{
    lemma_threads_phase(p);
    let (g, tn) = threads_spec(GraphView::empty(), p.threads@, p.global_vars@, p.threads@.len());
    lemma_all_competing(g, tn, thread_names(p.threads@), tn.len());
}

/// In the graph of a program whose threads have distinct names, every
/// competing edge has an opposite twin and joins accesses of different
/// threads to the same location, at least one of them a write.
pub proof fn lemma_competing_edges(p: Program)
    requires
        aeg_spec(p).nodes.len() <= usize::MAX,
        distinct_names(p.threads@),
    ensures
        competing_well_formed(aeg_spec(p)),
{
    lemma_threads_phase(p);
    let (g, tn) = threads_spec(GraphView::empty(), p.threads@, p.global_vars@, p.threads@.len());
    let names = thread_names(p.threads@);
    assert(forall|i: int, j: int|
        0 <= i < names.len() && 0 <= j < names.len() && i != j ==> #[trigger] names[i]
            != #[trigger] names[j]) by {
        assert forall|i: int, j: int|
            0 <= i < names.len() && 0 <= j < names.len() && i != j implies #[trigger] names[i]
            != #[trigger] names[j] by {
            assert(names[i] == p.threads@[i].name@);
            assert(names[j] == p.threads@[j].name@);
        }
    }
    assert(full_ok(g));
    lemma_all_competing(g, tn, names, tn.len());
}

} // verus!

verus! {

pub open spec fn expr_local(e: Expr, globals: Seq<String>) -> bool {
    match e {
        Expr::Num(_) => true,
        Expr::Var(v) => !crate::builder::is_global(globals, v@),
    }
}

pub open spec fn cond_local(c: CondExpr, globals: Seq<String>) -> bool
    decreases c,
{
    match c {
        CondExpr::Neg(e) => cond_local(*e, globals),
        CondExpr::And(a, b) => cond_local(*a, globals) && cond_local(*b, globals),
        CondExpr::Eq(a, b) => expr_local(a, globals) && expr_local(b, globals),
        CondExpr::Leq(a, b) => expr_local(a, globals) && expr_local(b, globals),
    }
}

/// The statement touches only locals: it names no global and has no fence.
pub open spec fn stmt_local(s: Statement, globals: Seq<String>) -> bool
    decreases s, 1nat,
{
    match s {
        Statement::Assign(x, e) => !crate::builder::is_global(globals, x@) && expr_local(e, globals),
        Statement::Modify(x, e) => !crate::builder::is_global(globals, x@) && expr_local(e, globals),
        Statement::Fence(_) => false,
        Statement::If(c, thn, els) => cond_local(c, globals) && stmts_local(thn@, globals, thn@.len())
            && stmts_local(els@, globals, els@.len()),
        Statement::While(c, body) => cond_local(c, globals) && stmts_local(body@, globals, body@.len()),
    }
}

pub open spec fn stmts_local(ss: Seq<Statement>, globals: Seq<String>, n: nat) -> bool
    decreases ss, n,
{
    if n == 0 || n > ss.len() {
        true
    } else {
        stmts_local(ss, globals, (n - 1) as nat) && stmt_local(ss[n - 1], globals)
    }
}

/// Every thread of the program touches only locals.
pub open spec fn program_local(p: Program) -> bool {
    forall|t: int|
        0 <= t < p.threads@.len() ==> stmts_local(
            #[trigger] p.threads@[t].instructions@,
            p.global_vars@,
            p.threads@[t].instructions@.len(),
        )
}

proof fn lemma_cond_local(g: GraphView, reads: Seq<usize>, c: CondExpr, globals: Seq<String>, thread: String)
    requires
        cond_local(c, globals),
    ensures
        cond_reads(g, reads, c, globals, thread) == (g, reads),
    decreases c,
{
    match c {
        CondExpr::Neg(e) => lemma_cond_local(g, reads, *e, globals, thread),
        CondExpr::And(a, b) => {
            lemma_cond_local(g, reads, *a, globals, thread);
            lemma_cond_local(g, reads, *b, globals, thread);
        },
        _ => {},
    }
}

proof fn lemma_stmts_local(st: Emit, ss: Seq<Statement>, globals: Seq<String>, thread: String, n: nat)
    requires
        stmts_local(ss, globals, n),
    ensures
        ({
            let (r, f) = stmts_spec(st, ss, globals, thread, n);
            r.g == st.g && r.reads == st.reads && r.writes == st.writes && f is None
        }),
    decreases ss, n,
{
    if n > 0 && n <= ss.len() {
        lemma_stmts_local(st, ss, globals, thread, (n - 1) as nat);
        let (s1, f1) = stmts_spec(st, ss, globals, thread, (n - 1) as nat);
        lemma_stmt_local(s1, ss[n - 1], globals, thread);
    }
}

proof fn lemma_stmt_local(st: Emit, s: Statement, globals: Seq<String>, thread: String)
    requires
        stmt_local(s, globals),
    ensures
        ({
            let (r, f) = stmt_spec(st, s, globals, thread);
            r.g == st.g && r.reads == st.reads && r.writes == st.writes && f is None
        }),
    decreases s, 1nat,
{
    match s {
        Statement::If(c, thn, els) => {
            lemma_cond_local(st.g, Seq::empty(), c, globals, thread);
            let (s1, cr) = enter_cond(st, c, globals, thread);
            lemma_stmts_local(s1, thn@, globals, thread, thn@.len());
            let (t, ft) = stmts_spec(s1, thn@, globals, thread, thn@.len());
            let s2 = Emit { g: t.g, last: s1.last, reads: t.reads, writes: t.writes };
            lemma_stmts_local(s2, els@, globals, thread, els@.len());
        },
        Statement::While(c, body) => {
            lemma_cond_local(st.g, Seq::empty(), c, globals, thread);
            let (s1, cr) = enter_cond(st, c, globals, thread);
            lemma_stmts_local(s1, body@, globals, thread, body@.len());
        },
        _ => {},
    }
}

proof fn lemma_threads_local(threads: Seq<Thread>, globals: Seq<String>, n: nat)
    requires
        n <= threads.len(),
        forall|t: int|
            0 <= t < threads.len() ==> stmts_local(
                #[trigger] threads[t].instructions@,
                globals,
                threads[t].instructions@.len(),
            ),
    ensures
        ({
            let (g, tn) = threads_spec(GraphView::empty(), threads, globals, n);
            g == GraphView::empty() && tn.len() == n && forall|i: int|
                0 <= i < tn.len() ==> (#[trigger] tn[i]).0.len() == 0
        }),
    decreases n,
{
    if n > 0 {
        lemma_threads_local(threads, globals, (n - 1) as nat);
        let (g1, tn) = threads_spec(GraphView::empty(), threads, globals, (n - 1) as nat);
        let t = threads[n - 1];
        assert(stmts_local(t.instructions@, globals, t.instructions@.len()));
        let st0 = Emit { g: g1, last: Seq::empty(), reads: Seq::empty(), writes: Seq::empty() };
        lemma_stmts_local(st0, t.instructions@, globals, t.name, t.instructions@.len());
        let (g2, tn2) = threads_spec(GraphView::empty(), threads, globals, n);
        assert(tn2 == tn.push((Seq::<usize>::empty(), Seq::<usize>::empty())));
        assert forall|i: int| 0 <= i < tn2.len() implies (#[trigger] tn2[i]).0.len() == 0 by {
            if i < tn.len() {
                assert(tn2[i] == tn[i]);
            }
        }
    }
}

proof fn lemma_no_writes_no_competing(g: GraphView, tn: ThreadAccesses, n: nat)
    requires
        n <= tn.len(),
        forall|i: int| 0 <= i < tn.len() ==> (#[trigger] tn[i]).0.len() == 0,
    ensures
        all_competing(g, tn, n) == g,
    decreases n,
{
    if n > 0 {
        lemma_no_writes_no_competing(g, tn, (n - 1) as nat);
        assert(tn[n - 1].0.len() == 0);
    }
}

/// A program whose threads touch only locals has no events and no edges.
pub proof fn lemma_locals_make_no_nodes(p: Program)
    requires
        program_local(p),
    ensures
        aeg_spec(p).nodes.len() == 0,
        aeg_spec(p).edges.len() == 0,
{
    lemma_threads_local(p.threads@, p.global_vars@, p.threads@.len());
    let (g, tn) = threads_spec(GraphView::empty(), p.threads@, p.global_vars@, p.threads@.len());
    lemma_no_writes_no_competing(g, tn, tn.len());
}

} // verus!

verus! {

proof fn lemma_threads_grow_from(threads: Seq<Thread>, globals: Seq<String>, k: nat, n: nat)
    requires
        k <= n <= threads.len(),
    ensures
        grows(
            threads_spec(GraphView::empty(), threads, globals, k).0,
            threads_spec(GraphView::empty(), threads, globals, n).0,
        ),
    decreases n - k,
{
    if k < n {
        lemma_threads_grow_from(threads, globals, k, (n - 1) as nat);
        let (g1, tn) = threads_spec(GraphView::empty(), threads, globals, (n - 1) as nat);
        let t = threads[n - 1];
        let st0 = Emit { g: g1, last: Seq::empty(), reads: Seq::empty(), writes: Seq::empty() };
        lemma_stmts(st0, t.instructions@, globals, t.name, t.instructions@.len());
        lemma_grows_trans(
            threads_spec(GraphView::empty(), threads, globals, k).0,
            g1,
            threads_spec(GraphView::empty(), threads, globals, n).0,
        );
    }
}

/// An event keeps its weight, and so its thread and its location, from
/// the moment the construction adds it: the events of the first `k`
/// threads are, unchanged, the first events of the finished graph.
pub proof fn lemma_events_never_change(p: Program, k: nat)
    requires
        k <= p.threads@.len(),
    ensures
        ({
            let early = threads_spec(GraphView::empty(), p.threads@, p.global_vars@, k).0;
            &&& early.nodes.len() <= aeg_spec(p).nodes.len()
            &&& forall|i: int|
                0 <= i < early.nodes.len() ==> #[trigger] aeg_spec(p).nodes[i] == early.nodes[i]
        }),
{
    lemma_threads_grow_from(p.threads@, p.global_vars@, k, p.threads@.len());
    lemma_threads_phase(p);
}

} // verus!
