//! Scope checking: every variable is defined before it is used, no thread
//! declares a local twice, and thread names are unique.
use crate::ast::{CondExpr, Expr, Init, LogicExpr, LogicInt, Program, Statement, Thread};
use crate::builder::{is_global, is_global_var};
use vstd::prelude::*;

verus! {

/// A scope error, with the offending item.
#[derive(Debug, Clone, PartialEq, Eq)]
pub enum Error {
    UndefinedInit(Init),
    UndefinedExpr(Expr),
    UndefinedModify(Statement),
    UndefinedLogic(LogicInt),
    DuplicateThread(Thread),
    DuplicateAssign(Statement),
}

/// The locals of each thread, by thread name.
pub type ThreadLocals = Vec<(String, Vec<String>)>;

pub open spec fn names_has(v: Seq<String>, x: Seq<char>) -> bool {
    is_global(v, x)
}

pub open spec fn expr_defined(e: Expr, globals: Seq<String>, locals: Seq<String>) -> bool {
    match e {
        Expr::Num(_) => true,
        Expr::Var(x) => names_has(globals, x@) || names_has(locals, x@),
    }
}

pub open spec fn cond_defined(c: CondExpr, globals: Seq<String>, locals: Seq<String>) -> bool
    decreases c,
{
    match c {
        CondExpr::Neg(e) => cond_defined(*e, globals, locals),
        CondExpr::And(a, b) => cond_defined(*a, globals, locals) && cond_defined(*b, globals, locals),
        CondExpr::Eq(a, b) => expr_defined(a, globals, locals) && expr_defined(b, globals, locals),
        CondExpr::Leq(a, b) => expr_defined(a, globals, locals) && expr_defined(b, globals, locals),
    }
}

/// Whether a statement is well scoped, and the locals after it. Both
/// branches of an `if` are checked, and their declarations stay in scope.
pub open spec fn stmt_scoped(s: Statement, globals: Seq<String>, locals: Seq<String>) -> (bool, Seq<String>)
    decreases s, 1nat,
{
    match s {
        Statement::Assign(x, e) => if names_has(locals, x@) {
            (false, locals)
        } else if !expr_defined(e, globals, locals) {
            (false, locals)
        } else {
            (true, locals.push(x))
        },
        Statement::Modify(x, e) => (
            (names_has(globals, x@) || names_has(locals, x@)) && expr_defined(e, globals, locals),
            locals,
        ),
        Statement::Fence(_) => (true, locals),
        Statement::If(c, thn, els) => {
            let ok_c = cond_defined(c, globals, locals);
            let (ok_t, l1) = stmts_scoped(thn@, globals, locals, thn@.len());
            let (ok_e, l2) = stmts_scoped(els@, globals, l1, els@.len());
            (ok_c && ok_t && ok_e, l2)
        },
        Statement::While(c, body) => {
            let ok_c = cond_defined(c, globals, locals);
            let (ok_b, l1) = stmts_scoped(body@, globals, locals, body@.len());
            (ok_c && ok_b, l1)
        },
    }
}

/// The first `n` statements, checked until the first error.
pub open spec fn stmts_scoped(ss: Seq<Statement>, globals: Seq<String>, locals: Seq<String>, n: nat) -> (bool, Seq<String>)
    decreases ss, n,
{
    if n == 0 || n > ss.len() {
        (true, locals)
    } else {
        let (ok, l1) = stmts_scoped(ss, globals, locals, (n - 1) as nat);
        if !ok {
            (false, l1)
        } else {
            stmt_scoped(ss[n - 1], globals, l1)
        }
    }
}

/// `a` if it is an error, else `b`.
fn first_error(a: Result<(), Error>, b: Result<(), Error>) -> (r: Result<(), Error>)
    ensures
        r is Ok <==> a is Ok && b is Ok,
        a is Err ==> r == a,
        a is Ok ==> r == b,
{
    match a {
        Err(e) => Err(e),
        Ok(()) => b,
    }
}

fn copy_expr(e: &Expr) -> (r: Expr)
    ensures
        r == *e,
{
    match e {
        Expr::Num(n) => Expr::Num(*n),
        Expr::Var(x) => Expr::Var(x.clone()),
    }
}

fn copy_logic_int(e: &LogicInt) -> (r: LogicInt)
    ensures
        r == *e,
{
    match e {
        LogicInt::Num(n) => LogicInt::Num(*n),
        LogicInt::LogicVar(t, x) => LogicInt::LogicVar(t.clone(), x.clone()),
    }
}

/// The names that `init` defines, in order, or the first assignment that
/// reads a name not defined before it.
pub fn check_init(init: &Vec<Init>) -> (r: Result<Vec<String>, Error>)
    ensures
        r is Ok <==> init_ok(init@),
        r matches Ok(g) ==> g@ == globals_of(init@),
        r matches Err(e) ==> e is UndefinedInit,
{
    let mut globals: Vec<String> = Vec::new();
    let mut i: usize = 0;
    while i < init.len()
        invariant
            i <= init@.len(),
            globals@ == globals_of(init@.take(i as int)),
            forall|k: int|
                0 <= k < i ==> match #[trigger] init@[k] {
                    Init::Assign(_, Expr::Var(y)) => names_has(globals_of(init@.take(k)), y@),
                    _ => true,
                },
        decreases init@.len() - i,
    {
        match &init[i] {
            Init::Assign(x, expr) => {
                if let Expr::Var(y) = expr {
                    if !is_global_var(&globals, y) {
                        return Err(Error::UndefinedInit(Init::Assign(x.clone(), copy_expr(expr))));
                    }
                }
                globals.push(x.clone());
            },
        }
        i += 1;
        proof {
            assert(init@.take(i as int).drop_last() =~= init@.take(i - 1));
            assert(globals@ =~= globals_of(init@.take(i as int)));
        }
    }
    proof {
        assert(init@.take(init@.len() as int) =~= init@);
    }
    Ok(globals)
}

/// A variable expression must name a global or a local.
pub fn check_expression(expr: &Expr, globals: &Vec<String>, locals: &Vec<String>) -> (r: Result<(), Error>)
    ensures
        r is Ok <==> expr_defined(*expr, globals@, locals@),
        r is Err ==> r == Err::<(), Error>(Error::UndefinedExpr(*expr)),
{
    match expr {
        Expr::Num(_) => Ok(()),
        Expr::Var(x) => if is_global_var(globals, x) || is_global_var(locals, x) {
            Ok(())
        } else {
            Err(Error::UndefinedExpr(copy_expr(expr)))
        },
    }
}

fn check_cond_expr(c: &CondExpr, globals: &Vec<String>, locals: &Vec<String>) -> (r: Result<(), Error>)
    ensures
        r is Ok <==> cond_defined(*c, globals@, locals@),
    decreases c,
{
    match c {
        CondExpr::Neg(e) => check_cond_expr(e, globals, locals),
        CondExpr::And(a, b) => {
            let ra = check_cond_expr(a, globals, locals);
            let rb = check_cond_expr(b, globals, locals);
            first_error(ra, rb)
        },
        CondExpr::Eq(a, b) | CondExpr::Leq(a, b) => {
            let ra = check_expression(a, globals, locals);
            let rb = check_expression(b, globals, locals);
            first_error(ra, rb)
        },
    }
}

fn check_statement(s: &Statement, globals: &Vec<String>, locals: &mut Vec<String>) -> (r: Result<(), Error>)
    ensures
        (r is Ok, final(locals)@) == stmt_scoped(*s, globals@, old(locals)@),
    decreases s, 1nat,
{
    match s {
        Statement::Assign(x, e) => {
            if is_global_var(locals, x) {
                return Err(Error::DuplicateAssign(Statement::Assign(x.clone(), copy_expr(e))));
            }
            let r = check_expression(e, globals, locals);
            if r.is_err() {
                return r;
            }
            locals.push(x.clone());
            Ok(())
        },
        Statement::Modify(x, e) => {
            if !is_global_var(globals, x) && !is_global_var(locals, x) {
                return Err(Error::UndefinedModify(Statement::Modify(x.clone(), copy_expr(e))));
            }
            check_expression(e, globals, locals)
        },
        Statement::Fence(_) => Ok(()),
        Statement::If(c, thn, els) => {
            let rc = check_cond_expr(c, globals, locals);
            let rt = check_statements(thn, globals, locals);
            let re = check_statements(els, globals, locals);
            first_error(first_error(rc, rt), re)
        },
        Statement::While(c, body) => {
            let rc = check_cond_expr(c, globals, locals);
            let rb = check_statements(body, globals, locals);
            first_error(rc, rb)
        },
    }
}

fn check_statements(ss: &Vec<Statement>, globals: &Vec<String>, locals: &mut Vec<String>) -> (r: Result<(), Error>)
    ensures
        (r is Ok, final(locals)@) == stmts_scoped(ss@, globals@, old(locals)@, ss@.len()),
    decreases ss, 0nat,
{
    let ghost l0 = locals@;
    let mut i: usize = 0;
    while i < ss.len()
        invariant
            i <= ss@.len(),
            l0 == old(locals)@,
            stmts_scoped(ss@, globals@, l0, i as nat) == (true, locals@),
        decreases ss@.len() - i,
    {
        proof {
            assert(decreases_to!(ss => ss@[i as int]));
        }
        let ghost lb = locals@;
        let r = check_statement(&ss[i], globals, locals);
        proof {
            assert(stmts_scoped(ss@, globals@, l0, (i + 1) as nat) == stmt_scoped(ss@[i as int], globals@, lb));
        }
        if r.is_err() {
            proof {
                assert(stmts_scoped(ss@, globals@, l0, i as nat) == (true, lb));
                assert(!stmts_scoped(ss@, globals@, l0, (i + 1) as nat).0);
                lemma_scoped_stops(ss@, globals@, l0, (i + 1) as nat, ss@.len());
                assert(stmts_scoped(ss@, globals@, l0, ss@.len()) == (false, locals@));
            }
            return r;
        }
        i += 1;
    }
    Ok(())
}

/// Once a prefix fails, every longer prefix fails with the same locals.
proof fn lemma_scoped_stops(ss: Seq<Statement>, globals: Seq<String>, l0: Seq<String>, m: nat, n: nat)
    requires
        m <= n <= ss.len(),
        !stmts_scoped(ss, globals, l0, m).0,
    ensures
        stmts_scoped(ss, globals, l0, n) == stmts_scoped(ss, globals, l0, m),
    decreases n - m,
{
    if m < n {
        lemma_scoped_stops(ss, globals, l0, m, (n - 1) as nat);
    }
}

/// The locals of each thread, or the first scope error. A thread name may
/// be used once.
pub fn check_threads(threads: &Vec<Thread>, globals: &Vec<String>) -> (r: Result<ThreadLocals, Error>)
    ensures
        r is Ok <==> threads_ok(threads@, globals@),
        r matches Ok(tl) ==> tl_view(tl@) == thread_locals_of(threads@, globals@),
{
    let mut names: Vec<String> = Vec::new();
    let mut out: ThreadLocals = Vec::new();
    let mut t: usize = 0;
    while t < threads.len()
        invariant
            t <= threads@.len(),
            out@.len() == t,
            names@.len() == t,
            forall|u: int| 0 <= u < t ==> (#[trigger] names@[u])@ == threads@[u].name@,
            forall|a: int, b: int| 0 <= a < t && 0 <= b < t && a != b ==> #[trigger] names@[a]@ != #[trigger] names@[b]@,
            forall|u: int|
                0 <= u < t ==> (#[trigger] out@[u]).0@ == threads@[u].name@ && stmts_scoped(
                    threads@[u].instructions@,
                    globals@,
                    Seq::empty(),
                    threads@[u].instructions@.len(),
                ) == (true, out@[u].1@),
        decreases threads@.len() - t,
    {
        let thread = &threads[t];
        if is_global_var(&names, &thread.name) {
            proof {
                let u = choose|u: int| 0 <= u < names@.len() && #[trigger] names@[u]@ == thread.name@;
                assert(threads@[u].name@ == threads@[t as int].name@);
            }
            return Err(Error::DuplicateThread(thread.clone()));
        }
        let ghost n0 = names@;
        names.push(thread.name.clone());
        proof {
            assert forall|a: int, b: int| 0 <= a < t + 1 && 0 <= b < t + 1 && a != b implies #[trigger] names@[a]@ != #[trigger] names@[b]@ by {
                if a < t && b < t {
                    assert(names@[a] == n0[a] && names@[b] == n0[b]);
                } else if a < t {
                    assert(names@[a] == n0[a]);
                    assert(n0[a]@ != thread.name@);
                } else {
                    assert(names@[b] == n0[b]);
                    assert(n0[b]@ != thread.name@);
                }
            }
        }
        let mut locals: Vec<String> = Vec::new();
        let r = check_statements(&thread.instructions, globals, &mut locals);
        if let Err(e) = r {
            proof {
                assert(!stmts_scoped(threads@[t as int].instructions@, globals@, Seq::empty(), threads@[t as int].instructions@.len()).0);
            }
            return Err(e);
        }
        out.push((thread.name.clone(), locals));
        t += 1;
    }
    proof {
        assert(tl_view(out@) =~= thread_locals_of(threads@, globals@)) by {
            assert forall|u: int| 0 <= u < out@.len() implies tl_view(out@)[u] == thread_locals_of(threads@, globals@)[u] by {
                assert(out@[u].0@ == threads@[u].name@);
            }
        }
        assert forall|i: int, j: int|
            0 <= i < threads@.len() && 0 <= j < threads@.len() && i != j implies #[trigger] threads@[i].name@
            != #[trigger] threads@[j].name@ by {
            assert(names@[i]@ == threads@[i].name@);
            assert(names@[j]@ == threads@[j].name@);
        }
        assert forall|u: int| 0 <= u < threads@.len() implies stmts_scoped(
            #[trigger] threads@[u].instructions@,
            globals@,
            Seq::empty(),
            threads@[u].instructions@.len(),
        ).0 by {
            assert(out@[u].0@ == threads@[u].name@);
        }
    }
    Ok(out)
}

/// The locals of the named thread, if there is one.
fn locals_of<'a>(tl: &'a ThreadLocals, thread: &String) -> (r: Option<&'a Vec<String>>)
    ensures
        r matches Some(v) ==> exists|u: int|
            0 <= u < tl@.len() && tl@[u].0@ == thread@ && tl@[u].1 == *v && forall|k: int|
                0 <= k < u ==> tl@[k].0@ != thread@,
        r is None ==> forall|u: int| 0 <= u < tl@.len() ==> tl@[u].0@ != thread@,
{
    let mut u: usize = 0;
    while u < tl.len()
        invariant
            u <= tl@.len(),
            forall|k: int| 0 <= k < u ==> tl@[k].0@ != thread@,
        decreases tl@.len() - u,
    {
        if tl[u].0 == *thread {
            return Some(&tl[u].1);
        }
        u += 1;
    }
    None
}

/// The thread locals as Verus sees them: each thread's name and locals.
pub open spec fn tl_view(tl: Seq<(String, Vec<String>)>) -> Seq<(Seq<char>, Seq<String>)> {
    tl.map_values(|p: (String, Vec<String>)| (p.0@, p.1@))
}

/// `t.x` is defined when thread `t` exists and declares `x`.
pub open spec fn logic_int_defined(e: LogicInt, tl: Seq<(Seq<char>, Seq<String>)>) -> bool {
    match e {
        LogicInt::Num(_) => true,
        LogicInt::LogicVar(t, x) => exists|u: int|
            0 <= u < tl.len() && tl[u].0 == t@ && names_has(tl[u].1, x@) && forall|k: int|
                0 <= k < u ==> tl[k].0 != t@,
    }
}

/// A thread-local reference in the assertion must name a thread and one of
/// its locals.
pub fn check_logic_int(e: &LogicInt, tl: &ThreadLocals) -> (r: Result<(), Error>)
    ensures
        r is Ok <==> logic_int_defined(*e, tl_view(tl@)),
        r is Err ==> r == Err::<(), Error>(Error::UndefinedLogic(*e)),
{
    match e {
        LogicInt::Num(_) => Ok(()),
        LogicInt::LogicVar(thread, variable) => {
            match locals_of(tl, thread) {
                None => {
                    proof {
                        let tv = tl_view(tl@);
                        assert forall|u: int| 0 <= u < tv.len() implies tv[u].0 != thread@ by {
                            assert(tv[u].0 == tl@[u].0@);
                        }
                    }
                    Err(Error::UndefinedLogic(copy_logic_int(e)))
                },
                Some(v) => {
                    let ghost u = choose|u: int|
                        0 <= u < tl@.len() && tl@[u].0@ == thread@ && tl@[u].1 == *v && forall|k: int|
                            0 <= k < u ==> tl@[k].0@ != thread@;
                    if is_global_var(v, variable) {
                        proof {
                            let tv = tl_view(tl@);
                            assert(tv[u] == (tl@[u].0@, tl@[u].1@));
                            assert forall|k: int| 0 <= k < u implies tv[k].0 != thread@ by {
                                assert(tv[k].0 == tl@[k].0@);
                            }
                        }
                        Ok(())
                    } else {
                        proof {
                            let tv = tl_view(tl@);
                            if logic_int_defined(*e, tv) {
                                let u2 = choose|u2: int|
                                    0 <= u2 < tv.len() && tv[u2].0 == thread@ && names_has(tv[u2].1, variable@)
                                        && forall|k: int| 0 <= k < u2 ==> tv[k].0 != thread@;
                                if u2 < u {
                                    assert(tl@[u2].0@ == tv[u2].0);
                                } else if u < u2 {
                                    assert(tv[u].0 == tl@[u].0@);
                                }
                                assert(u2 == u);
                                assert(tv[u].1 == v@);
                            }
                        }
                        Err(Error::UndefinedLogic(copy_logic_int(e)))
                    }
                },
            }
        },
    }
}

pub open spec fn logic_defined(e: LogicExpr, tl: Seq<(Seq<char>, Seq<String>)>) -> bool
    decreases e,
{
    match e {
        LogicExpr::Neg(a) => logic_defined(*a, tl),
        LogicExpr::And(a, b) => logic_defined(*a, tl) && logic_defined(*b, tl),
        LogicExpr::Eq(a, b) => logic_int_defined(a, tl) && logic_int_defined(b, tl),
        LogicExpr::Leq(a, b) => logic_int_defined(a, tl) && logic_int_defined(b, tl),
    }
}

fn check_logic_expr(e: &LogicExpr, tl: &ThreadLocals) -> (r: Result<(), Error>)
    ensures
        r is Ok <==> logic_defined(*e, tl_view(tl@)),
    decreases e,
{
    match e {
        LogicExpr::Neg(a) => check_logic_expr(a, tl),
        LogicExpr::And(a, b) => {
            let ra = check_logic_expr(a, tl);
            let rb = check_logic_expr(b, tl);
            first_error(ra, rb)
        },
        LogicExpr::Eq(a, b) | LogicExpr::Leq(a, b) => {
            let ra = check_logic_int(a, tl);
            let rb = check_logic_int(b, tl);
            first_error(ra, rb)
        },
    }
}

/// Every reference of the final assertion names a thread and its local.
pub fn check_assert(asserts: &Vec<LogicExpr>, tl: &ThreadLocals) -> (r: Result<(), Error>)
    ensures
        r is Ok <==> forall|k: int| 0 <= k < asserts@.len() ==> logic_defined(#[trigger] asserts@[k], tl_view(tl@)),
{
    let mut i: usize = 0;
    while i < asserts.len()
        invariant
            i <= asserts@.len(),
            forall|k: int| 0 <= k < i ==> logic_defined(#[trigger] asserts@[k], tl_view(tl@)),
        decreases asserts@.len() - i,
    {
        let r = check_logic_expr(&asserts[i], tl);
        if r.is_err() {
            return r;
        }
        i += 1;
    }
    Ok(())
}

/// The names that `init` assigns, in order.
pub open spec fn globals_of(init: Seq<Init>) -> Seq<String> {
    init.map_values(|i: Init| match i {
        Init::Assign(x, _) => x,
    })
}

/// Each `init` assignment reads only names assigned before it.
pub open spec fn init_ok(init: Seq<Init>) -> bool {
    forall|k: int|
        0 <= k < init.len() ==> match #[trigger] init[k] {
            Init::Assign(_, Expr::Var(y)) => names_has(globals_of(init.take(k)), y@),
            _ => true,
        }
}

/// Each thread's name and the locals that scope checking finds in it.
pub open spec fn thread_locals_of(threads: Seq<Thread>, globals: Seq<String>) -> Seq<(Seq<char>, Seq<String>)> {
    threads.map_values(
        |t: Thread|
            (t.name@, stmts_scoped(t.instructions@, globals, Seq::empty(), t.instructions@.len()).1),
    )
}

/// Each thread has its own name and is well scoped.
pub open spec fn threads_ok(threads: Seq<Thread>, globals: Seq<String>) -> bool {
    &&& crate::invariants::distinct_names(threads)
    &&& forall|t: int|
        0 <= t < threads.len() ==> stmts_scoped(
            #[trigger] threads[t].instructions@,
            globals,
            Seq::empty(),
            threads[t].instructions@.len(),
        ).0
}

/// The program is well scoped.
pub open spec fn program_ok(p: Program) -> bool {
    let g = globals_of(p.init@);
    &&& init_ok(p.init@)
    &&& threads_ok(p.threads@, g)
    &&& forall|k: int| 0 <= k < p.assert@.len() ==> logic_defined(#[trigger] p.assert@[k], thread_locals_of(p.threads@, g))
}

/// Check that the program is well scoped: `init` reads only names it
/// defined before, each thread has its own name and is well scoped, and
/// the final assertion reads only declared thread locals.
pub fn check(program: &Program) -> (r: Result<(), Error>)
    ensures
        r is Ok <==> program_ok(*program),
{
    let globals = match check_init(&program.init) {
        Ok(g) => g,
        Err(e) => {
            return Err(e);
        },
    };
    let tl = match check_threads(&program.threads, &globals) {
        Ok(tl) => tl,
        Err(e) => {
            return Err(e);
        },
    };
    check_assert(&program.assert, &tl)
}

} // verus!
