//! Generators of mutual-exclusion programs for benchmarking.
use crate::ast::{CondExpr, Expr, Init, Program, Statement, Thread};
use vstd::prelude::*;
use vstd::string::StringExecFns;

verus! {

/// The decimal digits of `n`.
pub open spec fn decimal(n: nat) -> Seq<char>
    decreases n,
{
    if n < 10 {
        seq![digit_char(n)]
    } else {
        decimal(n / 10).push(digit_char(n % 10))
    }
}

pub open spec fn digit_char(d: nat) -> char {
    if d == 0 { '0' } else if d == 1 { '1' } else if d == 2 { '2' } else if d == 3 { '3' } else if d == 4 { '4' }
    else if d == 5 { '5' } else if d == 6 { '6' } else if d == 7 { '7' } else if d == 8 { '8' } else { '9' }
}

fn digit_str(d: usize) -> (r: &'static str)
    requires
        d < 10,
    ensures
        r@ == seq![digit_char(d as nat)],
{
    proof {
        reveal_strlit("0");
        reveal_strlit("1");
        reveal_strlit("2");
        reveal_strlit("3");
        reveal_strlit("4");
        reveal_strlit("5");
        reveal_strlit("6");
        reveal_strlit("7");
        reveal_strlit("8");
        reveal_strlit("9");
    }
    if d == 0 { "0" } else if d == 1 { "1" } else if d == 2 { "2" } else if d == 3 { "3" } else if d == 4 { "4" }
    else if d == 5 { "5" } else if d == 6 { "6" } else if d == 7 { "7" } else if d == 8 { "8" } else { "9" }
}

/// `prefix` followed by the decimal digits of `n`.
pub(crate) fn numbered(prefix: &str, n: usize) -> (r: String)
    ensures
        r@ == prefix@ + decimal(n as nat),
    decreases n,
{
    if n < 10 {
        let mut s = prefix.to_owned();
        s.append(digit_str(n));
        s
    } else {
        let mut s = numbered(prefix, n / 10);
        s.append(digit_str(n % 10));
        proof {
            assert(prefix@ + decimal(n as nat) =~= (prefix@ + decimal((n / 10) as nat)) + seq![digit_char((n % 10) as nat)]);
        }
        s
    }
}

fn name(s: &str) -> (r: String)
    ensures
        r@ == s@,
{
    s.to_owned()
}

fn var(s: &str) -> (r: Expr)
    ensures
        r matches Expr::Var(x) && x@ == s@,
{
    Expr::Var(s.to_owned())
}

fn spin_while(c: CondExpr) -> Statement {
    Statement::While(c, Vec::new())
}

fn not_eq(a: Expr, b: Expr) -> CondExpr {
    CondExpr::Neg(Box::new(CondExpr::Eq(a, b)))
}

/// Lamport's fast mutual exclusion for `num_threads` threads `t0`, `t1`,
/// ...: globals `x`, `y` and one flag `b<i>` per thread, all 0 at first.
pub fn generate_lamport_program(num_threads: usize) -> (r: Program)
    requires
        2 <= num_threads < u32::MAX,
    ensures
        r.threads@.len() == num_threads,
        r.global_vars@.len() == num_threads + 2,
        r.init@.len() == num_threads + 2,
        r.assert@.len() == 0,
        forall|i: int| 0 <= i < num_threads ==> (#[trigger] r.threads@[i]).name@ == seq!['t'] + decimal(i as nat),
        forall|i: int| 0 <= i < num_threads ==> (#[trigger] r.global_vars@[i + 2])@ == seq!['b'] + decimal(i as nat),
{
    proof {
        reveal_strlit("x");
        reveal_strlit("y");
        reveal_strlit("t");
        reveal_strlit("b");
    }
    let mut global_vars: Vec<String> = Vec::new();
    let mut init: Vec<Init> = Vec::new();
    global_vars.push(name("x"));
    global_vars.push(name("y"));
    init.push(Init::Assign(name("x"), Expr::Num(0)));
    init.push(Init::Assign(name("y"), Expr::Num(0)));
    let mut i: usize = 0;
    while i < num_threads
        invariant
            i <= num_threads,
            global_vars@.len() == i + 2,
            init@.len() == i + 2,
            forall|k: int| 0 <= k < i ==> (#[trigger] global_vars@[k + 2])@ == seq!['b'] + decimal(k as nat),
        decreases num_threads - i,
    {
        global_vars.push(numbered("b", i));
        init.push(Init::Assign(numbered("b", i), Expr::Num(0)));
        proof {
            reveal_strlit("b");
            assert(global_vars@[i + 2] == global_vars@.last());
            assert forall|k: int| 0 <= k < i + 1 implies (#[trigger] global_vars@[k + 2])@ == seq!['b'] + decimal(k as nat) by {
                if k < i {
                    assert(global_vars@[k + 2] == global_vars@.drop_last()[k + 2]);
                }
            }
        }
        i += 1;
    }
    let mut threads: Vec<Thread> = Vec::new();
    let mut i: usize = 0;
    while i < num_threads
        invariant
            i <= num_threads < u32::MAX,
            threads@.len() == i,
            forall|k: int| 0 <= k < i ==> (#[trigger] threads@[k]).name@ == seq!['t'] + decimal(k as nat),
        decreases num_threads - i,
    {
        let mut for_loop: Vec<Statement> = Vec::new();
        let mut j: usize = 0;
        while j < num_threads
            invariant
                j <= num_threads,
            decreases num_threads - j,
        {
            for_loop.push(spin_while(CondExpr::Eq(Expr::Var(numbered("b", j)), Expr::Num(1))));
            j += 1;
        }
        let mut not_mine: Vec<Statement> = Vec::new();
        not_mine.push(Statement::Modify(numbered("b", i), Expr::Num(0)));
        crate::generator::append_statements(&mut not_mine, for_loop);
        let mut wait_or_stop_thn: Vec<Statement> = Vec::new();
        wait_or_stop_thn.push(spin_while(not_eq(var("y"), Expr::Num(0))));
        let mut wait_or_stop_els: Vec<Statement> = Vec::new();
        wait_or_stop_els.push(Statement::Modify(name("stop"), Expr::Num(1)));
        not_mine.push(Statement::If(not_eq(var("y"), var("i")), wait_or_stop_thn, wait_or_stop_els));
        let mut mine: Vec<Statement> = Vec::new();
        mine.push(Statement::Modify(name("stop"), Expr::Num(1)));
        let mut contended: Vec<Statement> = Vec::new();
        contended.push(Statement::Modify(numbered("b", i), Expr::Num(0)));
        contended.push(spin_while(not_eq(var("y"), Expr::Num(0))));
        let mut free: Vec<Statement> = Vec::new();
        free.push(Statement::Modify(name("y"), var("i")));
        free.push(Statement::Assign(name("a"), var("x")));
        free.push(Statement::If(not_eq(var("a"), var("i")), not_mine, mine));
        let mut body: Vec<Statement> = Vec::new();
        body.push(Statement::Modify(numbered("b", i), Expr::Num(1)));
        body.push(Statement::Modify(name("x"), var("i")));
        body.push(Statement::If(not_eq(var("y"), Expr::Num(0)), contended, free));
        let mut instructions: Vec<Statement> = Vec::new();
        instructions.push(Statement::Assign(name("i"), Expr::Num(i as u32 + 1)));
        instructions.push(Statement::Assign(name("stop"), Expr::Num(0)));
        instructions.push(Statement::While(CondExpr::Eq(var("stop"), Expr::Num(0)), body));
        instructions.push(Statement::Modify(name("y"), Expr::Num(0)));
        instructions.push(Statement::Modify(numbered("b", i), Expr::Num(0)));
        threads.push(Thread { name: numbered("t", i), instructions });
        proof {
            reveal_strlit("t");
            assert forall|k: int| 0 <= k < i + 1 implies (#[trigger] threads@[k]).name@ == seq!['t'] + decimal(k as nat) by {
                if k < i {
                    assert(threads@[k] == threads@.drop_last()[k]);
                }
            }
        }
        i += 1;
    }
    Program { init, threads, assert: Vec::new(), global_vars }
}

/// Append the statements of `more` to `v`.
fn append_statements(v: &mut Vec<Statement>, more: Vec<Statement>)
    ensures
        final(v)@ == old(v)@ + more@,
{
    let mut more = more;
    v.append(&mut more);
}

/// Peterson's filter lock for `num_threads` threads `t0`, `t1`, ...:
/// globals `level<i>` per thread and `lastToEnter<l>` per level, all 0 at
/// first.
pub fn generate_peterson_program(num_threads: usize) -> (r: Program)
    requires
        2 <= num_threads < u32::MAX,
    ensures
        r.threads@.len() == num_threads,
        r.global_vars@.len() == 2 * num_threads - 1,
        r.init@.len() == 2 * num_threads - 1,
        r.assert@.len() == 0,
        forall|i: int| 0 <= i < num_threads ==> (#[trigger] r.threads@[i]).name@ == seq!['t'] + decimal(i as nat),
        forall|i: int| 0 <= i < num_threads ==> (#[trigger] r.threads@[i]).instructions@.len() == 3 * (num_threads - 1),
        forall|i: int| 0 <= i < num_threads ==> (#[trigger] r.global_vars@[i])@ == "level"@ + decimal(i as nat),
        forall|l: int| 0 <= l < num_threads - 1 ==> (#[trigger] r.global_vars@[num_threads + l])@ == "lastToEnter"@ + decimal(l as nat),
        forall|i: int| 0 <= i < 2 * num_threads - 1 ==> ((#[trigger] r.init@[i]) matches Init::Assign(x, Expr::Num(0)) && x@ == r.global_vars@[i]@),
{
    let mut global_vars: Vec<String> = Vec::new();
    let mut init: Vec<Init> = Vec::new();
    let mut i: usize = 0;
    while i < num_threads
        invariant
            i <= num_threads,
            global_vars@.len() == i,
            init@.len() == i,
            forall|k: int| 0 <= k < i ==> (#[trigger] global_vars@[k])@ == "level"@ + decimal(k as nat),
            forall|k: int| 0 <= k < i ==> ((#[trigger] init@[k]) matches Init::Assign(x, Expr::Num(0)) && x@ == global_vars@[k]@),
        decreases num_threads - i,
    {
        let ghost g0 = global_vars@;
        let ghost i0 = init@;
        global_vars.push(numbered("level", i));
        init.push(Init::Assign(numbered("level", i), Expr::Num(0)));
        proof {
            assert forall|k: int| 0 <= k < i + 1 implies (#[trigger] global_vars@[k])@ == "level"@ + decimal(k as nat)
                && (init@[k] matches Init::Assign(x, Expr::Num(0)) && x@ == global_vars@[k]@) by {
                if k < i {
                    assert(global_vars@[k] == g0[k]);
                    assert(init@[k] == i0[k]);
                }
            }
        }
        i += 1;
    }
    let mut l: usize = 0;
    while l < num_threads - 1
        invariant
            2 <= num_threads,
            l <= num_threads - 1,
            global_vars@.len() == num_threads + l,
            init@.len() == num_threads + l,
            forall|k: int| 0 <= k < num_threads ==> (#[trigger] global_vars@[k])@ == "level"@ + decimal(k as nat),
            forall|k: int| 0 <= k < l ==> (#[trigger] global_vars@[num_threads + k])@ == "lastToEnter"@ + decimal(k as nat),
            forall|k: int| 0 <= k < num_threads + l ==> ((#[trigger] init@[k]) matches Init::Assign(x, Expr::Num(0)) && x@ == global_vars@[k]@),
        decreases num_threads - 1 - l,
    {
        let ghost g0 = global_vars@;
        let ghost i0 = init@;
        global_vars.push(numbered("lastToEnter", l));
        init.push(Init::Assign(numbered("lastToEnter", l), Expr::Num(0)));
        proof {
            assert forall|k: int| 0 <= k < num_threads implies (#[trigger] global_vars@[k])@ == "level"@ + decimal(k as nat) by {
                assert(global_vars@[k] == g0[k]);
            }
            assert forall|k: int| 0 <= k < l + 1 implies (#[trigger] global_vars@[num_threads + k])@ == "lastToEnter"@ + decimal(k as nat) by {
                if k < l {
                    assert(global_vars@[num_threads + k] == g0[num_threads + k]);
                }
            }
            assert forall|k: int| 0 <= k < num_threads + l + 1 implies (#[trigger] init@[k]) matches Init::Assign(x, Expr::Num(0)) && x@ == global_vars@[k]@ by {
                if k < num_threads + l {
                    assert(global_vars@[k] == g0[k]);
                    assert(init@[k] == i0[k]);
                }
            }
        }
        l += 1;
    }
    let mut threads: Vec<Thread> = Vec::new();
    let mut i: usize = 0;
    proof {
        reveal_strlit("t");
    }
    while i < num_threads
        invariant
            2 <= num_threads < u32::MAX,
            i <= num_threads,
            threads@.len() == i,
            forall|k: int| 0 <= k < i ==> (#[trigger] threads@[k]).name@ == seq!['t'] + decimal(k as nat),
            forall|k: int| 0 <= k < i ==> (#[trigger] threads@[k]).instructions@.len() == 3 * (num_threads - 1),
        decreases num_threads - i,
    {
        let mut instructions: Vec<Statement> = Vec::new();
        let mut l: usize = 0;
        while l < num_threads - 1
            invariant
                2 <= num_threads < u32::MAX,
                i < num_threads,
                l <= num_threads - 1,
                instructions@.len() == 3 * l,
            decreases num_threads - 1 - l,
        {
            instructions.push(Statement::Modify(numbered("level", i), Expr::Num(l as u32)));
            instructions.push(Statement::Modify(numbered("lastToEnter", l), var("i")));
            // Some other thread is at level `l` or above.
            let mut others: Option<CondExpr> = None;
            let mut k: usize = 0;
            while k < num_threads
                invariant
                    k <= num_threads,
                decreases num_threads - k,
            {
                if k != i {
                    let below = CondExpr::Neg(
                        Box::new(CondExpr::Leq(Expr::Num(l as u32), Expr::Var(numbered("level", k)))),
                    );
                    others = match others {
                        None => Some(below),
                        Some(e) => Some(CondExpr::And(Box::new(e), Box::new(below))),
                    };
                }
                k += 1;
            }
            let waiting = CondExpr::Eq(Expr::Var(numbered("lastToEnter", l)), Expr::Num(i as u32));
            let cond = match others {
                Some(e) => CondExpr::And(Box::new(waiting), Box::new(CondExpr::Neg(Box::new(e)))),
                None => waiting,
            };
            instructions.push(spin_while(cond));
            l += 1;
        }
        threads.push(Thread { name: numbered("t", i), instructions });
        proof {
            reveal_strlit("t");
            assert forall|k: int| 0 <= k < i + 1 implies (#[trigger] threads@[k]).name@ == seq!['t'] + decimal(k as nat)
                && threads@[k].instructions@.len() == 3 * (num_threads - 1) by {
                if k < i {
                    assert(threads@[k] == threads@.drop_last()[k]);
                }
            }
        }
        i += 1;
    }
    Program { init, threads, assert: Vec::new(), global_vars }
}

} // verus!

verus! {

/// A random program: `num_threads` threads `t0`, `t1`, ... of
/// `num_instructions` statements each over globals `x0`, `x1`, ... (all 0
/// at first), with `if` and `while` blocks nested at most `max_depth` deep.
pub fn generate_random_program(
    num_threads: usize,
    num_instructions: usize,
    num_global_variables: usize,
    max_depth: usize,
) -> (r: Program)
    requires
        num_threads >= 1,
        num_instructions >= 1,
        2 <= num_global_variables <= u32::MAX,
    ensures
        r.threads@.len() == num_threads,
        r.global_vars@.len() == num_global_variables,
        r.init@.len() == num_global_variables,
        r.assert@.len() == 0,
        forall|i: int| 0 <= i < num_threads ==> (#[trigger] r.threads@[i]).name@ == seq!['t'] + decimal(i as nat),
        forall|i: int| 0 <= i < num_threads ==> (#[trigger] r.threads@[i]).instructions@.len() == num_instructions,
        forall|i: int| 0 <= i < num_global_variables ==> (#[trigger] r.global_vars@[i])@ == seq!['x'] + decimal(i as nat),
{
    let mut global_vars: Vec<String> = Vec::new();
    let mut init: Vec<Init> = Vec::new();
    let mut i: usize = 0;
    while i < num_global_variables
        invariant
            i <= num_global_variables,
            global_vars@.len() == i,
            init@.len() == i,
            forall|k: int| 0 <= k < i ==> (#[trigger] global_vars@[k])@ == seq!['x'] + decimal(k as nat),
        decreases num_global_variables - i,
    {
        global_vars.push(numbered("x", i));
        init.push(Init::Assign(numbered("x", i), Expr::Num(0)));
        proof {
            reveal_strlit("x");
            assert forall|k: int| 0 <= k < i + 1 implies (#[trigger] global_vars@[k])@ == seq!['x'] + decimal(k as nat) by {
                if k < i {
                    assert(global_vars@[k] == global_vars@.drop_last()[k]);
                }
            }
        }
        i += 1;
    }
    let mut threads: Vec<Thread> = Vec::new();
    let mut i: usize = 0;
    while i < num_threads
        invariant
            i <= num_threads,
            2 <= num_global_variables <= u32::MAX,
            threads@.len() == i,
            forall|k: int| 0 <= k < i ==> (#[trigger] threads@[k]).name@ == seq!['t'] + decimal(k as nat),
            forall|k: int| 0 <= k < i ==> (#[trigger] threads@[k]).instructions@.len() == num_instructions,
        decreases num_threads - i,
    {
        let instructions = generate_random_instructions(
            num_instructions,
            num_global_variables,
            num_global_variables / 2,
            max_depth,
        );
        threads.push(Thread { name: numbered("t", i), instructions });
        proof {
            reveal_strlit("t");
            assert forall|k: int| 0 <= k < i + 1 implies (#[trigger] threads@[k]).name@ == seq!['t'] + decimal(k as nat)
                && threads@[k].instructions@.len() == num_instructions by {
                if k < i {
                    assert(threads@[k] == threads@.drop_last()[k]);
                }
            }
        }
        i += 1;
    }
    Program { init, threads, assert: Vec::new(), global_vars }
}

/// `num_instructions` random statements. A draw in tenths picks the kind:
/// an `if` (one tenth) or a `while` (one tenth) while nesting is allowed,
/// else a write of a random value to a global or a read of a global into
/// a fresh local `y<j>`, equally likely.
fn generate_random_instructions(
    num_instructions: usize,
    num_global_variables: usize,
    num_values: usize,
    max_depth: usize,
) -> (r: Vec<Statement>)
    requires
        num_global_variables >= 1,
        1 <= num_values <= u32::MAX,
    ensures
        r@.len() == num_instructions,
    decreases max_depth,
{
    let mut instructions: Vec<Statement> = Vec::new();
    let mut j: usize = 0;
    while j < num_instructions
        invariant
            j <= num_instructions,
            instructions@.len() == j,
            num_global_variables >= 1,
            1 <= num_values <= u32::MAX,
        decreases num_instructions - j,
    {
        let choice = if max_depth == 0 {
            2 + crate::interpreter::random_below(8)
        } else {
            crate::interpreter::random_below(10)
        };
        if choice < 2 {
            let lhs = generate_random_expression(num_global_variables, num_values);
            let rhs = Expr::Num(generate_random_value(num_values));
            let cond = CondExpr::Eq(lhs, rhs);
            if choice < 1 {
                let thn = generate_random_instructions(num_instructions / 2, num_global_variables, num_values, max_depth - 1);
                let els = generate_random_instructions(num_instructions / 2, num_global_variables, num_values, max_depth - 1);
                instructions.push(Statement::If(cond, thn, els));
            } else {
                let body = generate_random_instructions(num_instructions / 2, num_global_variables, num_values, max_depth - 1);
                instructions.push(Statement::While(cond, body));
            }
        } else if choice < 6 {
            let variable = crate::interpreter::random_below(num_global_variables);
            let value = generate_random_value(num_values);
            instructions.push(Statement::Modify(numbered("x", variable), Expr::Num(value)));
        } else {
            let variable = crate::interpreter::random_below(num_global_variables);
            instructions.push(Statement::Assign(numbered("y", j), Expr::Var(numbered("x", variable))));
        }
        j += 1;
    }
    instructions
}

/// A global or a value, equally likely.
fn generate_random_expression(num_global_variables: usize, num_values: usize) -> Expr
    requires
        num_global_variables >= 1,
        1 <= num_values <= u32::MAX,
{
    if crate::interpreter::random_below(2) == 0 {
        Expr::Var(numbered("x", crate::interpreter::random_below(num_global_variables)))
    } else {
        Expr::Num(generate_random_value(num_values))
    }
}

fn generate_random_value(num_values: usize) -> (r: u32)
    requires
        1 <= num_values <= u32::MAX,
    ensures
        r < num_values,
{
    crate::interpreter::random_below(num_values) as u32
}

} // verus!
