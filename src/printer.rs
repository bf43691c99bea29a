//! The *toy* text of syntax trees, as the parser reads it back.
use crate::ast::{CondExpr, Expr, FenceType, Init, LogicExpr, LogicInt, Program, Statement, Thread};
use crate::generator::decimal;
use vstd::prelude::*;
use vstd::string::StringExecFns;

verus! {

pub open spec fn expr_text(e: Expr) -> Seq<char> {
    match e {
        Expr::Num(n) => decimal(n as nat),
        Expr::Var(x) => x@,
    }
}

pub open spec fn cond_text(c: CondExpr) -> Seq<char>
    decreases c,
{
    match c {
        CondExpr::Neg(e) => "!("@ + cond_text(*e) + ")"@,
        CondExpr::And(a, b) => "("@ + cond_text(*a) + ") && ("@ + cond_text(*b) + ")"@,
        CondExpr::Eq(a, b) => expr_text(a) + " == "@ + expr_text(b),
        CondExpr::Leq(a, b) => expr_text(a) + " <= "@ + expr_text(b),
    }
}

pub open spec fn logic_int_text(e: LogicInt) -> Seq<char> {
    match e {
        LogicInt::Num(n) => decimal(n as nat),
        LogicInt::LogicVar(t, x) => t@ + "."@ + x@,
    }
}

pub open spec fn logic_text(c: LogicExpr) -> Seq<char>
    decreases c,
{
    match c {
        LogicExpr::Neg(e) => "!("@ + logic_text(*e) + ")"@,
        LogicExpr::And(a, b) => "("@ + logic_text(*a) + ") && ("@ + logic_text(*b) + ")"@,
        LogicExpr::Eq(a, b) => logic_int_text(a) + " == "@ + logic_int_text(b),
        LogicExpr::Leq(a, b) => logic_int_text(a) + " <= "@ + logic_int_text(b),
    }
}

pub open spec fn fence_text(f: FenceType) -> Seq<char> {
    match f {
        FenceType::WR => "WR"@,
        FenceType::WW => "WW"@,
        FenceType::RW => "RW"@,
        FenceType::RR => "RR"@,
    }
}

/// `n` spaces.
pub open spec fn spaces(n: nat) -> Seq<char> {
    Seq::new(n, |i: int| ' ')
}

/// A statement at indentation `indent`, without a final line break.
pub open spec fn stmt_text(s: Statement, indent: nat) -> Seq<char>
    decreases s, 1nat,
{
    match s {
        Statement::Assign(x, e) => spaces(indent) + "let "@ + x@ + ": u32 = "@ + expr_text(e) + ";"@,
        Statement::Modify(x, e) => spaces(indent) + x@ + " = "@ + expr_text(e) + ";"@,
        Statement::Fence(f) => spaces(indent) + "Fence("@ + fence_text(f) + ");"@,
        Statement::If(c, thn, els) => spaces(indent) + "if ("@ + cond_text(c) + ") {\n"@ + lines_text(
            thn@,
            indent + 4,
            thn@.len(),
        ) + spaces(indent) + "} else {\n"@ + lines_text(els@, indent + 4, els@.len()) + spaces(
            indent,
        ) + "}"@,
        Statement::While(c, body) => if body@.len() == 0 {
            spaces(indent) + "while ("@ + cond_text(c) + ") {}"@
        } else {
            spaces(indent) + "while ("@ + cond_text(c) + ") {\n"@ + lines_text(
                body@,
                indent + 4,
                body@.len(),
            ) + spaces(indent) + "}"@
        },
    }
}

/// The first `n` statements, one per line.
pub open spec fn lines_text(ss: Seq<Statement>, indent: nat, n: nat) -> Seq<char>
    decreases ss, n,
{
    if n == 0 || n > ss.len() {
        Seq::empty()
    } else {
        lines_text(ss, indent, (n - 1) as nat) + stmt_text(ss[n - 1], indent) + "\n"@
    }
}

fn push_str(s: &mut String, t: &str)
    ensures
        final(s)@ == old(s)@ + t@,
{
    s.append(t);
}

fn push_spaces(s: &mut String, n: usize)
    ensures
        final(s)@ == old(s)@ + spaces(n as nat),
{
    let ghost s0 = s@;
    let mut k: usize = 0;
    while k < n
        invariant
            k <= n,
            s@ == s0 + spaces(k as nat),
        decreases n - k,
    {
        proof {
            reveal_strlit(" ");
        }
        s.append(" ");
        k += 1;
        proof {
            assert(s@ =~= s0 + spaces(k as nat));
        }
    }
}

fn push_num(s: &mut String, n: u32)
    ensures
        final(s)@ == old(s)@ + decimal(n as nat),
{
    let d = crate::generator::numbered("", n as usize);
    proof {
        reveal_strlit("");
        assert(d@ =~= decimal(n as nat));
    }
    s.append(d.as_str());
}

impl Expr {
    /// The expression as *toy* text.
    pub fn to_text(&self) -> (r: String)
        ensures
            r@ == expr_text(*self),
    {
        match self {
            Expr::Num(n) => {
                let mut s = String::new();
                push_num(&mut s, *n);
                s
            },
            Expr::Var(x) => x.clone(),
        }
    }
}

impl CondExpr {
    fn write(&self, s: &mut String)
        ensures
            final(s)@ == old(s)@ + cond_text(*self),
        decreases self,
    {
        proof {
            reveal_strlit("!(");
            reveal_strlit(")");
            reveal_strlit("(");
            reveal_strlit(") && (");
            reveal_strlit(" == ");
            reveal_strlit(" <= ");
        }
        let ghost s0 = s@;
        match self {
            CondExpr::Neg(e) => {
                push_str(s, "!(");
                e.write(s);
                push_str(s, ")");
            },
            CondExpr::And(a, b) => {
                push_str(s, "(");
                a.write(s);
                push_str(s, ") && (");
                b.write(s);
                push_str(s, ")");
            },
            CondExpr::Eq(a, b) => {
                push_str(s, a.to_text().as_str());
                push_str(s, " == ");
                push_str(s, b.to_text().as_str());
            },
            CondExpr::Leq(a, b) => {
                push_str(s, a.to_text().as_str());
                push_str(s, " <= ");
                push_str(s, b.to_text().as_str());
            },
        }
        proof {
            assert(s@ =~= s0 + cond_text(*self));
        }
    }

    /// The condition as *toy* text.
    pub fn to_text(&self) -> (r: String)
        ensures
            r@ == cond_text(*self),
    {
        let mut s = String::new();
        self.write(&mut s);
        proof {
            assert(s@ =~= cond_text(*self));
        }
        s
    }
}

impl LogicInt {
    /// The integer as *toy* text.
    pub fn to_text(&self) -> (r: String)
        ensures
            r@ == logic_int_text(*self),
    {
        let mut s = String::new();
        match self {
            LogicInt::Num(n) => push_num(&mut s, *n),
            LogicInt::LogicVar(t, x) => {
                proof {
                    reveal_strlit(".");
                }
                push_str(&mut s, t.as_str());
                push_str(&mut s, ".");
                push_str(&mut s, x.as_str());
            },
        }
        proof {
            assert(s@ =~= logic_int_text(*self));
        }
        s
    }
}

impl LogicExpr {
    fn write(&self, s: &mut String)
        ensures
            final(s)@ == old(s)@ + logic_text(*self),
        decreases self,
    {
        proof {
            reveal_strlit("!(");
            reveal_strlit(")");
            reveal_strlit("(");
            reveal_strlit(") && (");
            reveal_strlit(" == ");
            reveal_strlit(" <= ");
        }
        let ghost s0 = s@;
        match self {
            LogicExpr::Neg(e) => {
                push_str(s, "!(");
                e.write(s);
                push_str(s, ")");
            },
            LogicExpr::And(a, b) => {
                push_str(s, "(");
                a.write(s);
                push_str(s, ") && (");
                b.write(s);
                push_str(s, ")");
            },
            LogicExpr::Eq(a, b) => {
                push_str(s, a.to_text().as_str());
                push_str(s, " == ");
                push_str(s, b.to_text().as_str());
            },
            LogicExpr::Leq(a, b) => {
                push_str(s, a.to_text().as_str());
                push_str(s, " <= ");
                push_str(s, b.to_text().as_str());
            },
        }
        proof {
            assert(s@ =~= s0 + logic_text(*self));
        }
    }

    /// The formula as *toy* text.
    pub fn to_text(&self) -> (r: String)
        ensures
            r@ == logic_text(*self),
    {
        let mut s = String::new();
        self.write(&mut s);
        proof {
            assert(s@ =~= logic_text(*self));
        }
        s
    }
}

impl FenceType {
    /// The fence kind as *toy* text.
    pub fn to_text(&self) -> (r: String)
        ensures
            r@ == fence_text(*self),
    {
        proof {
            reveal_strlit("WR");
            reveal_strlit("WW");
            reveal_strlit("RW");
            reveal_strlit("RR");
        }
        match self {
            FenceType::WR => "WR".to_owned(),
            FenceType::WW => "WW".to_owned(),
            FenceType::RW => "RW".to_owned(),
            FenceType::RR => "RR".to_owned(),
        }
    }
}

} // verus!

verus! {

/// How deeply blocks nest inside a statement.
pub open spec fn nesting(s: Statement) -> nat
    decreases s, 1nat,
{
    match s {
        Statement::If(_, thn, els) => {
            let a = lines_nesting(thn@, thn@.len());
            let b = lines_nesting(els@, els@.len());
            1 + if a >= b { a } else { b }
        },
        Statement::While(_, body) => 1 + lines_nesting(body@, body@.len()),
        _ => 0,
    }
}

pub open spec fn lines_nesting(ss: Seq<Statement>, n: nat) -> nat
    decreases ss, n,
{
    if n == 0 || n > ss.len() {
        0
    } else {
        let a = lines_nesting(ss, (n - 1) as nat);
        let b = nesting(ss[n - 1]);
        if a >= b { a } else { b }
    }
}

proof fn lemma_lines_nesting(ss: Seq<Statement>, n: nat, m: nat)
    requires
        m <= n <= ss.len(),
    ensures
        lines_nesting(ss, m) <= lines_nesting(ss, n),
        0 < m ==> nesting(ss[m - 1]) <= lines_nesting(ss, n),
    decreases n - m,
{
    if m < n {
        lemma_lines_nesting(ss, (n - 1) as nat, m);
    }
}

impl Statement {
    fn write(&self, s: &mut String, indent: usize)
        requires
            indent + 4 * nesting(*self) <= usize::MAX,
        ensures
            final(s)@ == old(s)@ + stmt_text(*self, indent as nat),
        decreases self, 1nat,
    {
        proof {
            reveal_strlit("let ");
            reveal_strlit(": u32 = ");
            reveal_strlit(";");
            reveal_strlit(" = ");
            reveal_strlit("Fence(");
            reveal_strlit(");");
            reveal_strlit("if (");
            reveal_strlit(") {\n");
            reveal_strlit("} else {\n");
            reveal_strlit("}");
            reveal_strlit("while (");
            reveal_strlit(") {}");
        }
        let ghost s0 = s@;
        push_spaces(s, indent);
        match self {
            Statement::Assign(x, e) => {
                push_str(s, "let ");
                push_str(s, x.as_str());
                push_str(s, ": u32 = ");
                push_str(s, e.to_text().as_str());
                push_str(s, ";");
            },
            Statement::Modify(x, e) => {
                push_str(s, x.as_str());
                push_str(s, " = ");
                push_str(s, e.to_text().as_str());
                push_str(s, ";");
            },
            Statement::Fence(f) => {
                push_str(s, "Fence(");
                push_str(s, f.to_text().as_str());
                push_str(s, ");");
            },
            Statement::If(c, thn, els) => {
                push_str(s, "if (");
                push_str(s, c.to_text().as_str());
                push_str(s, ") {\n");
                write_lines(thn, s, indent + 4);
                push_spaces(s, indent);
                push_str(s, "} else {\n");
                write_lines(els, s, indent + 4);
                push_spaces(s, indent);
                push_str(s, "}");
            },
            Statement::While(c, body) => {
                push_str(s, "while (");
                push_str(s, c.to_text().as_str());
                if body.len() == 0 {
                    push_str(s, ") {}");
                } else {
                    push_str(s, ") {\n");
                    write_lines(body, s, indent + 4);
                    push_spaces(s, indent);
                    push_str(s, "}");
                }
            },
        }
        proof {
            assert(s@ =~= s0 + stmt_text(*self, indent as nat));
        }
    }

    /// The statement as *toy* text, at indentation `indent`.
    pub fn to_text(&self, indent: usize) -> (r: String)
        requires
            indent + 4 * nesting(*self) <= usize::MAX,
        ensures
            r@ == stmt_text(*self, indent as nat),
    {
        let mut s = String::new();
        self.write(&mut s, indent);
        proof {
            assert(s@ =~= stmt_text(*self, indent as nat));
        }
        s
    }
}

/// Each statement on a line of its own.
fn write_lines(ss: &Vec<Statement>, s: &mut String, indent: usize)
    requires
        indent + 4 * lines_nesting(ss@, ss@.len()) <= usize::MAX,
    ensures
        final(s)@ == old(s)@ + lines_text(ss@, indent as nat, ss@.len()),
    decreases ss, 0nat,
{
    proof {
        reveal_strlit("\n");
    }
    let ghost s0 = s@;
    let mut i: usize = 0;
    while i < ss.len()
        invariant
            i <= ss@.len(),
            indent + 4 * lines_nesting(ss@, ss@.len()) <= usize::MAX,
            s@ == s0 + lines_text(ss@, indent as nat, i as nat),
            s0 == old(s)@,
        decreases ss@.len() - i,
    {
        proof {
            assert(decreases_to!(ss => ss@[i as int]));
            lemma_lines_nesting(ss@, ss@.len(), (i + 1) as nat);
        }
        ss[i].write(s, indent);
        push_str(s, "\n");
        i += 1;
        proof {
            assert(s@ =~= s0 + lines_text(ss@, indent as nat, i as nat));
        }
    }
}

pub open spec fn init_text(i: Init) -> Seq<char> {
    match i {
        Init::Assign(x, e) => "let "@ + x@ + ": u32 = "@ + expr_text(e) + ";"@,
    }
}

pub open spec fn thread_text(t: Thread) -> Seq<char> {
    "thread "@ + t.name@ + " {\n"@ + lines_text(t.instructions@, 4, t.instructions@.len()) + "}"@
}

impl Init {
    /// The initialisation as *toy* text.
    pub fn to_text(&self) -> (r: String)
        ensures
            r@ == init_text(*self),
    {
        proof {
            reveal_strlit("let ");
            reveal_strlit(": u32 = ");
            reveal_strlit(";");
        }
        let mut s = String::new();
        match self {
            Init::Assign(x, e) => {
                push_str(&mut s, "let ");
                push_str(&mut s, x.as_str());
                push_str(&mut s, ": u32 = ");
                push_str(&mut s, e.to_text().as_str());
                push_str(&mut s, ";");
            },
        }
        proof {
            assert(s@ =~= init_text(*self));
        }
        s
    }
}

impl Thread {
    /// The thread as *toy* text.
    pub fn to_text(&self) -> (r: String)
        requires
            4 + 4 * lines_nesting(self.instructions@, self.instructions@.len()) <= usize::MAX,
        ensures
            r@ == thread_text(*self),
    {
        proof {
            reveal_strlit("thread ");
            reveal_strlit(" {\n");
            reveal_strlit("}");
        }
        let mut s = String::new();
        push_str(&mut s, "thread ");
        push_str(&mut s, self.name.as_str());
        push_str(&mut s, " {\n");
        write_lines(&self.instructions, &mut s, 4);
        push_str(&mut s, "}");
        proof {
            assert(s@ =~= thread_text(*self));
        }
        s
    }
}

pub open spec fn init_lines(init: Seq<Init>, n: nat) -> Seq<char>
    decreases n,
{
    if n == 0 || n > init.len() {
        Seq::empty()
    } else {
        init_lines(init, (n - 1) as nat) + init_text(init[n - 1]) + "\n"@
    }
}

pub open spec fn thread_blocks(threads: Seq<Thread>, n: nat) -> Seq<char>
    decreases n,
{
    if n == 0 || n > threads.len() {
        Seq::empty()
    } else {
        thread_blocks(threads, (n - 1) as nat) + thread_text(threads[n - 1]) + "\n\n"@
    }
}

pub open spec fn assert_lines(asserts: Seq<LogicExpr>, n: nat) -> Seq<char>
    decreases n,
{
    if n == 0 || n > asserts.len() {
        Seq::empty()
    } else {
        assert_lines(asserts, (n - 1) as nat) + "    assert( "@ + logic_text(asserts[n - 1]) + " );\n"@
    }
}

pub open spec fn program_text(p: Program) -> Seq<char> {
    init_lines(p.init@, p.init@.len()) + "\n"@ + thread_blocks(p.threads@, p.threads@.len())
        + "final {\n"@ + assert_lines(p.assert@, p.assert@.len()) + "}"@
}

/// The threads and the assertion of a program can be printed.
pub open spec fn printable(p: Program) -> bool {
    forall|t: int|
        0 <= t < p.threads@.len() ==> 4 + 4 * lines_nesting(
            #[trigger] p.threads@[t].instructions@,
            p.threads@[t].instructions@.len(),
        ) <= usize::MAX
}

impl Program {
    /// The program as *toy* text: its initialisations, a blank line, each
    /// thread followed by a blank line, and the final block.
    pub fn to_text(&self) -> (r: String)
        requires
            printable(*self),
        ensures
            r@ == program_text(*self),
    {
        proof {
            reveal_strlit("\n");
            reveal_strlit("\n\n");
            reveal_strlit("final {\n");
            reveal_strlit("    assert( ");
            reveal_strlit(" );\n");
            reveal_strlit("}");
        }
        let mut s = String::new();
        let mut i: usize = 0;
        while i < self.init.len()
            invariant
                i <= self.init@.len(),
                s@ == init_lines(self.init@, i as nat),
            decreases self.init@.len() - i,
        {
            push_str(&mut s, self.init[i].to_text().as_str());
            push_str(&mut s, "\n");
            i += 1;
            proof {
                assert(s@ =~= init_lines(self.init@, i as nat));
            }
        }
        push_str(&mut s, "\n");
        let ghost s1 = s@;
        let mut t: usize = 0;
        while t < self.threads.len()
            invariant
                t <= self.threads@.len(),
                printable(*self),
                s@ == s1 + thread_blocks(self.threads@, t as nat),
            decreases self.threads@.len() - t,
        {
            assert(4 + 4 * lines_nesting(self.threads@[t as int].instructions@, self.threads@[t as int].instructions@.len()) <= usize::MAX);
            push_str(&mut s, self.threads[t].to_text().as_str());
            push_str(&mut s, "\n\n");
            t += 1;
            proof {
                assert(s@ =~= s1 + thread_blocks(self.threads@, t as nat));
            }
        }
        push_str(&mut s, "final {\n");
        let ghost s2 = s@;
        let mut k: usize = 0;
        while k < self.assert.len()
            invariant
                k <= self.assert@.len(),
                s@ == s2 + assert_lines(self.assert@, k as nat),
            decreases self.assert@.len() - k,
        {
            push_str(&mut s, "    assert( ");
            push_str(&mut s, self.assert[k].to_text().as_str());
            push_str(&mut s, " );\n");
            k += 1;
            proof {
                assert(s@ =~= s2 + assert_lines(self.assert@, k as nat));
            }
        }
        push_str(&mut s, "}");
        proof {
            assert(s@ =~= program_text(*self));
        }
        s
    }
}

} // verus!
