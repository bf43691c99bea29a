//! A recursive-descent parser for the *toy* language.
//!
//! ```text
//! program   = init thread* final
//! init      = ("let" name ":" "u32" "=" expr ";")*
//! thread    = "thread" name "{" stmt* "}"
//! stmt      = "let" name ":" "u32" "=" expr ";" | name "=" expr ";"
//!           | "Fence" "(" ("WR" | "WW" | "RW" | "RR") ")" ";"
//!           | "if" "(" cond ")" "{" stmt* "}" ("else" "{" stmt* "}")?
//!           | "while" "(" cond ")" "{" stmt* "}"
//! cond      = catom ("&&" catom)*
//! catom     = "!" "(" cond ")" | "(" cond ")" | expr ("==" | "<=") expr
//! expr      = name | num
//! final     = "final" "{" ("assert" "(" logic ")" ";")* "}"
//! logic     = latom ("&&" latom)*
//! latom     = "!" "(" logic ")" | "(" logic ")" | lint ("==" | "<=") lint
//! lint      = num | name "." name
//! ```
//!
//! Whitespace and `//` comments may stand between tokens.
use crate::ast::{CondExpr, Expr, FenceType, Init, LogicExpr, LogicInt, Program, Statement, Thread};
use crate::builder::is_global;
use vstd::prelude::*;
use vstd::string::StrSliceExecFns;

verus! {

/// The parser of the *toy* language.
pub struct ToyParser;

/// Why a text is not a *toy* program.
#[derive(Debug, Clone, PartialEq, Eq)]
pub enum ParseError {
    /// The text does not follow the grammar at this character position.
    Syntax(usize),
    /// A number at this character position does not fit in `u32`.
    NumberTooLarge(usize),
    /// A thread declares a local with the name of a global.
    ShadowedGlobal(String),
}

/// The names that an `init` block assigns, in order.
pub open spec fn init_names(init: Seq<Init>) -> Seq<Seq<char>> {
    init.map_values(|i: Init| match i {
        Init::Assign(x, _) => x@,
    })
}

/// No `let` of the statement, at any depth, names a global.
pub open spec fn stmt_declares_locals(s: Statement, globals: Seq<String>) -> bool
    decreases s, 1nat,
{
    match s {
        Statement::Assign(x, _) => !is_global(globals, x@),
        Statement::If(_, thn, els) => stmts_declare_locals(thn@, globals, thn@.len())
            && stmts_declare_locals(els@, globals, els@.len()),
        Statement::While(_, body) => stmts_declare_locals(body@, globals, body@.len()),
        _ => true,
    }
}

pub open spec fn stmts_declare_locals(ss: Seq<Statement>, globals: Seq<String>, n: nat) -> bool
    decreases ss, n,
{
    if n == 0 || n > ss.len() {
        true
    } else {
        stmts_declare_locals(ss, globals, (n - 1) as nat) && stmt_declares_locals(ss[n - 1], globals)
    }
}

proof fn lemma_declares_same(a: Seq<Statement>, b: Seq<Statement>, globals: Seq<String>, n: nat)
    requires
        n <= a.len(),
        n <= b.len(),
        forall|i: int| 0 <= i < n ==> a[i] == b[i],
    ensures
        stmts_declare_locals(a, globals, n) == stmts_declare_locals(b, globals, n),
    decreases n,
{
    if n > 0 {
        lemma_declares_same(a, b, globals, (n - 1) as nat);
    }
}

proof fn lemma_declares_push(v: Seq<Statement>, s: Statement, globals: Seq<String>)
    requires
        stmts_declare_locals(v, globals, v.len()),
        stmt_declares_locals(s, globals),
    ensures
        stmts_declare_locals(v.push(s), globals, v.len() + 1),
{
    lemma_declares_same(v, v.push(s), globals, v.len());
}

/// The characters of the source, and the source itself.
struct Src<'a> {
    text: &'a str,
    chars: Vec<char>,
}

impl<'a> Src<'a> {
    spec fn len(&self) -> nat {
        self.chars@.len()
    }

    spec fn wf(&self) -> bool {
        self.chars@ == self.text@
    }

    fn new(text: &'a str) -> (r: Src<'a>)
        ensures
            r.wf(),
            r.text == text,
    {
        let n = text.unicode_len();
        let mut chars: Vec<char> = Vec::new();
        let mut i: usize = 0;
        while i < n
            invariant
                n == text@.len(),
                i <= n,
                chars@ == text@.take(i as int),
            decreases n - i,
        {
            chars.push(text.get_char(i));
            i += 1;
            proof {
                assert(chars@ =~= text@.take(i as int));
            }
        }
        proof {
            assert(text@.take(n as int) =~= text@);
        }
        Src { text, chars }
    }

    fn at(&self, pos: usize) -> (r: Option<char>)
        ensures
            pos < self.chars@.len() ==> r == Some(self.chars@[pos as int]),
            pos >= self.chars@.len() ==> r is None,
    {
        if pos < self.chars.len() {
            Some(self.chars[pos])
        } else {
            None
        }
    }

    /// The first position at or after `pos` that is not whitespace or in a
    /// comment.
    fn skip(&self, pos: usize) -> (r: usize)
        requires
            pos <= self.len(),
        ensures
            pos <= r <= self.len(),
    {
        let n = self.chars.len();
        let mut p = pos;
        while p < n
            invariant
                n == self.len(),
                pos <= p <= n,
            decreases n - p,
        {
            let c = self.chars[p];
            if c == ' ' || c == '\n' || c == '\t' || c == '\r' {
                p += 1;
            } else if c == '/' && p + 1 < n && self.chars[p + 1] == '/' {
                let ghost p0 = p;
                p += 2;
                while p < n && self.chars[p] != '\n'
                    invariant
                        n == self.len(),
                        pos <= p <= n,
                        p0 < p,
                    decreases n - p,
                {
                    p += 1;
                }
            } else {
                return p;
            }
        }
        p
    }

    /// After whitespace, the token `t`; returns the position after it.
    fn token(&self, pos: usize, t: &str) -> (r: Option<usize>)
        requires
            pos <= self.len(),
        ensures
            r matches Some(q) ==> pos < q <= self.len(),
    {
        let p = self.skip(pos);
        let tn = t.unicode_len();
        let n = self.chars.len();
        if tn == 0 || tn > n - p {
            return None;
        }
        let mut k: usize = 0;
        while k < tn
            invariant
                tn == t@.len(),
                n == self.len(),
                p + tn <= n,
                k <= tn,
            decreases tn - k,
        {
            if self.chars[p + k] != t.get_char(k) {
                return None;
            }
            k += 1;
        }
        Some(p + tn)
    }

    /// After whitespace, the token `t`, or an error at that position.
    fn expect(&self, pos: usize, t: &str) -> (r: Result<usize, ParseError>)
        requires
            pos <= self.len(),
        ensures
            r matches Ok(q) ==> pos < q <= self.len(),
    {
        match self.token(pos, t) {
            Some(q) => Ok(q),
            None => Err(ParseError::Syntax(self.skip(pos))),
        }
    }

    /// After whitespace, the keyword `t` as a whole word.
    fn keyword(&self, pos: usize, t: &str) -> (r: Option<usize>)
        requires
            pos <= self.len(),
        ensures
            r matches Some(q) ==> pos < q <= self.len(),
    {
        match self.token(pos, t) {
            Some(q) => match self.at(q) {
                Some(c) => if is_name_char(c) {
                    None
                } else {
                    Some(q)
                },
                None => Some(q),
            },
            None => None,
        }
    }

    /// After whitespace, a name.
    fn name(&self, pos: usize) -> (r: Result<(String, usize), ParseError>)
        requires
            pos <= self.len(),
            self.wf(),
        ensures
            r matches Ok((_, q)) ==> pos < q <= self.len(),
    {
        let p = self.skip(pos);
        let n = self.chars.len();
        match self.at(p) {
            Some(c) => if !(is_name_char(c) && !is_digit(c)) {
                return Err(ParseError::Syntax(p));
            },
            None => {
                return Err(ParseError::Syntax(p));
            },
        }
        let mut q = p + 1;
        while q < n && is_name_char(self.chars[q])
            invariant
                n == self.len(),
                p < q <= n,
            decreases n - q,
        {
            q += 1;
        }
        Ok((self.text.substring_char(p, q).to_owned(), q))
    }

    /// After whitespace, a decimal number that fits in `u32`.
    fn number(&self, pos: usize) -> (r: Result<(u32, usize), ParseError>)
        requires
            pos <= self.len(),
        ensures
            r matches Ok((_, q)) ==> pos < q <= self.len(),
    {
        let p = self.skip(pos);
        let n = self.chars.len();
        let mut q = p;
        let mut v: u32 = 0;
        while q < n && is_digit(self.chars[q])
            invariant
                n == self.len(),
                p <= q <= n,
            decreases n - q,
        {
            let d = digit_value(self.chars[q]);
            if v > (u32::MAX - d) / 10 {
                return Err(ParseError::NumberTooLarge(p));
            }
            v = v * 10 + d;
            q += 1;
        }
        if q == p {
            Err(ParseError::Syntax(p))
        } else {
            Ok((v, q))
        }
    }

    fn expr(&self, pos: usize) -> (r: Result<(Expr, usize), ParseError>)
        requires
            pos <= self.len(),
            self.wf(),
        ensures
            r matches Ok((_, q)) ==> pos < q <= self.len(),
    {
        if self.starts_with_digit(pos) {
            match self.number(pos) {
                Ok((v, q)) => Ok((Expr::Num(v), q)),
                Err(e) => Err(e),
            }
        } else {
            match self.name(pos) {
                Ok((x, q)) => Ok((Expr::Var(x), q)),
                Err(e) => Err(e),
            }
        }
    }

    fn cond_expr(&self, pos: usize) -> (r: Result<(CondExpr, usize), ParseError>)
        requires
            pos <= self.len(),
            self.wf(),
        ensures
            r matches Ok((_, q)) ==> pos < q <= self.len(),
        decreases self.len() - pos, 2nat,
    {
        let (mut e, mut p) = match self.cond_atom(pos) {
            Ok(r) => r,
            Err(err) => {
                return Err(err);
            },
        };
        loop
            invariant
                self.wf(),
                pos < p <= self.len(),
            decreases self.len() - p,
        {
            let q = match self.token(p, "&&") {
                Some(q) => q,
                None => {
                    break;
                },
            };
            match self.cond_atom(q) {
                Ok((a, q2)) => {
                    e = CondExpr::And(Box::new(e), Box::new(a));
                    p = q2;
                },
                Err(err) => {
                    return Err(err);
                },
            }
        }
        Ok((e, p))
    }

    fn cond_atom(&self, pos: usize) -> (r: Result<(CondExpr, usize), ParseError>)
        requires
            pos <= self.len(),
            self.wf(),
        ensures
            r matches Ok((_, q)) ==> pos < q <= self.len(),
        decreases self.len() - pos, 1nat,
    {
        if let Some(q) = self.token(pos, "!") {
            match self.cond_atom(q) {
                Ok((e, q2)) => Ok((CondExpr::Neg(Box::new(e)), q2)),
                Err(err) => Err(err),
            }
        } else if let Some(q) = self.token(pos, "(") {
            match self.cond_expr(q) {
                Ok((e, q2)) => match self.expect(q2, ")") {
                    Ok(q3) => Ok((e, q3)),
                    Err(err) => Err(err),
                },
                Err(err) => Err(err),
            }
        } else {
            let (a, q) = match self.expr(pos) {
                Ok(r) => r,
                Err(err) => {
                    return Err(err);
                },
            };
            let is_eq = self.token(q, "==");
            let is_leq = self.token(q, "<=");
            let (q2, eq) = match (is_eq, is_leq) {
                (Some(q2), _) => (q2, true),
                (None, Some(q2)) => (q2, false),
                _ => {
                    return Err(ParseError::Syntax(self.skip(q)));
                },
            };
            match self.expr(q2) {
                Ok((b, q3)) => if eq {
                    Ok((CondExpr::Eq(a, b), q3))
                } else {
                    Ok((CondExpr::Leq(a, b), q3))
                },
                Err(err) => Err(err),
            }
        }
    }

    fn logic_int(&self, pos: usize) -> (r: Result<(LogicInt, usize), ParseError>)
        requires
            pos <= self.len(),
            self.wf(),
        ensures
            r matches Ok((_, q)) ==> pos < q <= self.len(),
    {
        if self.starts_with_digit(pos) {
            match self.number(pos) {
                Ok((v, q)) => Ok((LogicInt::Num(v), q)),
                Err(e) => Err(e),
            }
        } else {
            let (t, q) = match self.name(pos) {
                Ok(r) => r,
                Err(e) => {
                    return Err(e);
                },
            };
            let q2 = match self.expect(q, ".") {
                Ok(q2) => q2,
                Err(e) => {
                    return Err(e);
                },
            };
            match self.name(q2) {
                Ok((x, q3)) => Ok((LogicInt::LogicVar(t, x), q3)),
                Err(e) => Err(e),
            }
        }
    }

    fn logic_expr(&self, pos: usize) -> (r: Result<(LogicExpr, usize), ParseError>)
        requires
            pos <= self.len(),
            self.wf(),
        ensures
            r matches Ok((_, q)) ==> pos < q <= self.len(),
        decreases self.len() - pos, 2nat,
    {
        let (mut e, mut p) = match self.logic_atom(pos) {
            Ok(r) => r,
            Err(err) => {
                return Err(err);
            },
        };
        loop
            invariant
                self.wf(),
                pos < p <= self.len(),
            decreases self.len() - p,
        {
            let q = match self.token(p, "&&") {
                Some(q) => q,
                None => {
                    break;
                },
            };
            match self.logic_atom(q) {
                Ok((a, q2)) => {
                    e = LogicExpr::And(Box::new(e), Box::new(a));
                    p = q2;
                },
                Err(err) => {
                    return Err(err);
                },
            }
        }
        Ok((e, p))
    }

    fn logic_atom(&self, pos: usize) -> (r: Result<(LogicExpr, usize), ParseError>)
        requires
            pos <= self.len(),
            self.wf(),
        ensures
            r matches Ok((_, q)) ==> pos < q <= self.len(),
        decreases self.len() - pos, 1nat,
    {
        if let Some(q) = self.token(pos, "!") {
            match self.logic_atom(q) {
                Ok((e, q2)) => Ok((LogicExpr::Neg(Box::new(e)), q2)),
                Err(err) => Err(err),
            }
        } else if let Some(q) = self.token(pos, "(") {
            match self.logic_expr(q) {
                Ok((e, q2)) => match self.expect(q2, ")") {
                    Ok(q3) => Ok((e, q3)),
                    Err(err) => Err(err),
                },
                Err(err) => Err(err),
            }
        } else {
            let (a, q) = match self.logic_int(pos) {
                Ok(r) => r,
                Err(err) => {
                    return Err(err);
                },
            };
            let is_eq = self.token(q, "==");
            let is_leq = self.token(q, "<=");
            let (q2, eq) = match (is_eq, is_leq) {
                (Some(q2), _) => (q2, true),
                (None, Some(q2)) => (q2, false),
                _ => {
                    return Err(ParseError::Syntax(self.skip(q)));
                },
            };
            match self.logic_int(q2) {
                Ok((b, q3)) => if eq {
                    Ok((LogicExpr::Eq(a, b), q3))
                } else {
                    Ok((LogicExpr::Leq(a, b), q3))
                },
                Err(err) => Err(err),
            }
        }
    }

    /// `let x: u32 = e;` after the keyword `let`; the name, the expression
    /// and the position after the `;`.
    fn declaration(&self, pos: usize) -> (r: Result<(String, Expr, usize), ParseError>)
        requires
            pos <= self.len(),
            self.wf(),
        ensures
            r matches Ok((_, _, q)) ==> pos < q <= self.len(),
    {
        let (x, q) = match self.name(pos) {
            Ok(r) => r,
            Err(e) => {
                return Err(e);
            },
        };
        let q = match self.expect(q, ":") {
            Ok(q) => q,
            Err(e) => {
                return Err(e);
            },
        };
        let q = match self.keyword(q, "u32") {
            Some(q) => q,
            None => {
                return Err(ParseError::Syntax(self.skip(q)));
            },
        };
        let q = match self.expect(q, "=") {
            Ok(q) => q,
            Err(e) => {
                return Err(e);
            },
        };
        let (e, q) = match self.expr(q) {
            Ok(r) => r,
            Err(e) => {
                return Err(e);
            },
        };
        match self.expect(q, ";") {
            Ok(q) => Ok((x, e, q)),
            Err(e) => Err(e),
        }
    }

    /// `{ stmt* }`.
    fn block(&self, pos: usize, globals: &Vec<String>) -> (r: Result<(Vec<Statement>, usize), ParseError>)
        requires
            pos <= self.len(),
            self.wf(),
        ensures
            r matches Ok((v, q)) ==> pos < q <= self.len() && stmts_declare_locals(
                v@,
                globals@,
                v@.len(),
            ),
        decreases self.len() - pos, 3nat,
    {
        let q = match self.expect(pos, "{") {
            Ok(q) => q,
            Err(e) => {
                return Err(e);
            },
        };
        let (v, q) = match self.statements(q, globals) {
            Ok(r) => r,
            Err(e) => {
                return Err(e);
            },
        };
        match self.expect(q, "}") {
            Ok(q) => Ok((v, q)),
            Err(e) => Err(e),
        }
    }

    /// Statements up to a closing brace, which is left in place.
    fn statements(&self, pos: usize, globals: &Vec<String>) -> (r: Result<(Vec<Statement>, usize), ParseError>)
        requires
            pos <= self.len(),
            self.wf(),
        ensures
            r matches Ok((v, q)) ==> pos <= q <= self.len() && stmts_declare_locals(
                v@,
                globals@,
                v@.len(),
            ),
        decreases self.len() - pos, 2nat,
    {
        let mut v: Vec<Statement> = Vec::new();
        let mut p = pos;
        loop
            invariant
                self.wf(),
                pos <= p <= self.len(),
                stmts_declare_locals(v@, globals@, v@.len()),
            decreases self.len() - p,
        {
            if self.token(p, "}").is_some() || self.skip(p) == self.chars.len() {
                break;
            }
            match self.statement(p, globals) {
                Ok((st, q)) => {
                    let ghost v0 = v@;
                    v.push(st);
                    proof {
                        assert(v@.drop_last() == v0);
                        lemma_declares_push(v0, st, globals@);
                    }
                    p = q;
                },
                Err(e) => {
                    return Err(e);
                },
            }
        }
        Ok((v, p))
    }

    fn statement(&self, pos: usize, globals: &Vec<String>) -> (r: Result<(Statement, usize), ParseError>)
        requires
            pos <= self.len(),
            self.wf(),
        ensures
            r matches Ok((st, q)) ==> pos < q <= self.len() && stmt_declares_locals(st, globals@),
        decreases self.len() - pos, 1nat,
    {
        if let Some(q) = self.keyword(pos, "let") {
            match self.declaration(q) {
                Ok((x, e, q2)) => if crate::builder::is_global_var(globals, &x) {
                    Err(ParseError::ShadowedGlobal(x))
                } else {
                    Ok((Statement::Assign(x, e), q2))
                },
                Err(e) => Err(e),
            }
        } else if let Some(q) = self.keyword(pos, "Fence") {
            let q = match self.expect(q, "(") {
                Ok(q) => q,
                Err(e) => {
                    return Err(e);
                },
            };
            let (f, q) = if let Some(q) = self.keyword(q, "WR") {
                (FenceType::WR, q)
            } else if let Some(q) = self.keyword(q, "WW") {
                (FenceType::WW, q)
            } else if let Some(q) = self.keyword(q, "RW") {
                (FenceType::RW, q)
            } else if let Some(q) = self.keyword(q, "RR") {
                (FenceType::RR, q)
            } else {
                return Err(ParseError::Syntax(self.skip(q)));
            };
            let q = match self.expect(q, ")") {
                Ok(q) => q,
                Err(e) => {
                    return Err(e);
                },
            };
            match self.expect(q, ";") {
                Ok(q) => Ok((Statement::Fence(f), q)),
                Err(e) => Err(e),
            }
        } else if let Some(q) = self.keyword(pos, "if") {
            let q = match self.expect(q, "(") {
                Ok(q) => q,
                Err(e) => {
                    return Err(e);
                },
            };
            let (c, q) = match self.cond_expr(q) {
                Ok(r) => r,
                Err(e) => {
                    return Err(e);
                },
            };
            let q = match self.expect(q, ")") {
                Ok(q) => q,
                Err(e) => {
                    return Err(e);
                },
            };
            let (thn, q) = match self.block(q, globals) {
                Ok(r) => r,
                Err(e) => {
                    return Err(e);
                },
            };
            if let Some(q2) = self.keyword(q, "else") {
                match self.block(q2, globals) {
                    Ok((els, q3)) => Ok((Statement::If(c, thn, els), q3)),
                    Err(e) => Err(e),
                }
            } else {
                let els: Vec<Statement> = Vec::new();
                Ok((Statement::If(c, thn, els), q))
            }
        } else if let Some(q) = self.keyword(pos, "while") {
            let q = match self.expect(q, "(") {
                Ok(q) => q,
                Err(e) => {
                    return Err(e);
                },
            };
            let (c, q) = match self.cond_expr(q) {
                Ok(r) => r,
                Err(e) => {
                    return Err(e);
                },
            };
            let q = match self.expect(q, ")") {
                Ok(q) => q,
                Err(e) => {
                    return Err(e);
                },
            };
            match self.block(q, globals) {
                Ok((body, q2)) => Ok((Statement::While(c, body), q2)),
                Err(e) => Err(e),
            }
        } else {
            let (x, q) = match self.name(pos) {
                Ok(r) => r,
                Err(e) => {
                    return Err(e);
                },
            };
            let q = match self.expect(q, "=") {
                Ok(q) => q,
                Err(e) => {
                    return Err(e);
                },
            };
            let (e, q) = match self.expr(q) {
                Ok(r) => r,
                Err(e) => {
                    return Err(e);
                },
            };
            match self.expect(q, ";") {
                Ok(q) => Ok((Statement::Modify(x, e), q)),
                Err(e) => Err(e),
            }
        }
    }

    fn starts_with_digit(&self, pos: usize) -> (r: bool)
        requires
            pos <= self.len(),
    {
        match self.at(self.skip(pos)) {
            Some(c) => is_digit(c),
            None => false,
        }
    }
}

fn is_digit(c: char) -> bool {
    '0' <= c && c <= '9'
}

fn digit_value(c: char) -> (r: u32)
    ensures
        r <= 9,
{
    if '0' <= c && c <= '9' {
        (c as u32) - ('0' as u32)
    } else {
        0
    }
}

fn is_name_char(c: char) -> bool {
    ('a' <= c && c <= 'z') || ('A' <= c && c <= 'Z') || ('0' <= c && c <= '9') || c == '_'
}

} // verus!

verus! {

/// Parse a *toy* program. Its globals are the names that its `init` block
/// assigns, in order; a thread that declares a local with a global's name
/// is refused.
pub fn parse(source: &str) -> (r: Result<Program, ParseError>)
    ensures
        r matches Ok(p) ==> {
            &&& init_names(p.init@) == p.global_vars@.map_values(|x: String| x@)
            &&& forall|t: int|
                0 <= t < p.threads@.len() ==> stmts_declare_locals(
                    #[trigger] p.threads@[t].instructions@,
                    p.global_vars@,
                    p.threads@[t].instructions@.len(),
                )
        },
{
    let src = Src::new(source);
    let mut init: Vec<Init> = Vec::new();
    let mut global_vars: Vec<String> = Vec::new();
    let mut p: usize = 0;
    loop
        invariant
            src.wf(),
            p <= src.len(),
            init_names(init@) == global_vars@.map_values(|x: String| x@),
        decreases src.len() - p,
    {
        let q = match src.keyword(p, "let") {
            Some(q) => q,
            None => {
                break;
            },
        };
        match src.declaration(q) {
            Ok((x, e, q2)) => {
                let ghost i0 = init@;
                let ghost g0 = global_vars@;
                let x2 = x.clone();
                global_vars.push(x2);
                init.push(Init::Assign(x, e));
                proof {
                    let a = init_names(init@);
                    let b = global_vars@.map_values(|x: String| x@);
                    assert(init_names(i0).len() == i0.len());
                    assert(g0.map_values(|x: String| x@).len() == g0.len());
                    assert(i0.len() == g0.len());
                    assert forall|k: int| 0 <= k < a.len() implies a[k] == b[k] by {
                        if k < i0.len() {
                            assert(init@[k] == i0[k]);
                            assert(global_vars@[k] == g0[k]);
                            assert(init_names(i0)[k] == g0.map_values(|x: String| x@)[k]);
                        } else {
                            assert(init@[k] == Init::Assign(x, e));
                            assert(global_vars@[k] == x);
                        }
                    }
                    assert(a =~= b);
                }
                p = q2;
            },
            Err(err) => {
                return Err(err);
            },
        }
    }
    let mut threads: Vec<Thread> = Vec::new();
    loop
        invariant
            src.wf(),
            p <= src.len(),
            forall|t: int|
                0 <= t < threads@.len() ==> stmts_declare_locals(
                    #[trigger] threads@[t].instructions@,
                    global_vars@,
                    threads@[t].instructions@.len(),
                ),
        decreases src.len() - p,
    {
        let q = match src.keyword(p, "thread") {
            Some(q) => q,
            None => {
                break;
            },
        };
        let (name, q) = match src.name(q) {
            Ok(r) => r,
            Err(e) => {
                return Err(e);
            },
        };
        match src.block(q, &global_vars) {
            Ok((instructions, q2)) => {
                let ghost t0 = threads@;
                threads.push(Thread { name, instructions });
                proof {
                    assert forall|t: int| 0 <= t < threads@.len() implies stmts_declare_locals(
                        #[trigger] threads@[t].instructions@,
                        global_vars@,
                        threads@[t].instructions@.len(),
                    ) by {
                        if t < t0.len() {
                            assert(threads@[t] == t0[t]);
                        }
                    }
                }
                p = q2;
            },
            Err(e) => {
                return Err(e);
            },
        }
    }
    let q = match src.keyword(p, "final") {
        Some(q) => q,
        None => {
            return Err(ParseError::Syntax(src.skip(p)));
        },
    };
    let mut p = match src.expect(q, "{") {
        Ok(q) => q,
        Err(e) => {
            return Err(e);
        },
    };
    let mut asserts: Vec<LogicExpr> = Vec::new();
    loop
        invariant
            src.wf(),
            p <= src.len(),
        decreases src.len() - p,
    {
        let q = match src.keyword(p, "assert") {
            Some(q) => q,
            None => {
                break;
            },
        };
        let q = match src.expect(q, "(") {
            Ok(q) => q,
            Err(e) => {
                return Err(e);
            },
        };
        let (e, q) = match src.logic_expr(q) {
            Ok(r) => r,
            Err(err) => {
                return Err(err);
            },
        };
        let q = match src.expect(q, ")") {
            Ok(q) => q,
            Err(err) => {
                return Err(err);
            },
        };
        match src.expect(q, ";") {
            Ok(q) => {
                asserts.push(e);
                p = q;
            },
            Err(err) => {
                return Err(err);
            },
        }
    }
    let p = match src.expect(p, "}") {
        Ok(q) => q,
        Err(e) => {
            return Err(e);
        },
    };
    let end = src.skip(p);
    if end != src.chars.len() {
        return Err(ParseError::Syntax(end));
    }
    Ok(Program { init, threads, assert: asserts, global_vars })
}

} // verus!
