//! Abstract syntax of the *toy* language: expressions, conditions,
//! statements, threads and whole programs.
use vstd::prelude::*;

verus! {

/// The type of a variable name.
pub type Name = String;

/// A value expression: a constant or a variable.
#[derive(Debug, Clone, PartialEq, Eq)]
pub enum Expr {
    Num(u32),
    Var(Name),
}

/// A branch or loop condition.
#[derive(Debug, PartialEq, Eq)]
pub enum CondExpr {
    Neg(Box<CondExpr>),
    And(Box<CondExpr>, Box<CondExpr>),
    Eq(Expr, Expr),
    Leq(Expr, Expr),
}

/// An integer in the final assertion.
#[derive(Debug, Clone, PartialEq, Eq)]
pub enum LogicInt {
    /// A constant, for example `1`.
    Num(u32),
    /// A thread-local variable, for example `t1.x`.
    LogicVar(String, String),
}

/// A formula of the final assertion.
#[derive(Debug, PartialEq, Eq)]
pub enum LogicExpr {
    Neg(Box<LogicExpr>),
    And(Box<LogicExpr>, Box<LogicExpr>),
    Eq(LogicInt, LogicInt),
    Leq(LogicInt, LogicInt),
}

/// The four kinds of fences: each one restores the order between two kinds
/// of accesses (write-read, write-write, read-write, read-read).
#[derive(PartialEq, Eq, Debug, Clone, Copy)]
pub enum FenceType {
    /// `mfence` on x86, `sync` on Power.
    WR,
    /// `sync` or `lwsync` on Power.
    WW,
    /// `sync`, `lwsync` or a dependency on Power.
    RW,
    /// `sync`, `lwsync`, a dependency or `isync` on Power.
    RR,
}

/// A statement of the `init` block.
#[derive(Debug, Clone, PartialEq, Eq)]
pub enum Init {
    /// An assignment, for example `let x: u32 = 3;`.
    Assign(Name, Expr),
}

/// A statement of a thread.
#[derive(Debug, PartialEq, Eq)]
pub enum Statement {
    /// A declaration of a local, for example `let a: u32 = x;`.
    Assign(Name, Expr),
    /// An update of an existing variable, for example `y = x;`.
    Modify(Name, Expr),
    /// A memory fence, for example `Fence(WR);`.
    Fence(FenceType),
    /// `if (cond) { ... } else { ... }`.
    If(CondExpr, Vec<Statement>, Vec<Statement>),
    /// `while (cond) { ... }`.
    While(CondExpr, Vec<Statement>),
}

impl Clone for CondExpr {
    fn clone(&self) -> (r: Self)
        decreases self,
    {
        match self {
            CondExpr::Neg(e) => CondExpr::Neg(Box::new((**e).clone())),
            CondExpr::And(a, b) => CondExpr::And(Box::new((**a).clone()), Box::new((**b).clone())),
            CondExpr::Eq(a, b) => CondExpr::Eq(a.clone(), b.clone()),
            CondExpr::Leq(a, b) => CondExpr::Leq(a.clone(), b.clone()),
        }
    }
}

impl Clone for LogicExpr {
    fn clone(&self) -> (r: Self)
        decreases self,
    {
        match self {
            LogicExpr::Neg(e) => LogicExpr::Neg(Box::new((**e).clone())),
            LogicExpr::And(a, b) => LogicExpr::And(Box::new((**a).clone()), Box::new((**b).clone())),
            LogicExpr::Eq(a, b) => LogicExpr::Eq(a.clone(), b.clone()),
            LogicExpr::Leq(a, b) => LogicExpr::Leq(a.clone(), b.clone()),
        }
    }
}

impl Clone for Statement {
    fn clone(&self) -> (r: Self)
        decreases self,
    {
        match self {
            Statement::Assign(x, e) => Statement::Assign(x.clone(), e.clone()),
            Statement::Modify(x, e) => Statement::Modify(x.clone(), e.clone()),
            Statement::Fence(f) => Statement::Fence(*f),
            Statement::If(c, thn, els) => Statement::If(
                c.clone(),
                clone_statements(thn),
                clone_statements(els),
            ),
            Statement::While(c, body) => Statement::While(c.clone(), clone_statements(body)),
        }
    }
}

/// A copy of a list of statements, element by element.
fn clone_statements(v: &Vec<Statement>) -> (r: Vec<Statement>)
    ensures
        r@.len() == v@.len(),
    decreases v,
{
    let mut r: Vec<Statement> = Vec::new();
    let mut i: usize = 0;
    while i < v.len()
        invariant
            i <= v@.len(),
            r@.len() == i,
        decreases v@.len() - i,
    {
        proof {
            assert(decreases_to!(v => v@[i as int]));
        }
        r.push(v[i].clone());
        i += 1;
    }
    r
}

impl Statement {
    /// The statement that an `init` assignment stands for.
    pub fn from_init(value: Init) -> (r: Statement)
        ensures
            r == (match value {
                Init::Assign(name, expr) => Statement::Assign(name, expr),
            }),
    {
        match value {
            Init::Assign(name, expr) => Statement::Assign(name, expr),
        }
    }
}

/// A named thread and its statements, in source order.
#[derive(Debug, Clone, PartialEq, Eq)]
pub struct Thread {
    pub name: String,
    pub instructions: Vec<Statement>,
}

/// A program: initialisations, threads, the final assertion, and the names
/// of the global variables (every other variable is local to its thread).
#[derive(Debug, Clone)]
pub struct Program {
    pub init: Vec<Init>,
    pub threads: Vec<Thread>,
    pub assert: Vec<LogicExpr>,
    pub global_vars: Vec<Name>,
}

} // verus!
