//! Statements of stack programs.

use crate::piet_interpreter::{Op, CMD};
use vstd::prelude::*;

verus! {

/// A statement of a stack program.
pub enum Expr {
    /// A machine command.
    Instr(CMD),
    /// Continue at the start of the named block.
    Goto(String),
    /// Pop a value; continue at the first block if it is non-zero, at the
    /// second if it is zero.
    Branch(String, String),
    /// Write the stack to the diagnostic log.
    Debug,
    /// A remark with no effect.
    Comment(String),
    /// Pop a block number and continue at the start of that block.
    GotoStk,
}

/// A statement with names as character sequences and numbers as integers.
pub enum Stmt {
    Instr(Op),
    Goto(Seq<char>),
    Branch(Seq<char>, Seq<char>),
    Debug,
    Comment(Seq<char>),
    GotoStk,
}

impl View for Expr {
    type V = Stmt;

    open spec fn view(&self) -> Stmt {
        match self {
            Expr::Instr(c) => Stmt::Instr(c@),
            Expr::Goto(l) => Stmt::Goto(l@),
            Expr::Branch(a, b) => Stmt::Branch(a@, b@),
            Expr::Debug => Stmt::Debug,
            Expr::Comment(s) => Stmt::Comment(s@),
            Expr::GotoStk => Stmt::GotoStk,
        }
    }
}

/// The statements of a block as views.
pub open spec fn stmts(es: Seq<Expr>) -> Seq<Stmt> {
    es.map_values(|e: Expr| e@)
}

impl Expr {
    /// A copy of the statement.
    pub fn copy(&self) -> (r: Expr)
        ensures
            r@ == self@,
    {
        match self {
            Expr::Instr(c) => Expr::Instr(c.copy()),
            Expr::Goto(l) => Expr::Goto(l.clone()),
            Expr::Branch(a, b) => Expr::Branch(a.clone(), b.clone()),
            Expr::Debug => Expr::Debug,
            Expr::Comment(s) => Expr::Comment(s.clone()),
            Expr::GotoStk => Expr::GotoStk,
        }
    }
}

} // verus!
