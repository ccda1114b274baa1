//! The mid-level language: stack-machine commands plus named variables,
//! labels local to a library, and inclusion of libraries of code.

pub mod mid_smpl_to_file;
pub mod frame;
pub mod mid_smpl_to_stk;
pub mod parse;
pub mod read_back;

use crate::integer::Integer;
use crate::label_map::{entries_map, LabelMap};
use crate::piet_interpreter::{Op, CMD};
use vstd::prelude::*;

verus! {

/// A jump target: a label named in the text, or one made for a library's
/// local label.
pub enum Label {
    Name(String),
    Ref(String),
}

impl Label {
    /// The block name the label stands for.
    pub open spec fn name_of(self) -> Seq<char> {
        match self {
            Label::Name(n) => n@,
            Label::Ref(n) => n@,
        }
    }

    /// The block name the label stands for.
    pub fn get_label_name(self) -> (r: String)
        ensures
            r@ == self.name_of(),
    {
        match self {
            Label::Name(n) => n,
            Label::Ref(n) => n,
        }
    }

    /// A copy of the label.
    pub fn copy(&self) -> (r: Label)
        ensures
            r == *self,
    {
        match self {
            Label::Name(n) => Label::Name(n.clone()),
            Label::Ref(n) => Label::Ref(n.clone()),
        }
    }
}

/// A statement of the mid-level language.
pub enum Expr {
    Instr(CMD),
    Goto(Label),
    Branch(Label, Label),
    Debug,
    /// Pop a value into the named variable.
    SetVar(String),
    /// Push the value of the named variable.
    GetVar(String),
    Comment(String),
    /// A reference to a library by name.
    Lib(String),
    /// Pop a block number and continue at the start of that block.
    GotoStk,
}

/// A statement with names as character sequences.
pub enum MStmt {
    Instr(Op),
    Goto(Seq<char>),
    Branch(Seq<char>, Seq<char>),
    Debug,
    SetVar(Seq<char>),
    GetVar(Seq<char>),
    Comment(Seq<char>),
    Lib(Seq<char>),
    GotoStk,
}

impl View for Expr {
    type V = MStmt;

    open spec fn view(&self) -> MStmt {
        match self {
            Expr::Instr(c) => MStmt::Instr(c@),
            Expr::Goto(l) => MStmt::Goto(l.name_of()),
            Expr::Branch(a, b) => MStmt::Branch(a.name_of(), b.name_of()),
            Expr::Debug => MStmt::Debug,
            Expr::SetVar(v) => MStmt::SetVar(v@),
            Expr::GetVar(v) => MStmt::GetVar(v@),
            Expr::Comment(c) => MStmt::Comment(c@),
            Expr::Lib(l) => MStmt::Lib(l@),
            Expr::GotoStk => MStmt::GotoStk,
        }
    }
}

/// The statements of a block as views.
pub open spec fn mstmts(es: Seq<Expr>) -> Seq<MStmt> {
    es.map_values(|e: Expr| e@)
}

impl Expr {
    /// A copy of the statement.
    pub fn copy(&self) -> (r: Expr)
        ensures
            r@ == self@,
    {
        match self {
            Expr::Instr(c) => Expr::Instr(c.copy()),
            Expr::Goto(l) => Expr::Goto(l.copy()),
            Expr::Branch(a, b) => Expr::Branch(a.copy(), b.copy()),
            Expr::Debug => Expr::Debug,
            Expr::SetVar(v) => Expr::SetVar(v.clone()),
            Expr::GetVar(v) => Expr::GetVar(v.clone()),
            Expr::Comment(c) => Expr::Comment(c.clone()),
            Expr::Lib(l) => Expr::Lib(l.clone()),
            Expr::GotoStk => Expr::GotoStk,
        }
    }
}

/// The kind of a variable: a number, or a list (a heap address, `-1` when
/// unallocated).
#[derive(Copy, Clone, PartialEq, Eq, Debug, Structural)]
pub enum VariableType {
    NUM,
    LIST,
}

/// The value a fresh variable of a kind holds.
pub open spec fn initial_value_of(t: VariableType) -> int {
    match t {
        VariableType::NUM => 0,
        VariableType::LIST => -1,
    }
}

/// A declared variable: its kind, initial value and slot number.
pub struct Variable {
    pub var_type: VariableType,
    pub value: Integer,
    pub var_index: usize,
}

/// A variable with its value as an integer.
pub struct VarView {
    pub var_type: VariableType,
    pub value: int,
    pub var_index: usize,
}

impl View for Variable {
    type V = VarView;

    open spec fn view(&self) -> VarView {
        VarView { var_type: self.var_type, value: self.value@, var_index: self.var_index }
    }
}

impl Variable {
    /// A copy of the variable.
    pub fn copy(&self) -> (r: Variable)
        ensures
            r@ == self@,
    {
        Variable { var_type: self.var_type, value: self.value.copy(), var_index: self.var_index }
    }
}

impl VariableType {
    /// The value a fresh variable of this kind holds: 0 for a number, -1
    /// for a list.
    pub fn initial_value(self) -> (r: Integer)
        ensures
            r@ == initial_value_of(self),
    {
        match self {
            VariableType::NUM => Integer::from_i64(0),
            VariableType::LIST => Integer::from_i64(-1),
        }
    }

    /// A fresh variable of this kind in slot `var_index`.
    pub fn initialize_var(self, var_index: usize) -> (r: Variable)
        ensures
            r@ == (VarView { var_type: self, value: initial_value_of(self), var_index }),
    {
        Variable { var_type: self, value: self.initial_value(), var_index }
    }
}

/// A mid-level program as read from text.
pub struct SmplExecutor {
    pub blocks: LabelMap<Vec<Expr>>,
    pub block_index: LabelMap<usize>,
    pub variables: LabelMap<Variable>,
    pub stack: Vec<Integer>,
    pub label: String,
    pub registers: usize,
    pub imports: LabelMap<String>,
    pub label_map: LabelMap<String>,
    pub label_count: usize,
}

/// The view of a block's statements.
pub open spec fn body_view() -> spec_fn(Vec<Expr>) -> Seq<MStmt> {
    |b: Vec<Expr>| mstmts(b@)
}

/// Blocks with their statements as views.
pub open spec fn mblock_views(es: Seq<(Seq<char>, Vec<Expr>)>) -> Seq<(Seq<char>, Seq<MStmt>)> {
    entries_map(es, body_view())
}

/// The view of a variable.
pub open spec fn variable_view() -> spec_fn(Variable) -> VarView {
    |v: Variable| v@
}

/// Variables as views.
pub open spec fn var_views(es: Seq<(Seq<char>, Variable)>) -> Seq<(Seq<char>, VarView)> {
    entries_map(es, variable_view())
}

/// The view of a text.
pub open spec fn string_view() -> spec_fn(String) -> Seq<char> {
    |t: String| t@
}

/// Texts as character sequences.
pub open spec fn text_views(es: Seq<(Seq<char>, String)>) -> Seq<(Seq<char>, Seq<char>)> {
    entries_map(es, string_view())
}

} // verus!
