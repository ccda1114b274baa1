//! Writing mid-level programs as text, in the form the reader accepts.

use super::mid_smpl_to_stk::{main_label, var_slots};
use super::{
    body_view, mblock_views, mstmts, string_view, text_views, var_views, variable_view, Expr, MStmt,
    SmplExecutor, VarView, VariableType,
};
use crate::label_map::{
    has_name, lemma_entries_map_lookup, lemma_entries_map_names, lemma_sort_keeps_names, lookup,
    pairs_view, sort_by_number, sorted_by_number, text_eq,
};
use crate::piet_interpreter::{append_chars, Op, CMD};
use crate::piet_stack::expr::{Expr as StkExpr, Stmt};
use crate::piet_stack::stk_to_file::{stmt_text, write_stmt};
use crate::piet_stack::term_label;
use crate::text::{chars_to_string, push_str, string_chars};
use vstd::prelude::*;

verus! {

/// The line a statement is written as (`Nop` is not written).
pub open spec fn mstmt_text(s: MStmt) -> Seq<char> {
    match s {
        MStmt::Instr(op) => stmt_text(Stmt::Instr(op)),
        MStmt::Goto(l) => stmt_text(Stmt::Goto(l)),
        MStmt::Branch(a, b) => stmt_text(Stmt::Branch(a, b)),
        MStmt::Debug => stmt_text(Stmt::Debug),
        MStmt::Comment(c) => stmt_text(Stmt::Comment(c)),
        MStmt::SetVar(x) => "set "@ + x + seq!['\n'],
        MStmt::GetVar(x) => "get "@ + x + seq!['\n'],
        MStmt::Lib(x) => "lib_"@ + x + seq!['\n'],
        MStmt::GotoStk => stmt_text(Stmt::GotoStk),
    }
}

/// The lines of a block's statements.
pub open spec fn mblock_text(ss: Seq<MStmt>) -> Seq<char>
    decreases ss.len(),
{
    if ss.len() == 0 {
        seq![]
    } else {
        mblock_text(ss.drop_last()) + mstmt_text(ss.last())
    }
}

/// A `use NAME PATH` line for each import.
pub open spec fn imports_text(es: Seq<(Seq<char>, Seq<char>)>) -> Seq<char>
    decreases es.len(),
{
    if es.len() == 0 {
        seq![]
    } else {
        imports_text(es.drop_last()) + "use "@ + es.last().0 + seq![' '] + es.last().1 + seq!['\n']
    }
}

/// The word for a kind of variable.
pub open spec fn type_word(t: VariableType) -> Seq<char> {
    match t {
        VariableType::NUM => "num"@,
        VariableType::LIST => "list"@,
    }
}

/// A `var NAME KIND` line for each variable of `order` that is no register.
pub open spec fn vars_text(
    order: Seq<(Seq<char>, usize)>,
    vars: Seq<(Seq<char>, VarView)>,
    registers: usize,
) -> Seq<char>
    decreases order.len(),
{
    if order.len() == 0 {
        seq![]
    } else {
        let (n, slot) = order.last();
        vars_text(order.drop_last(), vars, registers) + if slot < registers {
            seq![]
        } else {
            match lookup(vars, n) {
                Some(v) => "var "@ + n + seq![' '] + type_word(v.var_type) + seq!['\n'],
                None => seq![],
            }
        }
    }
}

/// The blocks of `order` but `term`: a `label` line (none for `main`), the
/// statements, and a blank line.
pub open spec fn blocks_text(bv: Seq<(Seq<char>, Seq<MStmt>)>, order: Seq<(Seq<char>, usize)>) -> Seq<char>
    decreases order.len(),
{
    if order.len() == 0 {
        seq![]
    } else {
        let n = order.last().0;
        blocks_text(bv, order.drop_last()) + if n == term_label() {
            seq![]
        } else {
            (if n == main_label() {
                seq![]
            } else {
                "label "@ + n + seq!['\n']
            }) + mblock_text(lookup(bv, n).unwrap()) + seq!['\n']
        }
    }
}

/// Whether a statement can be written (the direction commands cannot).
pub open spec fn mwritable(s: MStmt) -> bool {
    !(s matches MStmt::Instr(Op::Pointer)) && !(s matches MStmt::Instr(Op::Switch))
}

impl SmplExecutor {
    /// The program's text: its imports, its variables (registers left out)
    /// in slot order, and its blocks (`term` left out) in number order.
    pub open spec fn text(self) -> Seq<char> {
        let vars = var_views(self.variables.entries());
        imports_text(text_views(self.imports.entries())) + seq!['\n'] + vars_text(
            sort_by_number(var_slots(vars)),
            vars,
            self.registers,
        ) + seq!['\n'] + blocks_text(mblock_views(self.blocks.entries()), sort_by_number(self.block_index.entries()))
    }

    /// Whether the program can be written: its maps have distinct names,
    /// every numbered block exists, and no statement is a direction command.
    pub open spec fn printable(self) -> bool {
        let bv = mblock_views(self.blocks.entries());
        &&& self.blocks.wf()
        &&& self.variables.wf()
        &&& forall|i: int|
            0 <= i < self.block_index.entries().len() ==> has_name(bv, #[trigger] self.block_index.entries()[i].0)
        &&& forall|i: int, j: int| 0 <= i < bv.len() && 0 <= j < bv[i].1.len() ==> mwritable(#[trigger] bv[i].1[j])
    }

    /// Whether the program can be written, as `printable` says.
    pub fn is_printable(&self) -> (r: bool)
        ensures
            r == self.printable(),
    {
        if !self.blocks.names_unique() || !self.variables.names_unique() {
            return false;
        }
        let ghost es = self.blocks.entries();
        let ghost bv = mblock_views(es);
        proof {
            lemma_entries_map_names(es, body_view());
        }
        let ghost ix = self.block_index.entries();
        let mut i: usize = 0;
        while i < self.block_index.len()
            invariant
                i <= ix.len(),
                ix == self.block_index.entries(),
                es == self.blocks.entries(),
                bv == mblock_views(es),
                forall|k: Seq<char>| has_name(bv, k) <==> #[trigger] has_name(es, k),
                forall|k: int| 0 <= k < i ==> has_name(bv, #[trigger] ix[k].0),
            decreases ix.len() - i,
        {
            if !self.blocks.contains_key(self.block_index.name_at(i).as_str()) {
                return false;
            }
            i = i + 1;
        }
        let mut b: usize = 0;
        while b < self.blocks.len()
            invariant
                b <= es.len(),
                es == self.blocks.entries(),
                bv == mblock_views(es),
                bv.len() == es.len(),
                forall|k: int| 0 <= k < es.len() ==> #[trigger] bv[k] == (es[k].0, mstmts(es[k].1@)),
                forall|x: int, y: int| 0 <= x < b && 0 <= y < bv[x].1.len() ==> mwritable(#[trigger] bv[x].1[y]),
            decreases es.len() - b,
        {
            let body = self.blocks.value_at(b);
            let mut j: usize = 0;
            while j < body.len()
                invariant
                    j <= body@.len(),
                    *body == es[b as int].1,
                    b < es.len(),
                    es == self.blocks.entries(),
                    bv == mblock_views(es),
                    bv[b as int] == (es[b as int].0, mstmts(body@)),
                    forall|y: int| 0 <= y < j ==> mwritable(#[trigger] bv[b as int].1[y]),
                decreases body@.len() - j,
            {
                match &body[j] {
                    Expr::Instr(CMD::Pointer) => {
                        assert(!mwritable(bv[b as int].1[j as int]));
                        return false;
                    },
                    Expr::Instr(CMD::Switch) => {
                        assert(!mwritable(bv[b as int].1[j as int]));
                        return false;
                    },
                    _ => {},
                }
                j = j + 1;
            }
            b = b + 1;
        }
        true
    }

    /// The program as text, as `text` says.
    pub fn to_file_string(&self) -> (r: String)
        requires
            self.printable(),
        ensures
            r@ == self.text(),
    {
        let mut out: Vec<char> = Vec::new();
        let ghost iv = text_views(self.imports.entries());
        let mut i: usize = 0;
        while i < self.imports.len()
            invariant
                iv == text_views(self.imports.entries()),
                iv.len() == self.imports.entries().len(),
                forall|k: int| 0 <= k < iv.len() ==> #[trigger] iv[k] == (self.imports.entries()[k].0, self.imports.entries()[k].1@),
                i <= iv.len(),
                out@ == imports_text(iv.take(i as int)),
            decreases iv.len() - i,
        {
            push_str(&mut out, "use ");
            append_chars(&mut out, &string_chars(self.imports.name_at(i).as_str()));
            out.push(' ');
            append_chars(&mut out, &string_chars(self.imports.value_at(i).as_str()));
            out.push('\n');
            proof {
                assert(iv.take(i + 1).drop_last() =~= iv.take(i as int));
            }
            i = i + 1;
        }
        assert(iv.take(i as int) =~= iv);
        out.push('\n');
        self.write_vars(&mut out);
        out.push('\n');
        self.write_blocks(&mut out);
        chars_to_string(&out)
    }

    /// Appends the `var` lines.
    fn write_vars(&self, out: &mut Vec<char>)
        requires
            self.variables.wf(),
        ensures
            ({
                let vars = var_views(self.variables.entries());
                final(out)@ == old(out)@ + vars_text(sort_by_number(var_slots(vars)), vars, self.registers)
            }),
    {
        proof {
            reveal_strlit("num");
            reveal_strlit("list");
        }
        let ghost vars = var_views(self.variables.entries());
        proof {
            lemma_entries_map_names(self.variables.entries(), variable_view());
        }
        let mut slots: Vec<(String, usize)> = Vec::new();
        let mut i: usize = 0;
        while i < self.variables.len()
            invariant
                i <= self.variables.entries().len(),
                vars == var_views(self.variables.entries()),
                vars.len() == self.variables.entries().len(),
                forall|k: int| 0 <= k < self.variables.entries().len() ==> #[trigger] vars[k] == (self.variables.entries()[k].0, self.variables.entries()[k].1@),
                pairs_view(slots@) == var_slots(vars).take(i as int),
            decreases self.variables.entries().len() - i,
        {
            let ghost s0 = slots@;
            let name = self.variables.name_at(i).clone();
            let slot = self.variables.value_at(i).var_index;
            slots.push((name, slot));
            proof {
                assert(pairs_view(slots@) =~= pairs_view(s0).push((name@, slot)));
                assert(var_slots(vars)[i as int] == (name@, slot));
                assert(pairs_view(slots@) =~= var_slots(vars).take(i + 1));
            }
            i = i + 1;
        }
        assert(var_slots(vars).take(i as int) =~= var_slots(vars));
        let sorted = sorted_by_number(slots);
        let ghost order = pairs_view(sorted@);
        let ghost start = out@;
        let mut j: usize = 0;
        while j < sorted.len()
            invariant
                j <= order.len(),
                order.len() == sorted@.len(),
                order == pairs_view(sorted@),
                vars == var_views(self.variables.entries()),
                self.variables.wf(),
                out@ == start + vars_text(order.take(j as int), vars, self.registers),
            decreases order.len() - j,
        {
            proof {
                reveal_strlit("num");
                reveal_strlit("list");
                assert(order.take(j + 1).drop_last() =~= order.take(j as int));
                assert(order.take(j + 1).last() == order[j as int]);
            }
            let name = &sorted[j].0;
            let slot = sorted[j].1;
            if slot >= self.registers {
                proof {
                    lemma_entries_map_lookup(self.variables.entries(), name@, variable_view());
                }
                match self.variables.get(name.as_str()) {
                    Some(v) => {
                        push_str(out, "var ");
                        append_chars(out, &string_chars(name.as_str()));
                        out.push(' ');
                        match v.var_type {
                            VariableType::NUM => push_str(out, "num"),
                            VariableType::LIST => push_str(out, "list"),
                        }
                        out.push('\n');
                    },
                    None => {},
                }
            }
            j = j + 1;
        }
        assert(order.take(j as int) =~= order);
    }

    /// Appends the blocks.
    fn write_blocks(&self, out: &mut Vec<char>)
        requires
            self.printable(),
        ensures
            final(out)@ == old(out)@ + blocks_text(
                mblock_views(self.blocks.entries()),
                sort_by_number(self.block_index.entries()),
            ),
    {
        let ghost bv = mblock_views(self.blocks.entries());
        let ghost idx = self.block_index.entries();
        let order = sorted_by_number(self.block_index.pairs());
        let ghost ov = pairs_view(order@);
        proof {
            lemma_sort_keeps_names(idx);
            lemma_entries_map_names(self.blocks.entries(), body_view());
        }
        let ghost start = out@;
        let mut k: usize = 0;
        while k < order.len()
            invariant
                k <= order@.len(),
                ov == pairs_view(order@),
                ov == sort_by_number(idx),
                idx == self.block_index.entries(),
                bv == mblock_views(self.blocks.entries()),
                forall|i: int| 0 <= i < ov.len() ==> has_name(idx, #[trigger] ov[i].0),
                forall|n: Seq<char>| has_name(bv, n) <==> #[trigger] has_name(self.blocks.entries(), n),
                self.printable(),
                out@ == start + blocks_text(bv, ov.take(k as int)),
            decreases order@.len() - k,
        {
            proof {
                reveal_strlit("main");
                reveal_strlit("term");
                assert(ov.take(k + 1).drop_last() =~= ov.take(k as int));
                assert(ov.take(k + 1).last() == ov[k as int]);
            }
            let name = &order[k].0;
            assert(name@ == ov[k as int].0);
            if text_eq(name.as_str(), "term") {
                assert(name@ =~= term_label());
            } else {
                proof {
                    assert("term"@ =~= term_label());
                    assert(name@ != term_label());
                    assert(has_name(idx, name@));
                    let i = choose|i: int| 0 <= i < idx.len() && #[trigger] idx[i].0 == name@;
                    assert(has_name(bv, idx[i].0));
                    lemma_entries_map_lookup(self.blocks.entries(), name@, body_view());
                }
                if text_eq(name.as_str(), "main") {
                    assert(name@ =~= main_label());
                } else {
                    assert("main"@ =~= main_label());
                    assert(name@ != main_label());
                    push_str(out, "label ");
                    append_chars(out, &string_chars(name.as_str()));
                    out.push('\n');
                }
                let body = self.blocks.get(name.as_str()).unwrap();
                let ghost mid = out@;
                let ghost bi = choose|i: int| 0 <= i < bv.len() && #[trigger] bv[i].0 == name@;
                proof {
                    assert(lookup(bv, name@) == Some(bv[bi].1));
                    assert(bv[bi].1 == mstmts(body@));
                }
                let mut j: usize = 0;
                while j < body.len()
                    invariant
                        self.printable(),
                        bv == mblock_views(self.blocks.entries()),
                        0 <= bi < bv.len(),
                        bv[bi].1 == mstmts(body@),
                        j <= body@.len(),
                        out@ == mid + mblock_text(mstmts(body@).take(j as int)),
                    decreases body@.len() - j,
                {
                    assert(bv[bi].1[j as int] == body@[j as int]@);
                    assert(mwritable(body@[j as int]@));
                    write_mstmt(out, &body[j]);
                    proof {
                        let t = mstmts(body@).take(j + 1);
                        assert(t.drop_last() =~= mstmts(body@).take(j as int));
                    }
                    j = j + 1;
                }
                assert(mstmts(body@).take(j as int) =~= mstmts(body@));
                out.push('\n');
            }
            k = k + 1;
        }
        assert(ov.take(k as int) =~= ov);
    }
}

/// Appends the line of one statement.
fn write_mstmt(out: &mut Vec<char>, e: &Expr)
    requires
        mwritable(e@),
    ensures
        final(out)@ == old(out)@ + mstmt_text(e@),
{
    match e {
        Expr::Instr(c) => write_stmt(out, &StkExpr::Instr(c.copy())),
        Expr::Goto(l) => write_stmt(out, &StkExpr::Goto(l.copy().get_label_name())),
        Expr::Branch(a, b) => write_stmt(out, &StkExpr::Branch(a.copy().get_label_name(), b.copy().get_label_name())),
        Expr::Debug => write_stmt(out, &StkExpr::Debug),
        Expr::Comment(c) => write_stmt(out, &StkExpr::Comment(c.clone())),
        Expr::SetVar(x) => {
            push_str(out, "set ");
            append_chars(out, &string_chars(x.as_str()));
            out.push('\n');
        },
        Expr::GetVar(x) => {
            push_str(out, "get ");
            append_chars(out, &string_chars(x.as_str()));
            out.push('\n');
        },
        Expr::Lib(x) => {
            push_str(out, "lib_");
            append_chars(out, &string_chars(x.as_str()));
            out.push('\n');
        },
        Expr::GotoStk => write_stmt(out, &StkExpr::GotoStk),
    }
}

} // verus!
