//! Writing stack programs as text.

use super::expr::{stmts, Expr, Stmt};
use super::PietStackExecutor;
use crate::label_map::lookup;
use crate::integer::int_decimal;
use crate::label_map::{has_name, insert_by_number, lemma_sort_keeps_names, pairs_view, sort_by_number, sorted_by_number};
use crate::piet_interpreter::{append_chars, cmd_name, Op, CMD};
use crate::text::{chars_to_string, push_str, string_chars};
use vstd::prelude::*;

verus! {

/// The line a statement is written as (`Nop` is not written).
pub open spec fn stmt_text(s: Stmt) -> Seq<char> {
    match s {
        Stmt::Instr(Op::Nop) => seq![],
        Stmt::Instr(Op::Push(v)) => "push "@ + int_decimal(v) + seq!['\n'],
        Stmt::Instr(op) => cmd_name(op) + seq!['\n'],
        Stmt::Goto(l) => "goto "@ + l + seq!['\n'],
        Stmt::Branch(a, b) => "branch "@ + a + seq![' '] + b + seq!['\n'],
        Stmt::Debug => "debug"@ + seq!['\n'],
        Stmt::Comment(c) => "# "@ + c + seq!['\n'],
        Stmt::GotoStk => "goto_stk"@ + seq!['\n'],
    }
}

/// The lines of a block's statements.
pub open spec fn block_text(ss: Seq<Stmt>) -> Seq<char>
    decreases ss.len(),
{
    if ss.len() == 0 {
        seq![]
    } else {
        block_text(ss.drop_last()) + stmt_text(ss.last())
    }
}

/// The text of the blocks named in `order`, each as a `label` line followed
/// by its statements.
pub open spec fn listing_text(
    blocks: Seq<(Seq<char>, Vec<Expr>)>,
    order: Seq<(Seq<char>, usize)>,
) -> Seq<char>
    decreases order.len(),
{
    if order.len() == 0 {
        seq![]
    } else {
        let name = order.last().0;
        listing_text(blocks, order.drop_last()) + "label "@ + name + seq!['\n'] + block_text(
            stmts(lookup(blocks, name).unwrap()@),
        )
    }
}

/// Whether a statement can be written (the direction commands cannot).
pub open spec fn writable(s: Stmt) -> bool {
    !(s matches Stmt::Instr(Op::Pointer)) && !(s matches Stmt::Instr(Op::Switch))
}

impl PietStackExecutor {
    /// Whether every numbered block exists and no statement is a direction
    /// command.
    pub open spec fn printable(&self) -> bool {
        &&& self.wf()
        &&& forall|i: int|
            0 <= i < self.block_index.entries().len() ==> has_name(
                self.blocks.entries(),
                #[trigger] self.block_index.entries()[i].0,
            )
        &&& forall|i: int, j: int|
            0 <= i < self.blocks.entries().len() && 0 <= j < self.blocks.entries()[i].1@.len()
                ==> writable(#[trigger] self.blocks.entries()[i].1@[j]@)
    }

    /// Whether the program can be listed, as `printable` says.
    pub fn is_printable(&self) -> (r: bool)
        ensures
            r == self.printable(),
    {
        if !self.blocks.names_unique() || !self.block_index.names_unique() {
            return false;
        }
        let ghost ix = self.block_index.entries();
        let mut i: usize = 0;
        while i < self.block_index.len()
            invariant
                i <= ix.len(),
                ix == self.block_index.entries(),
                self.wf(),
                forall|k: int| 0 <= k < i ==> has_name(self.blocks.entries(), #[trigger] ix[k].0),
            decreases ix.len() - i,
        {
            if !self.blocks.contains_key(self.block_index.name_at(i).as_str()) {
                return false;
            }
            i = i + 1;
        }
        let ghost es = self.blocks.entries();
        let mut b: usize = 0;
        while b < self.blocks.len()
            invariant
                b <= es.len(),
                es == self.blocks.entries(),
                forall|x: int, y: int| 0 <= x < b && 0 <= y < es[x].1@.len() ==> writable(#[trigger] es[x].1@[y]@),
            decreases es.len() - b,
        {
            let body = self.blocks.value_at(b);
            let mut j: usize = 0;
            while j < body.len()
                invariant
                    j <= body@.len(),
                    b < es.len(),
                    es == self.blocks.entries(),
                    *body == es[b as int].1,
                    forall|y: int| 0 <= y < j ==> writable(#[trigger] es[b as int].1@[y]@),
                decreases body@.len() - j,
            {
                match &body[j] {
                    Expr::Instr(CMD::Pointer) => {
                        assert(!writable(es[b as int].1@[j as int]@));
                        return false;
                    },
                    Expr::Instr(CMD::Switch) => {
                        assert(!writable(es[b as int].1@[j as int]@));
                        return false;
                    },
                    _ => {},
                }
                j = j + 1;
            }
            b = b + 1;
        }
        true
    }

    /// The program as text: the blocks in order of their numbers.
    pub fn to_file_string(&self) -> (r: String)
        requires
            self.printable(),
        ensures
            r@ == listing_text(self.blocks.entries(), sort_by_number(self.block_index.entries())),
    {
        let order = sorted_by_number(self.block_index.pairs());
        let ghost blocks = self.blocks.entries();
        let ghost ord = pairs_view(order@);
        proof {
            lemma_sort_keeps_names(self.block_index.entries());
        }
        let mut out: Vec<char> = Vec::new();
        let mut i: usize = 0;
        while i < order.len()
            invariant
                self.printable(),
                blocks == self.blocks.entries(),
                ord == pairs_view(order@),
                ord == sort_by_number(self.block_index.entries()),
                forall|k: int| 0 <= k < ord.len() ==> has_name(blocks, #[trigger] ord[k].0),
                i <= order@.len(),
                out@ == listing_text(blocks, ord.take(i as int)),
            decreases order@.len() - i,
        {
            let name = &order[i].0;
            assert(has_name(blocks, ord[i as int].0));
            let bi = self.blocks.position(name.as_str()).unwrap();
            proof {
                let j = choose|j: int| 0 <= j < blocks.len() && #[trigger] blocks[j].0 == name@;
                assert(j == bi);
            }
            let body = self.blocks.value_at(bi);
            let ghost before = out@;
            push_str(&mut out, "label ");
            let cs = string_chars(name.as_str());
            append_chars(&mut out, &cs);
            out.push('\n');
            let ghost mid = out@;
            let mut j: usize = 0;
            while j < body.len()
                invariant
                    self.printable(),
                    blocks == self.blocks.entries(),
                    bi < blocks.len(),
                    *body == blocks[bi as int].1,
                    j <= body@.len(),
                    out@ == mid + block_text(stmts(body@).take(j as int)),
                decreases body@.len() - j,
            {
                assert(writable(blocks[bi as int].1@[j as int]@));
                write_stmt(&mut out, &body[j]);
                proof {
                    let t = stmts(body@).take(j + 1);
                    assert(t.drop_last() =~= stmts(body@).take(j as int));
                }
                j = j + 1;
            }
            proof {
                assert(stmts(body@).take(j as int) =~= stmts(body@));
                let t = ord.take(i + 1);
                assert(t.drop_last() =~= ord.take(i as int));
                assert(lookup(blocks, name@) == Some(*body));
            }
            i = i + 1;
        }
        assert(ord.take(i as int) =~= ord);
        chars_to_string(&out)
    }
}

/// Appends the line of one statement.
pub(crate) fn write_stmt(out: &mut Vec<char>, e: &Expr)
    requires
        writable(e@),
    ensures
        final(out)@ == old(out)@ + stmt_text(e@),
{
    match e {
        Expr::Instr(c) => {
            match c {
                crate::piet_interpreter::CMD::Nop => {
                    assert(old(out)@ + stmt_text(e@) =~= old(out)@);
                },
                crate::piet_interpreter::CMD::Push(v) => {
                    push_str(out, "push ");
                    let d = v.to_decimal_chars();
                    append_chars(out, &d);
                    out.push('\n');
                },
                _ => {
                    let name = c.copy().cmd_str();
                    let cs = string_chars(name.as_str());
                    append_chars(out, &cs);
                    out.push('\n');
                },
            }
        },
        Expr::Goto(l) => {
            push_str(out, "goto ");
            let cs = string_chars(l.as_str());
            append_chars(out, &cs);
            out.push('\n');
        },
        Expr::Branch(a, b) => {
            push_str(out, "branch ");
            let cs = string_chars(a.as_str());
            append_chars(out, &cs);
            out.push(' ');
            let cs2 = string_chars(b.as_str());
            append_chars(out, &cs2);
            out.push('\n');
        },
        Expr::Debug => {
            push_str(out, "debug");
            out.push('\n');
        },
        Expr::Comment(c) => {
            push_str(out, "# ");
            let cs = string_chars(c.as_str());
            append_chars(out, &cs);
            out.push('\n');
        },
        Expr::GotoStk => {
            push_str(out, "goto_stk");
            out.push('\n');
        },
    }
}



} // verus!
