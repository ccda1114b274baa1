//! Translation of mid-level programs into stack programs. Variables live in
//! a frame at the bottom of the stack; the value on top of the stack is the
//! number of values above the frame, so that a variable can be found by
//! depth.

use super::{body_view, mblock_views, mstmts, var_views, variable_view, Expr, MStmt, SmplExecutor, VarView, Variable};
use crate::integer::Integer;
use crate::label_map::{
    entries_insert, has_name, lemma_entries_map_insert, lemma_entries_map_lookup,
    lemma_entries_map_names, lemma_insert_shape, lemma_sort_keeps_names, lookup, pairs_view,
    sort_by_number, sorted_by_number, text_eq, LabelMap,
};
use crate::piet_interpreter::{Op, CMD};
use crate::piet_stack::expr::{stmts, Expr as StkExpr, Stmt};
use crate::piet_stack::parse::{block_views, stmts_view};
use crate::piet_stack::{term_label, PietStackExecutor};
use vstd::prelude::*;

verus! {

/// What `{:?}` writes for a text: the text between double quotes, with
/// quotes, backslashes and unprintable characters escaped.
pub uninterp spec fn debug_quoted(s: Seq<char>) -> Seq<char>;

/// `{:?}` of a text, computed by `str`'s `Debug`.
#[verifier::external_body]
pub(crate) fn debug_text(s: &str) -> (r: String)
    ensures
        r@ == debug_quoted(s@),
{
    format!("{:?}", s)
}

/// A machine command as a statement.
pub open spec fn cmd(o: Op) -> Stmt {
    Stmt::Instr(o)
}

/// Swaps the two top values.
pub open spec fn swap_code() -> Seq<Stmt> {
    seq![cmd(Op::Push(2)), cmd(Op::Push(1)), cmd(Op::Roll)]
}

/// With a depth `d` on top, copies the value `d` below it to the top,
/// leaving `d + 1` under the copy.
pub open spec fn dup_at_depth_code() -> Seq<Stmt> {
    seq![
        cmd(Op::Dup), cmd(Op::Push(1)), cmd(Op::Add),
        cmd(Op::Push(-1)), cmd(Op::Roll),
        cmd(Op::Dup), cmd(Op::Push(3)), cmd(Op::Push(-1)), cmd(Op::Roll),
        cmd(Op::Push(1)), cmd(Op::Add), cmd(Op::Push(1)), cmd(Op::Roll),
    ]
}

/// With a value and a depth `d` on top, exchanges the value with the one
/// `d` below.
pub open spec fn swap_at_depth_code() -> Seq<Stmt> {
    seq![
        cmd(Op::Dup), cmd(Op::Push(1)), cmd(Op::Add),
        cmd(Op::Push(-1)), cmd(Op::Roll),
        cmd(Op::Push(3)), cmd(Op::Push(1)), cmd(Op::Roll),
        cmd(Op::Push(1)), cmd(Op::Roll),
    ]
}

/// Pushes a fresh variable holding `v` into the bottom of the frame and
/// counts it.
pub open spec fn add_var_code(v: int) -> Seq<Stmt> {
    seq![cmd(Op::Push(v))] + swap_code() + seq![
        cmd(Op::Push(1)), cmd(Op::Add), cmd(Op::Dup),
        cmd(Op::Push(3)), cmd(Op::Push(1)), cmd(Op::Roll),
        cmd(Op::Push(1)), cmd(Op::Roll),
    ]
}

/// Computes the depth of the variable in slot `slot`.
pub open spec fn depth_code(slot: int) -> Seq<Stmt> {
    seq![cmd(Op::Push(slot + 1))] + swap_code() + seq![
        cmd(Op::Dup), cmd(Op::Push(3)), cmd(Op::Push(1)), cmd(Op::Roll),
    ] + swap_code() + seq![cmd(Op::Sub), cmd(Op::Push(1)), cmd(Op::Add)]
}

/// Pops the top value into the variable in slot `slot`; `name` is the
/// variable's name as `{:?}` writes it.
pub open spec fn set_code(slot: int, name: Seq<char>) -> Seq<Stmt> {
    let note = Stmt::Comment(seq!['-'] + name);
    seq![note] + depth_code(slot) + seq![cmd(Op::Push(3)), cmd(Op::Push(-1)), cmd(Op::Roll)]
        + swap_code() + swap_at_depth_code() + seq![
        cmd(Op::Pop), cmd(Op::Push(1)), cmd(Op::Sub), note,
    ]
}

/// Pushes the value of the variable in slot `slot`.
pub open spec fn get_code(slot: int, name: Seq<char>) -> Seq<Stmt> {
    seq![Stmt::Comment(seq!['+'] + name)] + depth_code(slot) + dup_at_depth_code() + swap_code()
        + seq![cmd(Op::Push(1)), cmd(Op::Add), Stmt::Comment(seq!['-'] + name)]
}

/// The stack statements for one mid-level statement.
pub open spec fn lower_stmt(vars: Seq<(Seq<char>, VarView)>, s: MStmt) -> Seq<Stmt> {
    match s {
        MStmt::Instr(c) => seq![Stmt::Instr(c)],
        MStmt::Goto(l) => seq![Stmt::Goto(l)],
        MStmt::Branch(a, b) => seq![Stmt::Branch(a, b)],
        MStmt::Debug => seq![Stmt::Debug],
        MStmt::Comment(c) => seq![Stmt::Comment(c)],
        MStmt::SetVar(v) => set_code(lookup(vars, v).unwrap().var_index as int, debug_quoted(v)),
        MStmt::GetVar(v) => get_code(lookup(vars, v).unwrap().var_index as int, debug_quoted(v)),
        MStmt::Lib(_) => seq![],
        MStmt::GotoStk => seq![Stmt::GotoStk],
    }
}

/// The stack statements for a block's statements, in order.
pub open spec fn lower_body(vars: Seq<(Seq<char>, VarView)>, ss: Seq<MStmt>) -> Seq<Stmt>
    decreases ss.len(),
{
    if ss.len() == 0 {
        seq![]
    } else {
        lower_body(vars, ss.drop_last()) + lower_stmt(vars, ss.last())
    }
}

/// The variables' names with their slots.
pub open spec fn var_slots(vars: Seq<(Seq<char>, VarView)>) -> Seq<(Seq<char>, usize)> {
    vars.map_values(|e: (Seq<char>, VarView)| (e.0, e.1.var_index))
}

/// The frame set-up for the first `j` variables of `order`, last first.
pub open spec fn frame_code(order: Seq<(Seq<char>, usize)>, vars: Seq<(Seq<char>, VarView)>, j: nat) -> Seq<Stmt>
    decreases j,
{
    if j == 0 || j > order.len() {
        seq![]
    } else {
        (match lookup(vars, order[j - 1].0) {
            Some(v) => add_var_code(v.value),
            None => seq![],
        }) + frame_code(order, vars, (j - 1) as nat)
    }
}

/// The code that starts block `main`: the empty frame count, then every
/// variable, highest slot first.
pub open spec fn prologue(vars: Seq<(Seq<char>, VarView)>) -> Seq<Stmt> {
    let order = sort_by_number(var_slots(vars));
    seq![cmd(Op::Push(0)), cmd(Op::Push(1))] + frame_code(order, vars, order.len())
}

/// Progress of laying out the lowered blocks: the blocks finished so
/// far, their numbers, the block being filled and its code, and the next
/// block number.
pub struct StkLayout {
    pub blocks: Seq<(Seq<char>, Seq<Stmt>)>,
    pub index: Seq<(Seq<char>, usize)>,
    pub current: Seq<char>,
    pub body: Seq<Stmt>,
    pub next: nat,
}

/// The name `main`.
pub open spec fn main_label() -> Seq<char> {
    seq!['m', 'a', 'i', 'n']
}

/// The layout after the block named `x`: `term` is skipped; the code of
/// `main` goes on in the block being filled; any other block is started
/// afresh with the next number.
pub open spec fn layout_step(
    st: StkLayout,
    x: Seq<char>,
    bv: Seq<(Seq<char>, Seq<MStmt>)>,
    vars: Seq<(Seq<char>, VarView)>,
) -> StkLayout {
    if x == term_label() {
        st
    } else {
        let code = lower_body(vars, lookup(bv, x).unwrap());
        if x == main_label() {
            StkLayout { body: st.body + code, ..st }
        } else {
            StkLayout {
                blocks: entries_insert(entries_insert(st.blocks, st.current, st.body), x, seq![]),
                index: entries_insert(st.index, x, st.next as usize),
                current: x,
                body: code,
                next: st.next + 1,
            }
        }
    }
}

/// The layout after the blocks of `order`, in order.
pub open spec fn layout_blocks(
    order: Seq<(Seq<char>, usize)>,
    bv: Seq<(Seq<char>, Seq<MStmt>)>,
    vars: Seq<(Seq<char>, VarView)>,
    init: StkLayout,
) -> StkLayout
    decreases order.len(),
{
    if order.len() == 0 {
        init
    } else {
        layout_step(layout_blocks(order.drop_last(), bv, vars, init), order.last().0, bv, vars)
    }
}

/// The stack program for a mid-level program with blocks `bv`, block
/// numbers `idx` and variables `vars`: block `main` (number 0) starts with
/// the frame set-up, the blocks follow in the order of their numbers with
/// their statements lowered, and an empty block `term` comes last.
pub open spec fn stk_program_of(
    bv: Seq<(Seq<char>, Seq<MStmt>)>,
    idx: Seq<(Seq<char>, usize)>,
    vars: Seq<(Seq<char>, VarView)>,
) -> (Seq<(Seq<char>, Seq<Stmt>)>, Seq<(Seq<char>, usize)>) {
    let init = StkLayout {
        blocks: seq![(main_label(), seq![])],
        index: seq![(main_label(), 0usize)],
        current: main_label(),
        body: prologue(vars),
        next: 1,
    };
    let st = layout_blocks(sort_by_number(idx), bv, vars, init);
    (
        entries_insert(entries_insert(st.blocks, st.current, st.body), term_label(), seq![]),
        entries_insert(st.index, term_label(), st.next as usize),
    )
}

/// Whether a statement can be lowered: its variable is declared, and it
/// is no library reference.
pub open spec fn stmt_lowerable(vars: Seq<(Seq<char>, VarView)>, s: MStmt) -> bool {
    match s {
        MStmt::SetVar(v) => has_name(vars, v),
        MStmt::GetVar(v) => has_name(vars, v),
        MStmt::Lib(_) => false,
        _ => true,
    }
}

/// Whether a program can be lowered: every numbered block exists, every
/// statement of every block can be lowered, and block numbers leave room
/// to count.
pub open spec fn lowerable(ex: SmplExecutor) -> bool {
    let bv = mblock_views(ex.blocks.entries());
    let vars = var_views(ex.variables.entries());
    &&& ex.blocks.wf()
    &&& ex.block_index.wf()
    &&& ex.variables.wf()
    &&& ex.block_index.entries().len() < usize::MAX
    &&& forall|i: int|
        0 <= i < ex.block_index.entries().len() ==> has_name(bv, #[trigger] ex.block_index.entries()[i].0)
    &&& forall|i: int, j: int|
        0 <= i < bv.len() && 0 <= j < bv[i].1.len() ==> stmt_lowerable(vars, #[trigger] bv[i].1[j])
}

/// Appends a machine command.
fn emit(out: &mut Vec<StkExpr>, c: CMD)
    ensures
        stmts(final(out)@) == stmts(old(out)@).push(Stmt::Instr(c@)),
{
    let ghost o = c@;
    out.push(StkExpr::Instr(c));
    assert(stmts(out@) =~= stmts(old(out)@).push(Stmt::Instr(o)));
}

/// Appends a `push` of `v`.
fn emit_push(out: &mut Vec<StkExpr>, v: i64)
    ensures
        stmts(final(out)@) == stmts(old(out)@).push(Stmt::Instr(Op::Push(v as int))),
{
    emit(out, CMD::Push(Integer::from_i64(v)));
}

/// Appends any statement.
fn emit_stmt(out: &mut Vec<StkExpr>, e: StkExpr)
    ensures
        stmts(final(out)@) == stmts(old(out)@).push(e@),
{
    let ghost s = e@;
    out.push(e);
    assert(stmts(out@) =~= stmts(old(out)@).push(s));
}

/// Appends `swap_code`.
fn emit_swap(out: &mut Vec<StkExpr>)
    ensures
        stmts(final(out)@) == stmts(old(out)@) + swap_code(),
{
    emit_push(out, 2);
    emit_push(out, 1);
    emit(out, CMD::Roll);
    assert(stmts(out@) =~= stmts(old(out)@) + swap_code());
}

/// Appends `dup_at_depth_code`.
fn emit_dup_at_depth(out: &mut Vec<StkExpr>)
    ensures
        stmts(final(out)@) == stmts(old(out)@) + dup_at_depth_code(),
{
    emit(out, CMD::Dup);
    emit_push(out, 1);
    emit(out, CMD::Add);
    emit_push(out, -1);
    emit(out, CMD::Roll);
    emit(out, CMD::Dup);
    emit_push(out, 3);
    emit_push(out, -1);
    emit(out, CMD::Roll);
    emit_push(out, 1);
    emit(out, CMD::Add);
    emit_push(out, 1);
    emit(out, CMD::Roll);
    assert(stmts(out@) =~= stmts(old(out)@) + dup_at_depth_code());
}

/// Appends `swap_at_depth_code`.
fn emit_swap_at_depth(out: &mut Vec<StkExpr>)
    ensures
        stmts(final(out)@) == stmts(old(out)@) + swap_at_depth_code(),
{
    emit(out, CMD::Dup);
    emit_push(out, 1);
    emit(out, CMD::Add);
    emit_push(out, -1);
    emit(out, CMD::Roll);
    emit_push(out, 3);
    emit_push(out, 1);
    emit(out, CMD::Roll);
    emit_push(out, 1);
    emit(out, CMD::Roll);
    assert(stmts(out@) =~= stmts(old(out)@) + swap_at_depth_code());
}

/// Appends `add_var_code(v)`.
fn emit_add_var(out: &mut Vec<StkExpr>, v: &Integer)
    ensures
        stmts(final(out)@) == stmts(old(out)@) + add_var_code(v@),
{
    emit(out, CMD::Push(v.copy()));
    emit_swap(out);
    emit_push(out, 1);
    emit(out, CMD::Add);
    emit(out, CMD::Dup);
    emit_push(out, 3);
    emit_push(out, 1);
    emit(out, CMD::Roll);
    emit_push(out, 1);
    emit(out, CMD::Roll);
    assert(stmts(out@) =~= stmts(old(out)@) + add_var_code(v@));
}

/// Appends `depth_code(slot)`.
fn emit_depth(out: &mut Vec<StkExpr>, slot: usize)
    ensures
        stmts(final(out)@) == stmts(old(out)@) + depth_code(slot as int),
{
    let one = Integer::from_i64(1);
    let s = Integer::from_usize(slot).add(&one);
    emit(out, CMD::Push(s));
    emit_swap(out);
    emit(out, CMD::Dup);
    emit_push(out, 3);
    emit_push(out, 1);
    emit(out, CMD::Roll);
    emit_swap(out);
    emit(out, CMD::Sub);
    emit_push(out, 1);
    emit(out, CMD::Add);
    assert(stmts(out@) =~= stmts(old(out)@) + depth_code(slot as int));
}

/// Appends `set_code(slot, name@)`.
fn emit_set(out: &mut Vec<StkExpr>, slot: usize, name: &String)
    ensures
        stmts(final(out)@) == stmts(old(out)@) + set_code(slot as int, name@),
{
    let mut note: Vec<char> = Vec::new();
    note.push('-');
    crate::text::push_str(&mut note, name.as_str());
    let note_text = crate::text::chars_to_string(&note);
    emit_stmt(out, StkExpr::Comment(note_text.clone()));
    emit_depth(out, slot);
    emit_push(out, 3);
    emit_push(out, -1);
    emit(out, CMD::Roll);
    emit_swap(out);
    emit_swap_at_depth(out);
    emit(out, CMD::Pop);
    emit_push(out, 1);
    emit(out, CMD::Sub);
    emit_stmt(out, StkExpr::Comment(note_text));
    assert(stmts(out@) =~= stmts(old(out)@) + set_code(slot as int, name@));
}

/// Appends `get_code(slot, name@)`.
fn emit_get(out: &mut Vec<StkExpr>, slot: usize, name: &String)
    ensures
        stmts(final(out)@) == stmts(old(out)@) + get_code(slot as int, name@),
{
    let mut open: Vec<char> = Vec::new();
    open.push('+');
    crate::text::push_str(&mut open, name.as_str());
    let mut close: Vec<char> = Vec::new();
    close.push('-');
    crate::text::push_str(&mut close, name.as_str());
    emit_stmt(out, StkExpr::Comment(crate::text::chars_to_string(&open)));
    emit_depth(out, slot);
    emit_dup_at_depth(out);
    emit_swap(out);
    emit_push(out, 1);
    emit(out, CMD::Add);
    emit_stmt(out, StkExpr::Comment(crate::text::chars_to_string(&close)));
    assert(stmts(out@) =~= stmts(old(out)@) + get_code(slot as int, name@));
}

/// Appends the statements for `e`.
fn emit_lowered(out: &mut Vec<StkExpr>, e: &Expr, variables: &LabelMap<Variable>)
    requires
        variables.wf(),
        stmt_lowerable(var_views(variables.entries()), e@),
    ensures
        stmts(final(out)@) == stmts(old(out)@) + lower_stmt(var_views(variables.entries()), e@),
{
    proof {
        lemma_entries_map_names(variables.entries(), variable_view());
    }
    match e {
        Expr::Instr(c) => emit(out, c.copy()),
        Expr::Goto(l) => emit_stmt(out, StkExpr::Goto(l.copy().get_label_name())),
        Expr::Branch(a, b) => emit_stmt(
            out,
            StkExpr::Branch(a.copy().get_label_name(), b.copy().get_label_name()),
        ),
        Expr::Debug => emit_stmt(out, StkExpr::Debug),
        Expr::Comment(c) => emit_stmt(out, StkExpr::Comment(c.clone())),
        Expr::SetVar(v) => {
            proof {
                lemma_entries_map_lookup(variables.entries(), v@, variable_view());
            }
            let var = variables.get(v.as_str()).unwrap();
            emit_set(out, var.var_index, &debug_text(v.as_str()));
        },
        Expr::GetVar(v) => {
            proof {
                lemma_entries_map_lookup(variables.entries(), v@, variable_view());
            }
            let var = variables.get(v.as_str()).unwrap();
            emit_get(out, var.var_index, &debug_text(v.as_str()));
        },
        Expr::Lib(_) => {
            assert(stmts(out@) =~= stmts(out@) + Seq::<Stmt>::empty());
        },
        Expr::GotoStk => emit_stmt(out, StkExpr::GotoStk),
    }
}

/// Appends the statements for a block's statements.
fn emit_body(out: &mut Vec<StkExpr>, body: &Vec<Expr>, variables: &LabelMap<Variable>)
    requires
        variables.wf(),
        forall|j: int|
            0 <= j < body@.len() ==> stmt_lowerable(var_views(variables.entries()), #[trigger] body@[j]@),
    ensures
        stmts(final(out)@) == stmts(old(out)@) + lower_body(var_views(variables.entries()), mstmts(body@)),
{
    let ghost vars = var_views(variables.entries());
    let ghost ms = mstmts(body@);
    let mut i: usize = 0;
    assert(stmts(out@) =~= stmts(old(out)@) + lower_body(vars, ms.take(0)));
    while i < body.len()
        invariant
            i <= body@.len(),
            vars == var_views(variables.entries()),
            ms == mstmts(body@),
            variables.wf(),
            forall|j: int| 0 <= j < body@.len() ==> stmt_lowerable(vars, #[trigger] body@[j]@),
            stmts(out@) == stmts(old(out)@) + lower_body(vars, ms.take(i as int)),
        decreases body@.len() - i,
    {
        let ghost before = stmts(out@);
        emit_lowered(out, &body[i], variables);
        proof {
            assert(ms.take(i + 1).drop_last() =~= ms.take(i as int));
            assert(ms.take(i + 1).last() == body@[i as int]@);
            assert(stmts(out@) =~= stmts(old(out)@) + lower_body(vars, ms.take(i + 1)));
        }
        i = i + 1;
    }
    assert(ms.take(i as int) =~= ms);
}

/// Appends the frame set-up for all variables.
fn emit_frame(out: &mut Vec<StkExpr>, variables: &LabelMap<Variable>)
    requires
        variables.wf(),
    ensures
        ({
            let vars = var_views(variables.entries());
            let order = sort_by_number(var_slots(vars));
            stmts(final(out)@) == stmts(old(out)@) + frame_code(order, vars, order.len())
        }),
{
    let ghost vars = var_views(variables.entries());
    proof {
        lemma_entries_map_names(variables.entries(), variable_view());
    }
    let mut slots: Vec<(String, usize)> = Vec::new();
    let mut i: usize = 0;
    while i < variables.len()
        invariant
            i <= variables.entries().len(),
            vars == var_views(variables.entries()),
            vars.len() == variables.entries().len(),
            forall|k: int| 0 <= k < variables.entries().len() ==> #[trigger] vars[k] == (variables.entries()[k].0, variables.entries()[k].1@),
            pairs_view(slots@) == var_slots(vars).take(i as int),
        decreases variables.entries().len() - i,
    {
        let ghost s0 = slots@;
        let name = variables.name_at(i).clone();
        let slot = variables.value_at(i).var_index;
        slots.push((name, slot));
        proof {
            assert(pairs_view(slots@) =~= pairs_view(s0).push((name@, slot)));
            assert(var_slots(vars)[i as int] == (name@, slot));
            assert(pairs_view(slots@) =~= var_slots(vars).take(i + 1));
        }
        i = i + 1;
    }
    assert(var_slots(vars).take(i as int) =~= var_slots(vars));
    let sorted = sorted_by_number(slots);
    let ghost order = pairs_view(sorted@);
    let ghost total = frame_code(order, vars, order.len());
    let ghost done: Seq<Stmt> = seq![];
    let mut j: usize = sorted.len();
    assert(done + frame_code(order, vars, j as nat) =~= total);
    while j > 0
        invariant
            j <= order.len(),
            order.len() == sorted@.len(),
            order == pairs_view(sorted@),
            vars == var_views(variables.entries()),
            variables.wf(),
            total == frame_code(order, vars, order.len()),
            stmts(out@) == stmts(old(out)@) + done,
            done + frame_code(order, vars, j as nat) == total,
        decreases j,
    {
        let name = &sorted[j - 1].0;
        assert(order[j - 1].0 == name@);
        proof {
            lemma_entries_map_lookup(variables.entries(), name@, variable_view());
        }
        let ghost code = match lookup(vars, order[j - 1].0) {
            Some(v) => add_var_code(v.value),
            None => Seq::<Stmt>::empty(),
        };
        match variables.get(name.as_str()) {
            Some(v) => emit_add_var(out, &v.value),
            None => {
                assert(stmts(out@) =~= stmts(out@) + Seq::<Stmt>::empty());
            },
        }
        proof {
            assert(frame_code(order, vars, j as nat) == code + frame_code(order, vars, (j - 1) as nat));
            assert(done + code + frame_code(order, vars, (j - 1) as nat) =~= total);
            assert(stmts(out@) =~= stmts(old(out)@) + (done + code));
            done = done + code;
        }
        j = j - 1;
    }
    assert(done =~= total);
}

/// The lowering of mid-level programs to stack programs.
pub struct SmplToStk {
    /// The blocks finished so far and their numbers; `label` is the block
    /// being filled.
    stk_executor: PietStackExecutor,
    /// The code of the block being filled.
    body: Vec<StkExpr>,
    /// The next block number.
    next: usize,
}

impl SmplToStk {
    /// The layout this lowering state stands for.
    spec fn layout(&self) -> StkLayout {
        StkLayout {
            blocks: block_views(self.stk_executor.blocks.entries()),
            index: self.stk_executor.block_index.entries(),
            current: self.stk_executor.label@,
            body: stmts(self.body@),
            next: self.next as nat,
        }
    }

    /// Whether `to_stk` accepts the program: the names of each of its maps
    /// are distinct, every numbered block exists, every variable used is
    /// declared, and no library reference is left.
    pub fn can_lower(executor: &SmplExecutor) -> (r: bool)
        ensures
            r == lowerable(*executor),
    {
        if !executor.blocks.names_unique() || !executor.block_index.names_unique()
            || !executor.variables.names_unique() {
            return false;
        }
        if executor.block_index.len() == usize::MAX {
            return false;
        }
        let ghost bv = mblock_views(executor.blocks.entries());
        let ghost idx = executor.block_index.entries();
        let ghost vars = var_views(executor.variables.entries());
        proof {
            lemma_entries_map_names(executor.blocks.entries(), body_view());
            lemma_entries_map_names(executor.variables.entries(), variable_view());
        }
        let mut i: usize = 0;
        while i < executor.block_index.len()
            invariant
                idx == executor.block_index.entries(),
                bv == mblock_views(executor.blocks.entries()),
                forall|n: Seq<char>| has_name(bv, n) <==> #[trigger] has_name(executor.blocks.entries(), n),
                i <= idx.len(),
                forall|k: int| 0 <= k < i ==> has_name(bv, #[trigger] idx[k].0),
            decreases idx.len() - i,
        {
            if !executor.blocks.contains_key(executor.block_index.name_at(i).as_str()) {
                assert(!has_name(bv, idx[i as int].0));
                return false;
            }
            i = i + 1;
        }
        let mut b: usize = 0;
        while b < executor.blocks.len()
            invariant
                bv == mblock_views(executor.blocks.entries()),
                vars == var_views(executor.variables.entries()),
                bv.len() == executor.blocks.entries().len(),
                forall|k: int| 0 <= k < bv.len() ==> #[trigger] bv[k] == (executor.blocks.entries()[k].0, mstmts(executor.blocks.entries()[k].1@)),
                forall|n: Seq<char>| has_name(vars, n) <==> #[trigger] has_name(executor.variables.entries(), n),
                b <= bv.len(),
                forall|k: int, j: int| 0 <= k < b && 0 <= j < bv[k].1.len() ==> stmt_lowerable(vars, #[trigger] bv[k].1[j]),
            decreases bv.len() - b,
        {
            let body = executor.blocks.value_at(b);
            assert(bv[b as int].1 == mstmts(body@));
            let mut j: usize = 0;
            while j < body.len()
                invariant
                    bv == mblock_views(executor.blocks.entries()),
                    vars == var_views(executor.variables.entries()),
                    b < bv.len(),
                    bv[b as int].1 == mstmts(body@),
                    forall|n: Seq<char>| has_name(vars, n) <==> #[trigger] has_name(executor.variables.entries(), n),
                    j <= body@.len(),
                    forall|k: int, m: int| 0 <= k < b && 0 <= m < bv[k].1.len() ==> stmt_lowerable(vars, #[trigger] bv[k].1[m]),
                    forall|m: int| 0 <= m < j ==> stmt_lowerable(vars, #[trigger] bv[b as int].1[m]),
                decreases body@.len() - j,
            {
                assert(bv[b as int].1[j as int] == body@[j as int]@);
                let ok = match &body[j] {
                    Expr::SetVar(v) => executor.variables.contains_key(v.as_str()),
                    Expr::GetVar(v) => executor.variables.contains_key(v.as_str()),
                    Expr::Lib(_) => false,
                    _ => true,
                };
                if !ok {
                    assert(!stmt_lowerable(vars, bv[b as int].1[j as int]));
                    return false;
                }
                j = j + 1;
            }
            assert forall|k: int, m: int| 0 <= k < b + 1 && 0 <= m < bv[k].1.len() implies stmt_lowerable(vars, #[trigger] bv[k].1[m]) by {
                if k == b {
                    assert(stmt_lowerable(vars, bv[b as int].1[m]));
                }
            }
            b = b + 1;
        }
        true
    }

    /// Translates a mid-level program into a stack program, ready to run
    /// from block `main` on an empty stack.
    pub fn to_stk(executor: SmplExecutor) -> (r: PietStackExecutor)
        requires
            lowerable(executor),
        ensures
            r.wf(),
            (block_views(r.blocks.entries()), r.block_index.entries()) == stk_program_of(
                mblock_views(executor.blocks.entries()),
                executor.block_index.entries(),
                var_views(executor.variables.entries()),
            ),
            r.stack@.len() == 0,
            r.label@ == main_label(),
    {
        proof {
            reveal_strlit("main");
            reveal_strlit("term");
        }
        let ghost bv = mblock_views(executor.blocks.entries());
        let ghost idx = executor.block_index.entries();
        let ghost vars = var_views(executor.variables.entries());
        let main = String::from_str("main");
        assert(main@ =~= main_label());
        let mut prologue_code: Vec<StkExpr> = Vec::new();
        emit_push(&mut prologue_code, 0);
        emit_push(&mut prologue_code, 1);
        emit_frame(&mut prologue_code, &executor.variables);
        assert(stmts(prologue_code@) =~= prologue(vars));
        let mut blocks: LabelMap<Vec<StkExpr>> = LabelMap::new();
        let empty: Vec<StkExpr> = Vec::new();
        let ghost ge = empty;
        blocks.insert(main.clone(), empty);
        let mut index: LabelMap<usize> = LabelMap::new();
        index.insert(main.clone(), 0);
        let mut tr = SmplToStk {
            stk_executor: PietStackExecutor { blocks, block_index: index, stack: Vec::new(), label: main },
            body: prologue_code,
            next: 1,
        };
        let ghost init = StkLayout {
            blocks: seq![(main_label(), seq![])],
            index: seq![(main_label(), 0usize)],
            current: main_label(),
            body: prologue(vars),
            next: 1,
        };
        proof {
            assert(stmts(ge@) =~= Seq::<Stmt>::empty());
            assert(block_views(tr.stk_executor.blocks.entries()) =~= init.blocks);
            assert(tr.stk_executor.block_index.entries() =~= init.index);
            assert(tr.stk_executor.blocks.entries()[0].0 == main_label());
        }
        let order = sorted_by_number(executor.block_index.pairs());
        let ghost ov = pairs_view(order@);
        proof {
            lemma_sort_keeps_names(idx);
            lemma_entries_map_names(executor.blocks.entries(), body_view());
        }
        let mut k: usize = 0;
        while k < order.len()
            invariant
                k <= order@.len(),
                ov == pairs_view(order@),
                ov == sort_by_number(idx),
                ov.len() == idx.len(),
                idx.len() < usize::MAX,
                forall|i: int| 0 <= i < ov.len() ==> has_name(idx, #[trigger] ov[i].0),
                lowerable(executor),
                bv == mblock_views(executor.blocks.entries()),
                idx == executor.block_index.entries(),
                vars == var_views(executor.variables.entries()),
                forall|n: Seq<char>| has_name(bv, n) <==> #[trigger] has_name(executor.blocks.entries(), n),
                tr.stk_executor.wf(),
                has_name(tr.stk_executor.blocks.entries(), tr.stk_executor.label@),
                tr.next <= k + 1,
                tr.layout() == layout_blocks(ov.take(k as int), bv, vars, init),
            decreases order@.len() - k,
        {
            proof {
                reveal_strlit("main");
                reveal_strlit("term");
            }
            assert(ov.take(k + 1).drop_last() =~= ov.take(k as int));
            assert(ov.take(k + 1).last() == ov[k as int]);
            let x = &order[k].0;
            assert(x@ == ov[k as int].0);
            if text_eq(x.as_str(), "term") {
                assert(x@ =~= term_label());
            } else {
                proof {
                    assert("term"@ =~= term_label());
                    assert(x@ != term_label());
                    assert(has_name(idx, x@));
                    let i = choose|i: int| 0 <= i < idx.len() && #[trigger] idx[i].0 == x@;
                    assert(has_name(bv, idx[i].0));
                    lemma_entries_map_lookup(executor.blocks.entries(), x@, body_view());
                }
                let src = executor.blocks.get(x.as_str()).unwrap();
                proof {
                    let i = choose|i: int| 0 <= i < bv.len() && #[trigger] bv[i].0 == x@;
                    assert(lookup(bv, x@) == Some(bv[i].1));
                    assert(bv[i].1 == mstmts(src@));
                    assert forall|j: int| 0 <= j < src@.len() implies stmt_lowerable(
                        vars,
                        #[trigger] src@[j]@,
                    ) by {
                        assert(bv[i].1[j] == src@[j]@);
                    }
                }
                if text_eq(x.as_str(), "main") {
                    assert(x@ =~= main_label());
                    let ghost b0 = stmts(tr.body@);
                    emit_body(&mut tr.body, src, &executor.variables);
                } else {
                    assert("main"@ =~= main_label());
                    assert(x@ != main_label());
                    let mut fresh: Vec<StkExpr> = Vec::new();
                    assert(stmts(fresh@) =~= Seq::<Stmt>::empty());
                    emit_body(&mut fresh, src, &executor.variables);
                    let ghost b0 = tr.stk_executor.blocks.entries();
                    let ghost cur = tr.stk_executor.label@;
                    let ghost gb = tr.body;
                    let mut old_body = fresh;
                    std::mem::swap(&mut tr.body, &mut old_body);
                    tr.stk_executor.blocks.insert(tr.stk_executor.label.clone(), old_body);
                    let ghost b1 = tr.stk_executor.blocks.entries();
                    let empty: Vec<StkExpr> = Vec::new();
                    let ghost ge2 = empty;
                    tr.stk_executor.blocks.insert(x.clone(), empty);
                    tr.stk_executor.block_index.insert(x.clone(), tr.next);
                    tr.stk_executor.label = x.clone();
                    tr.next = tr.next + 1;
                    proof {
                        lemma_entries_map_insert(b0, cur, gb, stmts_view());
                        lemma_entries_map_insert(b1, x@, ge2, stmts_view());
                        assert(stmts(ge2@) =~= Seq::<Stmt>::empty());
                        lemma_insert_shape(b1, x@, ge2);
                    }
                }
            }
            k = k + 1;
        }
        assert(ov.take(k as int) =~= ov);
        let ghost st = tr.layout();
        let ghost b0 = tr.stk_executor.blocks.entries();
        let ghost gb = tr.body;
        let cur = tr.stk_executor.label.clone();
        tr.stk_executor.blocks.insert(cur, tr.body);
        let ghost b1 = tr.stk_executor.blocks.entries();
        let term = String::from_str("term");
        assert(term@ =~= term_label());
        let empty: Vec<StkExpr> = Vec::new();
        let ghost ge3 = empty;
        tr.stk_executor.blocks.insert(term.clone(), empty);
        tr.stk_executor.block_index.insert(term, tr.next);
        proof {
            lemma_entries_map_insert(b0, st.current, gb, stmts_view());
            lemma_entries_map_insert(b1, term_label(), ge3, stmts_view());
            assert(stmts(ge3@) =~= Seq::<Stmt>::empty());
        }
        PietStackExecutor {
            blocks: tr.stk_executor.blocks,
            block_index: tr.stk_executor.block_index,
            stack: Vec::new(),
            label: String::from_str("main"),
        }
    }
}

} // verus!
