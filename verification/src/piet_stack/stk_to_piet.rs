//! Drawing stack programs as Piet images. Each block's commands become a
//! row of colours whose hue and lightness changes encode the commands; the
//! rows are cut into strips that snake left and right inside the block's
//! cell of a grid of blocks, and jumps are drawn as code that pushes the
//! target block's number for a shared dispatcher.

use super::expr::{stmts, Expr, Stmt};
use super::{term_label, PietStackExecutor};
use crate::integer::Integer;
use crate::label_map::{has_name, lookup, text_eq, LabelMap};
use crate::optimize_stk::{ops, run_ops, runs_cleanly, small_pushes, StackOptimizer};
use crate::piet_color::{table_color, table_place, ValidColor};
use crate::piet_interpreter::{Op, CMD};
use vstd::prelude::*;

verus! {

/// The change of (hue, lightness) that encodes a command.
pub open spec fn cmd_shift(op: Op) -> (int, int) {
    match op {
        Op::Nop => (0, 0),
        Op::Push(_) => (0, 1),
        Op::Pop => (0, 2),
        Op::Add => (1, 0),
        Op::Sub => (1, 1),
        Op::Mul => (1, 2),
        Op::Div => (2, 0),
        Op::Mod => (2, 1),
        Op::Not => (2, 2),
        Op::Greater => (3, 0),
        Op::Pointer => (3, 1),
        Op::Switch => (3, 2),
        Op::Dup => (4, 0),
        Op::Roll => (4, 1),
        Op::InN => (4, 2),
        Op::InC => (5, 0),
        Op::OutN => (5, 1),
        Op::OutC => (5, 2),
    }
}

/// Whether a colour has a place in the command table.
pub open spec fn chromatic(c: ValidColor) -> bool {
    table_place(c) is Some
}

/// The colour that follows `c` when `op` is run: `c`'s hue and lightness
/// moved on by the command's shift.
pub open spec fn shifted(c: ValidColor, op: Op) -> ValidColor {
    let (h, l) = table_place(c).unwrap();
    let (dh, dl) = cmd_shift(op);
    table_color(((h + dh) % 6) as usize, ((l + dl) % 3) as usize)
}

/// The cells a command adds after a row ending in colour `c`: `Nop` adds a
/// white cell and a fresh red one; a push of `v` widens the current colour
/// to `v` cells and then changes it; any other command adds one cell of the
/// shifted colour.
pub open spec fn cmd_colors(op: Op, c: ValidColor) -> Seq<ValidColor> {
    match op {
        Op::Nop => seq![ValidColor::White, ValidColor::Red],
        Op::Push(v) => Seq::new((v - 1) as nat, |i: int| c) + seq![shifted(c, op)],
        _ => seq![shifted(c, op)],
    }
}

/// Whether a command can be drawn: a pushed value must be at least 1 and
/// small enough to count cells with.
pub open spec fn drawable(op: Op) -> bool {
    match op {
        Op::Push(v) => 1 <= v <= usize::MAX,
        _ => true,
    }
}

/// The row for commands run in order: a red cell, then each command's
/// cells.
pub open spec fn code_colors(os: Seq<Op>) -> Seq<ValidColor>
    decreases os.len(),
{
    if os.len() == 0 {
        seq![ValidColor::Red]
    } else {
        let p = code_colors(os.drop_last());
        p + cmd_colors(os.last(), p.last())
    }
}

/// A row ends in a chromatic colour and is not empty.
pub proof fn lemma_code_colors_end(os: Seq<Op>)
    ensures
        code_colors(os).len() >= 1,
        chromatic(code_colors(os).last()),
    decreases os.len(),
{
    if os.len() > 0 {
        lemma_code_colors_end(os.drop_last());
        let p = code_colors(os.drop_last());
        let (h, l) = table_place(p.last()).unwrap();
        let (dh, dl) = cmd_shift(os.last());
        crate::piet_color::lemma_table_round_trip(p.last(), h, l);
        crate::piet_color::lemma_table_round_trip(
            p.last(),
            ((h + dh) % 6) as usize,
            ((l + dl) % 3) as usize,
        );
    }
}

/// A row starts with its red cell.
proof fn lemma_code_colors_first(os: Seq<Op>)
    ensures
        code_colors(os).len() >= 1,
        code_colors(os)[0] == ValidColor::Red,
    decreases os.len(),
{
    if os.len() > 0 {
        lemma_code_colors_first(os.drop_last());
    }
}

/// The runs of equal neighbouring colours of a row: each colour with the
/// number of cells it spans.
pub open spec fn runs(cs: Seq<ValidColor>) -> Seq<(ValidColor, nat)>
    decreases cs.len(),
{
    if cs.len() == 0 {
        seq![]
    } else {
        let r = runs(cs.drop_last());
        if r.len() > 0 && r.last().0 == cs.last() {
            r.update(r.len() - 1, (cs.last(), r.last().1 + 1))
        } else {
            r.push((cs.last(), 1))
        }
    }
}

/// The command a change of (hue, lightness) by `(dh, dl)` stands for, a
/// push taking the size of the colour block left.
pub open spec fn op_of_shift(dh: int, dl: int, size: nat) -> Op {
    if dh == 0 {
        if dl == 1 {
            Op::Push(size as int)
        } else if dl == 2 {
            Op::Pop
        } else {
            Op::Nop
        }
    } else if dh == 1 {
        if dl == 0 {
            Op::Add
        } else if dl == 1 {
            Op::Sub
        } else {
            Op::Mul
        }
    } else if dh == 2 {
        if dl == 0 {
            Op::Div
        } else if dl == 1 {
            Op::Mod
        } else {
            Op::Not
        }
    } else if dh == 3 {
        if dl == 0 {
            Op::Greater
        } else if dl == 1 {
            Op::Pointer
        } else {
            Op::Switch
        }
    } else if dh == 4 {
        if dl == 0 {
            Op::Dup
        } else if dl == 1 {
            Op::Roll
        } else {
            Op::InN
        }
    } else {
        if dl == 0 {
            Op::InC
        } else if dl == 1 {
            Op::OutN
        } else {
            Op::OutC
        }
    }
}

/// The command that leaving a block of colour `a` and `size` cells into
/// colour `b` runs.
pub open spec fn decode_step(a: ValidColor, b: ValidColor, size: nat) -> Op {
    let (ha, la) = table_place(a).unwrap();
    let (hb, lb) = table_place(b).unwrap();
    op_of_shift((hb - ha) % 6, (lb - la) % 3, size)
}

/// The commands a row of chromatic colours runs when read from left to
/// right: one for each change of colour.
pub open spec fn decode(cs: Seq<ValidColor>) -> Seq<Op> {
    let r = runs(cs);
    Seq::new((r.len() - 1) as nat, |i: int| decode_step(r[i].0, r[i + 1].0, r[i].1))
}

/// Reading the change from `c` to the colour a command shifts it to gives
/// the command back; the colour changes.
proof fn lemma_shift_decodes(c: ValidColor, op: Op, size: nat)
    requires
        chromatic(c),
        op != Op::Nop,
        op matches Op::Push(v) ==> v == size,
    ensures
        chromatic(shifted(c, op)),
        shifted(c, op) != c,
        decode_step(c, shifted(c, op), size) == op,
{
    let (h, l) = table_place(c).unwrap();
    let (dh, dl) = cmd_shift(op);
    let h2 = ((h + dh) % 6) as usize;
    let l2 = ((l + dl) % 3) as usize;
    crate::piet_color::lemma_table_round_trip(c, h2, l2);
    assert(table_place(shifted(c, op)) == Some((h2, l2)));
    assert((h2 - h) % 6 == dh);
    assert((l2 - l) % 3 == dl);
}

/// Adding `k` cells of the last colour lengthens the last run by `k`.
proof fn lemma_runs_extend(s: Seq<ValidColor>, k: nat)
    requires
        s.len() > 0,
        runs(s).len() > 0,
        runs(s).last().0 == s.last(),
    ensures
        runs(s + Seq::new(k, |i: int| s.last())) == runs(s).update(
            runs(s).len() - 1,
            (s.last(), runs(s).last().1 + k),
        ),
    decreases k,
{
    let x = s.last();
    if k == 0 {
        assert(s + Seq::new(0, |i: int| x) =~= s);
        assert(runs(s).update(runs(s).len() - 1, (x, runs(s).last().1)) =~= runs(s));
    } else {
        let t = s + Seq::new(k, |i: int| x);
        let t0 = s + Seq::new((k - 1) as nat, |i: int| x);
        assert(t.drop_last() =~= t0);
        assert(t.last() == x);
        lemma_runs_extend(s, (k - 1) as nat);
        let r0 = runs(t0);
        assert(r0.len() == runs(s).len());
        assert(r0.last() == (x, (runs(s).last().1 + (k - 1)) as nat));
        assert(runs(t) =~= runs(s).update(runs(s).len() - 1, (x, runs(s).last().1 + k)));
    }
}

/// The row drawn for commands other than `Nop` encodes them: its last run
/// is a single cell of its last colour, and reading its changes of colour
/// gives the commands back, each push with the size of the block before it.
pub proof fn lemma_code_colors_decode(os: Seq<Op>)
    requires
        forall|i: int| 0 <= i < os.len() ==> #[trigger] os[i] != Op::Nop && drawable(os[i]),
    ensures
        runs(code_colors(os)).len() == os.len() + 1,
        runs(code_colors(os)).last() == (code_colors(os).last(), 1nat),
        decode(code_colors(os)) == os,
    decreases os.len(),
{
    lemma_code_colors_end(os);
    if os.len() == 0 {
        assert(code_colors(os) == seq![ValidColor::Red]);
        assert(seq![ValidColor::Red].drop_last() =~= Seq::<ValidColor>::empty());
        assert(runs(Seq::<ValidColor>::empty()) =~= Seq::<(ValidColor, nat)>::empty());
        assert(runs(seq![ValidColor::Red]) =~= seq![(ValidColor::Red, 1nat)]);
        assert(decode(code_colors(os)) =~= os);
    } else {
        let pre = os.drop_last();
        let op = os.last();
        assert forall|i: int| 0 <= i < pre.len() implies #[trigger] pre[i] != Op::Nop && drawable(pre[i]) by {
            assert(pre[i] == os[i]);
        }
        lemma_code_colors_decode(pre);
        lemma_code_colors_end(pre);
        let p = code_colors(pre);
        let c = p.last();
        let r = runs(p);
        let k: nat = match op {
            Op::Push(v) => (v - 1) as nat,
            _ => 0,
        };
        let size: nat = match op {
            Op::Push(v) => v as nat,
            _ => 1,
        };
        lemma_shift_decodes(c, op, size);
        let c2 = shifted(c, op);
        let mid = p + Seq::new(k, |i: int| c);
        lemma_runs_extend(p, k);
        let rm = runs(mid);
        assert(rm =~= r.update(r.len() - 1, (c, size)));
        let full = code_colors(os);
        assert(full =~= mid.push(c2)) by {
            assert(os.len() > 0);
            assert(full == p + cmd_colors(op, c));
            if op is Push {
                assert(cmd_colors(op, c) =~= Seq::new(k, |i: int| c) + seq![c2]);
            } else {
                assert(cmd_colors(op, c) =~= seq![c2]);
                assert(Seq::new(0, |i: int| c) + seq![c2] =~= seq![c2]);
            }
        }
        if mid.len() > 0 {
            assert(mid.last() == c) by {
                if k > 0 {
                    assert(mid.last() == Seq::new(k, |i: int| c)[k - 1]);
                } else {
                    assert(mid =~= p);
                }
            }
        }
        assert(mid.push(c2).drop_last() =~= mid);
        let rf = runs(full);
        assert(rf =~= rm.push((c2, 1nat)));
        assert(decode(full) =~= os) by {
            let d = decode(full);
            assert forall|i: int| 0 <= i < os.len() implies d[i] == os[i] by {
                if i < pre.len() {
                    assert(rf[i] == r[i]);
                    assert(rf[i + 1].0 == r[i + 1].0);
                    assert(decode(p)[i] == pre[i]);
                } else {
                    assert(rf[i] == (c, size));
                    assert(rf[i + 1] == (c2, 1nat));
                }
            }
        }
    }
}

/// Appends the cells for `cmd` after a row ending in a chromatic colour.
fn index_and_command_to_color_and_next_index(cmd: CMD, output: &mut Vec<ValidColor>)
    requires
        old(output)@.len() >= 1,
        chromatic(old(output)@.last()),
        drawable(cmd@),
    ensures
        final(output)@ == old(output)@ + cmd_colors(cmd@, old(output)@.last()),
{
    let last = output[output.len() - 1];
    let (c, r) = last.table_place().unwrap();
    proof {
        crate::piet_color::lemma_table_round_trip(last, c, r);
    }
    let ghost op = cmd@;
    let (dc, dr): (usize, usize) = match &cmd {
        CMD::Nop => {
            output.push(ValidColor::White);
            output.push(ValidColor::Red);
            assert(output@ =~= old(output)@ + cmd_colors(op, last));
            return ;
        },
        CMD::Push(v) => {
            let one = Integer::from_i64(1);
            let x = v.sub(&one).to_usize().unwrap();
            let ghost before = output@;
            let mut i: usize = 0;
            while i < x
                invariant
                    i <= x,
                    output@ == before + Seq::new(i as nat, |k: int| last),
                decreases x - i,
            {
                output.push(last);
                i = i + 1;
                assert(output@ =~= before + Seq::new(i as nat, |k: int| last));
            }
            (0, 1)
        },
        CMD::Pop => (0, 2),
        CMD::Add => (1, 0),
        CMD::Sub => (1, 1),
        CMD::Mul => (1, 2),
        CMD::Div => (2, 0),
        CMD::Mod => (2, 1),
        CMD::Not => (2, 2),
        CMD::Greater => (3, 0),
        CMD::Pointer => (3, 1),
        CMD::Switch => (3, 2),
        CMD::Dup => (4, 0),
        CMD::Roll => (4, 1),
        CMD::InN => (4, 2),
        CMD::InC => (5, 0),
        CMD::OutN => (5, 1),
        CMD::OutC => (5, 2),
    };
    let next = ValidColor::from_table((c + dc) % 6, (r + dr) % 3);
    let ghost mid = output@;
    output.push(next);
    assert(output@ =~= old(output)@ + cmd_colors(op, last));
}

/// How a block leaves: by running into its end, by a jump, by a branch, or
/// by a jump to the block whose number is on the stack.
pub enum BlockExit {
    Fall,
    Goto(Seq<char>),
    Branch(Seq<char>, Seq<char>),
    Computed,
}

/// The position of the first jump, branch or computed jump, or the length.
pub open spec fn first_exit(ss: Seq<Stmt>) -> nat
    decreases ss.len(),
{
    if ss.len() == 0 {
        0
    } else if first_exit(ss.drop_last()) < ss.len() - 1 {
        first_exit(ss.drop_last())
    } else {
        match ss.last() {
            Stmt::Goto(_) | Stmt::Branch(_, _) | Stmt::GotoStk => (ss.len() - 1) as nat,
            _ => ss.len(),
        }
    }
}

/// The commands of the statements, `Debug` and comments left out.
pub open spec fn code_of(ss: Seq<Stmt>) -> Seq<Op>
    decreases ss.len(),
{
    if ss.len() == 0 {
        seq![]
    } else {
        code_of(ss.drop_last()) + match ss.last() {
            Stmt::Instr(op) => seq![op],
            _ => seq![],
        }
    }
}

/// How a block with these statements leaves.
pub open spec fn exit_of(ss: Seq<Stmt>) -> BlockExit {
    let k = first_exit(ss);
    if k >= ss.len() {
        BlockExit::Fall
    } else {
        match ss[k as int] {
            Stmt::Goto(l) => BlockExit::Goto(l),
            Stmt::Branch(t, e) => BlockExit::Branch(t, e),
            _ => BlockExit::Computed,
        }
    }
}

/// Whether every command of a block can be drawn.
pub open spec fn block_drawable(ss: Seq<Stmt>) -> bool {
    forall|i: int| 0 <= i < ss.len() ==> (#[trigger] ss[i] matches Stmt::Instr(op) ==> drawable(op))
}

/// The first exit of a prefix that holds no exit is its length.
proof fn lemma_first_exit_prefix(ss: Seq<Stmt>, i: int)
    requires
        0 <= i <= first_exit(ss),
        first_exit(ss) <= ss.len(),
    ensures
        first_exit(ss.take(i)) == i,
    decreases ss.len(),
{
    if i < ss.len() {
        if first_exit(ss.drop_last()) < ss.len() - 1 {
            assert(ss.drop_last().take(i) =~= ss.take(i));
            lemma_first_exit_bound(ss.drop_last());
            lemma_first_exit_prefix(ss.drop_last(), i);
        } else {
            lemma_first_exit_bound(ss.drop_last());
            assert(ss.drop_last().take(i) =~= ss.take(i));
            lemma_first_exit_prefix(ss.drop_last(), i);
        }
    } else {
        assert(ss.take(i) =~= ss);
    }
}

/// The first exit is at most the length.
proof fn lemma_first_exit_bound(ss: Seq<Stmt>)
    ensures
        first_exit(ss) <= ss.len(),
    decreases ss.len(),
{
    if ss.len() > 0 {
        lemma_first_exit_bound(ss.drop_last());
    }
}

/// A block's row of colours and how it leaves: the red start and the cells
/// of each command up to the first jump.
fn make_block(block: &Vec<Expr>) -> (r: (Vec<ValidColor>, (Option<String>, Option<String>, bool)))
    requires
        block_drawable(stmts(block@)),
    ensures
        r.0@ == code_colors(code_of(stmts(block@).take(first_exit(stmts(block@)) as int))),
        match exit_of(stmts(block@)) {
            BlockExit::Fall => r.1 == (None::<String>, None::<String>, false),
            BlockExit::Goto(l) => r.1 matches (Some(t), None, false) && t@ == l,
            BlockExit::Branch(a, b) => r.1 matches (Some(t), Some(e), false) && t@ == a && e@ == b,
            BlockExit::Computed => r.1 == (None::<String>, None::<String>, true),
        },
{
    let ghost ss = stmts(block@);
    let mut output: Vec<ValidColor> = Vec::new();
    output.push(ValidColor::Red);
    proof {
        lemma_first_exit_bound(ss);
        assert(ss.take(0) =~= Seq::<Stmt>::empty());
        assert(output@ =~= code_colors(code_of(ss.take(0))));
    }
    let mut i: usize = 0;
    while i < block.len()
        invariant
            ss == stmts(block@),
            block_drawable(ss),
            first_exit(ss) <= ss.len(),
            i <= first_exit(ss),
            output@ == code_colors(code_of(ss.take(i as int))),
        decreases block@.len() - i,
    {
        proof {
            lemma_first_exit_prefix(ss, i as int);
            lemma_code_colors_end(code_of(ss.take(i as int)));
            assert(ss.take(i + 1).drop_last() =~= ss.take(i as int));
            assert(ss.take(i + 1).last() == block@[i as int]@);
        }
        match &block[i] {
            Expr::Branch(t, e) => {
                proof {
                    assert(first_exit(ss.take(i + 1)) == i) by {
                        assert(first_exit(ss.take(i + 1).drop_last()) == i);
                    }
                    lemma_exit_at(ss, i as int);
                }
                return (output, (Some(t.clone()), Some(e.clone()), false));
            },
            Expr::Goto(l) => {
                proof {
                    lemma_exit_at(ss, i as int);
                }
                return (output, (Some(l.clone()), None, false));
            },
            Expr::GotoStk => {
                proof {
                    lemma_exit_at(ss, i as int);
                }
                return (output, (None, None, true));
            },
            Expr::Instr(cmd) => {
                proof {
                    lemma_no_exit_at(ss, i as int);
                    let os = code_of(ss.take(i + 1));
                    assert(os == code_of(ss.take(i as int)).push(cmd@)) by {
                        assert(code_of(ss.take(i as int)) + seq![cmd@] =~= code_of(ss.take(i as int)).push(cmd@));
                    }
                    assert(ss[i as int] == Stmt::Instr(cmd@));
                }
                index_and_command_to_color_and_next_index(cmd.copy(), &mut output);
                proof {
                    let os = code_of(ss.take(i + 1));
                    assert(os.drop_last() =~= code_of(ss.take(i as int)));
                }
            },
            _ => {
                proof {
                    lemma_no_exit_at(ss, i as int);
                    assert(code_of(ss.take(i + 1)) =~= code_of(ss.take(i as int)));
                }
            },
        }
        i = i + 1;
    }
    proof {
        assert(ss.take(i as int) =~= ss);
        assert(first_exit(ss) == ss.len());
    }
    (output, (None, None, false))
}

/// When statement `i` is the first jump, it is where the block exits.
proof fn lemma_exit_at(ss: Seq<Stmt>, i: int)
    requires
        0 <= i < ss.len(),
        i <= first_exit(ss),
        ss[i] is Goto || ss[i] is Branch || ss[i] is GotoStk,
    ensures
        first_exit(ss) == i,
    decreases ss.len(),
{
    lemma_first_exit_bound(ss);
    if i < ss.len() - 1 {
        lemma_first_exit_bound(ss.drop_last());
        if first_exit(ss.drop_last()) < ss.len() - 1 {
            lemma_exit_at(ss.drop_last(), i);
        } else {
            lemma_exit_at(ss.drop_last(), i);
        }
    } else {
        lemma_first_exit_bound(ss.drop_last());
        lemma_first_exit_prefix(ss, i);
        assert(ss.take(i) =~= ss.drop_last());
    }
}

/// A statement before the first jump that is no jump keeps the first jump
/// after it.
proof fn lemma_no_exit_at(ss: Seq<Stmt>, i: int)
    requires
        0 <= i < ss.len(),
        i <= first_exit(ss),
        !(ss[i] is Goto || ss[i] is Branch || ss[i] is GotoStk),
    ensures
        i < first_exit(ss),
    decreases ss.len(),
{
    lemma_first_exit_bound(ss);
    lemma_first_exit_bound(ss.drop_last());
    if i < ss.len() - 1 {
        if first_exit(ss.drop_last()) < ss.len() - 1 {
            lemma_no_exit_at(ss.drop_last(), i);
        } else {
            lemma_no_exit_at(ss.drop_last(), i);
        }
    } else {
        lemma_first_exit_prefix(ss, i);
        assert(ss.take(i) =~= ss.drop_last());
    }
}

/// The colours of `s` without repeats, in order of first appearance.
pub open spec fn distinct_colors(s: Seq<ValidColor>) -> Seq<ValidColor>
    decreases s.len(),
{
    if s.len() == 0 {
        seq![]
    } else {
        let d = distinct_colors(s.drop_last());
        if d.contains(s.last()) {
            d
        } else {
            d.push(s.last())
        }
    }
}

/// Where the strip starting at `offset` ends, looking from `j` on: the row
/// ends first (`End`); or the cells from `offset + j` to `offset + w` show
/// exactly two colours, and the strip is cut there (`At(j)`), which cannot
/// be done at its very start (`Stuck`); or the strip takes `w` cells
/// (`Whole`).
pub enum Cut {
    End,
    At(nat),
    Stuck,
    Whole,
}

/// The cut of the strip at `offset`, looking from `j` on.
pub open spec fn scan_cut(s: Seq<ValidColor>, offset: nat, w: nat, j: nat) -> Cut
    decreases w - j,
{
    if j >= w {
        Cut::Whole
    } else if offset + j >= s.len() {
        Cut::End
    } else if offset + w < s.len() && distinct_colors(s.subrange((offset + j) as int, (offset + w) as int)).len() == 2 {
        if j == 0 {
            Cut::Stuck
        } else {
            Cut::At(j)
        }
    } else {
        scan_cut(s, offset, w, j + 1)
    }
}

/// `s[a..min(b, s.len())]`.
pub open spec fn clipped(s: Seq<ValidColor>, a: nat, b: nat) -> Seq<ValidColor> {
    s.subrange(a as int, if b < s.len() { b as int } else { s.len() as int })
}

/// The strips of `s` from `offset` on, each at most `w + 1` cells; a strip
/// that does not end the row shares its last cell with the next one.
/// `None` when a strip gets stuck.
pub open spec fn split_from(s: Seq<ValidColor>, offset: nat, w: nat) -> Option<Seq<Seq<ValidColor>>>
    decreases s.len() - offset,
{
    if offset > s.len() || w == 0 {
        None
    } else {
        match scan_cut(s, offset, w, 0) {
            Cut::Stuck => None,
            Cut::End => Some(seq![s.subrange(offset as int, s.len() as int)]),
            Cut::At(j) => if 0 < j && offset + j <= s.len() {
                match split_from(s, offset + j, w) {
                    Some(rest) => Some(seq![clipped(s, offset, offset + j + 1)] + rest),
                    None => None,
                }
            } else {
                None
            },
            Cut::Whole => if offset + w <= s.len() {
                match split_from(s, offset + w, w) {
                    Some(rest) => Some(seq![clipped(s, offset, offset + w + 1)] + rest),
                    None => None,
                }
            } else {
                None
            },
        }
    }
}

/// The rows of colours as sequences.
pub open spec fn rows_view(v: Seq<Vec<ValidColor>>) -> Seq<Seq<ValidColor>> {
    v.map_values(|r: Vec<ValidColor>| r@)
}

/// `o` with `done` put in front of its strips.
pub open spec fn after(done: Seq<Seq<ValidColor>>, o: Option<Seq<Seq<ValidColor>>>) -> Option<Seq<Seq<ValidColor>>> {
    match o {
        Some(r) => Some(done + r),
        None => None,
    }
}

/// The colours `v[a..b]`.
fn sub_colors(v: &Vec<ValidColor>, a: usize, b: usize) -> (r: Vec<ValidColor>)
    requires
        a <= b <= v@.len(),
    ensures
        r@ == v@.subrange(a as int, b as int),
{
    let mut r: Vec<ValidColor> = Vec::new();
    let mut i = a;
    while i < b
        invariant
            a <= i <= b,
            b <= v@.len(),
            r@ == v@.subrange(a as int, i as int),
        decreases b - i,
    {
        r.push(v[i]);
        i = i + 1;
        assert(r@ =~= v@.subrange(a as int, i as int));
    }
    r
}

/// How many colours `v[a..b]` shows.
fn count_colors(v: &Vec<ValidColor>, a: usize, b: usize) -> (r: usize)
    requires
        a <= b <= v@.len(),
    ensures
        r == distinct_colors(v@.subrange(a as int, b as int)).len(),
{
    let mut seen: Vec<ValidColor> = Vec::new();
    let mut i = a;
    assert(v@.subrange(a as int, a as int) =~= Seq::<ValidColor>::empty());
    while i < b
        invariant
            a <= i <= b,
            b <= v@.len(),
            seen@ == distinct_colors(v@.subrange(a as int, i as int)),
        decreases b - i,
    {
        let c = v[i];
        let mut found = false;
        let mut k: usize = 0;
        while k < seen.len()
            invariant
                k <= seen@.len(),
                found == (exists|m: int| 0 <= m < k && seen@[m] == c),
            decreases seen@.len() - k,
        {
            if seen[k] == c {
                found = true;
            }
            k = k + 1;
        }
        proof {
            let t = v@.subrange(a as int, i + 1);
            assert(t.drop_last() =~= v@.subrange(a as int, i as int));
            assert(t.last() == c);
            if found {
                let m = choose|m: int| 0 <= m < k && seen@[m] == c;
                assert(seen@.contains(c));
            } else {
                assert(!seen@.contains(c));
            }
        }
        if !found {
            seen.push(c);
        }
        i = i + 1;
    }
    seen.len()
}

/// The direction after `count` strips, starting from `going_right`.
pub open spec fn final_direction(going_right: bool, count: nat) -> bool {
    if count % 2 == 0 {
        !going_right
    } else {
        going_right
    }
}

/// Where a strip ends, as found by `find_cut`.
enum CutAt {
    End,
    At(usize),
    Stuck,
    Whole,
}

/// A `Whole` cut means the row is long enough for the whole strip; an `At`
/// cut lies inside the strip and the row.
proof fn lemma_scan_cut(s: Seq<ValidColor>, offset: nat, w: nat, j: nat)
    requires
        j <= w,
    ensures
        scan_cut(s, offset, w, j) is Whole && j < w ==> offset + w <= s.len(),
        scan_cut(s, offset, w, j) matches Cut::At(k) ==> j <= k < w && 0 < k && offset + k < s.len(),
    decreases w - j,
{
    if j < w && offset + j < s.len() && !(offset + w < s.len() && distinct_colors(
        s.subrange((offset + j) as int, (offset + w) as int),
    ).len() == 2) {
        lemma_scan_cut(s, offset, w, j + 1);
    }
}

/// Finds where the strip at `offset` ends.
fn find_cut(v: &Vec<ValidColor>, offset: usize, w: usize) -> (r: CutAt)
    requires
        offset <= v@.len(),
        w >= 1,
    ensures
        match scan_cut(v@, offset as nat, w as nat, 0) {
            Cut::End => r is End,
            Cut::At(j) => r matches CutAt::At(k) && k == j,
            Cut::Stuck => r is Stuck,
            Cut::Whole => r is Whole,
        },
{
    let n = v.len();
    let mut j: usize = 0;
    while j < w
        invariant
            n == v@.len(),
            offset <= n,
            j <= w,
            scan_cut(v@, offset as nat, w as nat, 0) == scan_cut(v@, offset as nat, w as nat, j as nat),
        decreases w - j,
    {
        if j >= n - offset {
            return CutAt::End;
        }
        if w < n - offset {
            if count_colors(v, offset + j, offset + w) == 2 {
                if j == 0 {
                    return CutAt::Stuck;
                } else {
                    return CutAt::At(j);
                }
            }
        }
        j = j + 1;
    }
    CutAt::Whole
}

/// Cuts a row of colours into strips of at most `j_width + 1` cells, and
/// tells the direction after the last strip; `None` when a strip gets
/// stuck.
fn split_in_blocks(to_split: &Vec<ValidColor>, j_width: usize, going_right: bool) -> (r: Option<(Vec<Vec<ValidColor>>, bool)>)
    requires
        j_width >= 1,
    ensures
        match split_from(to_split@, 0, j_width as nat) {
            None => r is None,
            Some(chunks) => r matches Some((v, g)) && rows_view(v@) == chunks && g == final_direction(
                going_right,
                chunks.len(),
            ),
        },
{
    let ghost s = to_split@;
    let ghost w = j_width as nat;
    let n = to_split.len();
    let mut block_blocks: Vec<Vec<ValidColor>> = Vec::new();
    let mut offset: usize = 0;
    let mut dir = !going_right;
    assert(rows_view(block_blocks@) =~= Seq::<Seq<ValidColor>>::empty());
    assert(after(rows_view(block_blocks@), split_from(s, 0, w)) == split_from(s, 0, w)) by {
        match split_from(s, 0, w) {
            Some(r) => {
                assert(Seq::<Seq<ValidColor>>::empty() + r =~= r);
            },
            None => {},
        }
    }
    loop
        invariant
            s == to_split@,
            n == s.len(),
            w == j_width,
            j_width >= 1,
            offset <= n,
            after(rows_view(block_blocks@), split_from(s, offset as nat, w)) == split_from(s, 0, w),
            dir == (if block_blocks@.len() % 2 == 0 {
                !going_right
            } else {
                going_right
            }),
        decreases n - offset,
    {
        let ghost done = rows_view(block_blocks@);
        proof {
            lemma_scan_cut(s, offset as nat, w, 0);
        }
        let next = match find_cut(to_split, offset, j_width) {
            CutAt::Stuck => {
                return None;
            },
            CutAt::End => {
                let chunk = sub_colors(to_split, offset, n);
                let ghost cv = chunk@;
                block_blocks.push(chunk);
                dir = !dir;
                proof {
                    assert(rows_view(block_blocks@) =~= done.push(cv));
                    assert(done + seq![cv] =~= done.push(cv));
                }
                return Some((block_blocks, dir));
            },
            CutAt::At(j) => offset + j,
            CutAt::Whole => offset + j_width,
        };
        let stop = if next < n && next + 1 < n {
            next + 1
        } else {
            n
        };
        let chunk = sub_colors(to_split, offset, stop);
        let ghost cv = chunk@;
        assert(cv == clipped(s, offset as nat, (next + 1) as nat));
        block_blocks.push(chunk);
        dir = !dir;
        proof {
            assert(rows_view(block_blocks@) =~= done.push(cv));
            match split_from(s, next as nat, w) {
                Some(rest) => {
                    assert(done + (seq![cv] + rest) =~= done.push(cv) + rest);
                },
                None => {},
            }
        }
        offset = next;
    }
}

/// Every strip is at most `w + 1` cells long.
proof fn lemma_split_lengths(s: Seq<ValidColor>, offset: nat, w: nat)
    requires
        split_from(s, offset, w) is Some,
    ensures
        forall|k: int|
            0 <= k < split_from(s, offset, w).unwrap().len() ==> #[trigger] split_from(s, offset, w).unwrap()[k].len()
                <= w + 1,
    decreases s.len() - offset,
{
    lemma_scan_cut(s, offset, w, 0);
    match scan_cut(s, offset, w, 0) {
        Cut::End => {
            lemma_scan_end(s, offset, w, 0);
        },
        Cut::At(j) => {
            lemma_split_lengths(s, offset + j, w);
            let rest = split_from(s, offset + j, w).unwrap();
            let all = split_from(s, offset, w).unwrap();
            assert forall|k: int| 0 <= k < all.len() implies #[trigger] all[k].len() <= w + 1 by {
                if k > 0 {
                    assert(all[k] == rest[k - 1]);
                }
            }
        },
        Cut::Whole => {
            lemma_split_lengths(s, offset + w, w);
            let rest = split_from(s, offset + w, w).unwrap();
            let all = split_from(s, offset, w).unwrap();
            assert forall|k: int| 0 <= k < all.len() implies #[trigger] all[k].len() <= w + 1 by {
                if k > 0 {
                    assert(all[k] == rest[k - 1]);
                }
            }
        },
        Cut::Stuck => {},
    }
}

/// When the row ends inside the strip, fewer than `w` cells are left.
proof fn lemma_scan_end(s: Seq<ValidColor>, offset: nat, w: nat, j: nat)
    requires
        scan_cut(s, offset, w, j) is End,
        j <= w,
    ensures
        s.len() < offset + w,
    decreases w - j,
{
    if !(j >= w) && !(offset + j >= s.len()) {
        lemma_scan_end(s, offset, w, j + 1);
    }
}

/// A grid of colours held by `ndarray`.
#[verifier::external_body]
pub struct ColorGrid {
    cells: ndarray::Array2<ValidColor>,
}

/// The cells of a grid, column by column: the cell at column `x` and row
/// `y` is at position `x * height + y`.
pub uninterp spec fn grid_cells(g: ColorGrid) -> Seq<ValidColor>;

/// The width and height a grid was made with.
pub uninterp spec fn grid_shape(g: ColorGrid) -> (nat, nat);

/// A `w` by `h` grid of white cells, made by `Array2::from_elem`, which
/// panics when the product of the nonzero sides overflows `isize`.
#[verifier::external_body]
fn grid_new(w: usize, h: usize) -> (r: ColorGrid)
    requires
        (if w == 0 {
            1
        } else {
            w as int
        }) * (if h == 0 {
            1
        } else {
            h as int
        }) <= isize::MAX,
    ensures
        grid_shape(r) == (w as nat, h as nat),
        grid_cells(r) == Seq::new((w * h) as nat, |i: int| ValidColor::White),
{
    ColorGrid { cells: ndarray::Array2::from_elem((w, h), ValidColor::White) }
}

/// Sets the cell at column `x` and row `y`, through `IndexMut`, which
/// panics outside the grid.
#[verifier::external_body]
fn grid_set(g: &mut ColorGrid, x: usize, y: usize, c: ValidColor)
    requires
        x < grid_shape(*old(g)).0,
        y < grid_shape(*old(g)).1,
    ensures
        grid_shape(*final(g)) == grid_shape(*old(g)),
        grid_cells(*final(g)) == grid_cells(*old(g)).update(x * grid_shape(*old(g)).1 + y, c),
{
    g.cells[(x, y)] = c;
}

/// The cell at column `x` and row `y`, through `Index`, which panics
/// outside the grid.
#[verifier::external_body]
fn grid_get(g: &ColorGrid, x: usize, y: usize) -> (r: ValidColor)
    requires
        x < grid_shape(*g).0,
        y < grid_shape(*g).1,
    ensures
        r == grid_cells(*g)[x * grid_shape(*g).1 + y],
{
    g.cells[(x, y)]
}

/// The colour at column `x` and row `y` of a grid.
pub open spec fn cell_of(g: ColorGrid, x: int, y: int) -> ValidColor {
    grid_cells(g)[x * grid_shape(g).1 + y]
}

/// The grid holds one cell for each column and row.
pub open spec fn well_shaped(g: ColorGrid) -> bool {
    &&& grid_cells(g).len() == grid_shape(g).0 * grid_shape(g).1
    &&& grid_shape(g).0 <= usize::MAX
    &&& grid_shape(g).1 <= usize::MAX
}

/// Row `y` of `b` is the same as in `a`.
pub open spec fn row_kept(a: ColorGrid, b: ColorGrid, y: int) -> bool {
    forall|x: int| 0 <= x < grid_shape(a).0 ==> #[trigger] cell_of(b, x, y) == cell_of(a, x, y)
}

/// Every cell of `b` outside row `y` is the same as in `a`.
pub open spec fn other_rows_kept(a: ColorGrid, b: ColorGrid, y: int) -> bool {
    forall|x2: int, y2: int|
        0 <= x2 < grid_shape(a).0 && 0 <= y2 < grid_shape(a).1 && y2 != y ==> #[trigger] cell_of(b, x2, y2)
            == cell_of(a, x2, y2)
}

/// Distinct cells of a grid `h` rows high lie at distinct positions.
proof fn lemma_cell_positions(x1: int, y1: int, x2: int, y2: int, w: int, h: int)
    requires
        0 <= x1 < w,
        0 <= x2 < w,
        0 <= y1 < h,
        0 <= y2 < h,
    ensures
        x1 * h + y1 < w * h,
        x1 != x2 || y1 != y2 ==> x1 * h + y1 != x2 * h + y2,
{
    assert(x1 * h + y1 < w * h) by (nonlinear_arith)
        requires
            0 <= x1 < w,
            0 <= y1 < h,
    ;
    if x1 < x2 {
        assert(x1 * h + y1 < x2 * h + y2) by (nonlinear_arith)
            requires
                x1 + 1 <= x2,
                0 <= y1 < h,
                0 <= y2,
        ;
    } else if x2 < x1 {
        assert(x2 * h + y2 < x1 * h + y1) by (nonlinear_arith)
            requires
                x2 + 1 <= x1,
                0 <= y2 < h,
                0 <= y1,
        ;
    }
}

/// Sets the cell at column `x` and row `y`, leaving every other cell as it
/// was.
fn put(g: &mut ColorGrid, x: usize, y: usize, c: ValidColor)
    requires
        x < grid_shape(*old(g)).0,
        y < grid_shape(*old(g)).1,
        well_shaped(*old(g)),
    ensures
        grid_shape(*final(g)) == grid_shape(*old(g)),
        well_shaped(*final(g)),
        cell_of(*final(g), x as int, y as int) == c,
        forall|x2: int, y2: int|
            0 <= x2 < grid_shape(*old(g)).0 && 0 <= y2 < grid_shape(*old(g)).1 && (x2 != x || y2 != y)
                ==> #[trigger] cell_of(*final(g), x2, y2) == cell_of(*old(g), x2, y2),
{
    let ghost g0 = *g;
    let ghost (w, h) = grid_shape(*g);
    proof {
        lemma_cell_positions(x as int, y as int, x as int, y as int, w as int, h as int);
    }
    grid_set(g, x, y, c);
    proof {
        assert forall|x2: int, y2: int|
            0 <= x2 < w && 0 <= y2 < h && (x2 != x || y2 != y) implies #[trigger] cell_of(*g, x2, y2)
            == cell_of(g0, x2, y2) by {
            lemma_cell_positions(x2, y2, x as int, y as int, w as int, h as int);
        }
    }
}

/// A Piet image: a grid of colours with its width and height.
pub struct PietImage {
    grid: ColorGrid,
    width: usize,
    height: usize,
}

impl PietImage {
    /// The grid holds `width * height` cells.
    #[verifier::type_invariant]
    spec fn shaped(self) -> bool {
        &&& grid_shape(self.grid) == (self.width as nat, self.height as nat)
        &&& grid_cells(self.grid).len() == self.width * self.height
    }

    /// The number of columns.
    pub closed spec fn columns(self) -> nat {
        self.width as nat
    }

    /// The number of rows.
    pub closed spec fn rows(self) -> nat {
        self.height as nat
    }

    /// The colour at column `x` and row `y`.
    pub closed spec fn cell(self, x: int, y: int) -> ValidColor {
        grid_cells(self.grid)[x * self.height + y]
    }

    /// The number of columns.
    pub fn width(&self) -> (r: usize)
        ensures
            r == self.columns(),
    {
        self.width
    }

    /// The number of rows.
    pub fn height(&self) -> (r: usize)
        ensures
            r == self.rows(),
    {
        self.height
    }

    /// The colour at column `x` and row `y`.
    pub fn color_at(&self, x: usize, y: usize) -> (r: ValidColor)
        requires
            x < self.columns(),
            y < self.rows(),
        ensures
            r == self.cell(x as int, y as int),
    {
        proof {
            use_type_invariant(self);
        }
        grid_get(&self.grid, x, y)
    }
}

/// The least `r` with `r * r >= n`.
pub fn ceil_sqrt(n: usize) -> (r: usize)
    ensures
        r * r >= n,
        r == 0 || (r - 1) * (r - 1) < n,
{
    let r = crate::optimize_stk::int_root(n, 2);
    proof {
        reveal_with_fuel(crate::optimize_stk::power, 3);
    }
    if n == 0 {
        return 0;
    }
    assert(r * r <= n);
    assert(n < (r + 1) * (r + 1));
    if r * r < n {
        assert(r + 1 <= usize::MAX) by (nonlinear_arith)
            requires
                r * r < n,
                n <= usize::MAX,
        ;
        r + 1
    } else {
        assert(r >= 1) by (nonlinear_arith)
            requires
                r * r >= n,
                n >= 1,
        ;
        assert((r - 1) * (r - 1) < r * r) by (nonlinear_arith)
            requires
                r >= 1,
        ;
        r
    }
}

/// The measures of a drawing: blocks per row and column, the strip width,
/// the width and height of a block's cell, and of the whole image.
struct Geometry {
    b_width: usize,
    b_height: usize,
    j_width: usize,
    block_w: usize,
    block_h: usize,
    w: usize,
    h: usize,
}

impl Geometry {
    /// The measures fit together: a cell is a strip plus margins wide and
    /// leaves room for the dispatcher rows.
    spec fn ok(self) -> bool {
        &&& self.b_width >= 1
        &&& self.b_height >= 1
        &&& self.j_width >= 1
        &&& self.block_w == self.j_width + 11
        &&& self.block_h >= 32
        &&& self.w == 4 + self.block_w * self.b_width
        &&& self.h == 5 + self.block_h * self.b_height
    }
}

/// Paints one cell when it lies in the grid; `false` when it does not.
fn paint_checked(grid: &mut ColorGrid, x: usize, y: usize, c: ValidColor) -> (r: bool)
    requires
        well_shaped(*old(grid)),
    ensures
        grid_shape(*final(grid)) == grid_shape(*old(grid)),
        well_shaped(*final(grid)),
        r == (x < grid_shape(*old(grid)).0 && y < grid_shape(*old(grid)).1),
        r ==> cell_of(*final(grid), x as int, y as int) == c,
        !r ==> *final(grid) == *old(grid),
        forall|x2: int, y2: int|
            0 <= x2 < grid_shape(*old(grid)).0 && 0 <= y2 < grid_shape(*old(grid)).1 && (x2 != x || y2 != y)
                ==> #[trigger] cell_of(*final(grid), x2, y2) == cell_of(*old(grid), x2, y2),
{
    if x < grid_width(grid) && y < grid_height(grid) {
        put(grid, x, y, c);
        true
    } else {
        false
    }
}

/// The width a grid was made with, by `ArrayBase::dim`.
#[verifier::external_body]
fn grid_width(g: &ColorGrid) -> (r: usize)
    ensures
        r == grid_shape(*g).0,
{
    g.cells.dim().0
}

/// The height a grid was made with, by `ArrayBase::dim`.
#[verifier::external_body]
fn grid_height(g: &ColorGrid) -> (r: usize)
    ensures
        r == grid_shape(*g).1,
{
    g.cells.dim().1
}

/// Paints the cells of `cells` in row `y` from column `x0` on; `false`
/// when one of them falls outside the grid.
fn paint_row_checked(grid: &mut ColorGrid, x0: usize, y: usize, cells: &Vec<ValidColor>) -> (r: bool)
    requires
        well_shaped(*old(grid)),
    ensures
        grid_shape(*final(grid)) == grid_shape(*old(grid)),
        well_shaped(*final(grid)),
        other_rows_kept(*old(grid), *final(grid), y as int),
        forall|x2: int|
            0 <= x2 < grid_shape(*old(grid)).0 && (x2 < x0 || x2 >= x0 + cells@.len()) ==> #[trigger] cell_of(
                *final(grid),
                x2,
                y as int,
            ) == cell_of(*old(grid), x2, y as int),
        r ==> forall|i: int|
            0 <= i < cells@.len() ==> x0 + i < grid_shape(*old(grid)).0 && #[trigger] cell_of(
                *final(grid),
                x0 + i,
                y as int,
            ) == cells@[i],
        r == (cells@.len() == 0 || (y < grid_shape(*old(grid)).1 && x0 + cells@.len() <= grid_shape(*old(grid)).0)),
{
    let mut i: usize = 0;
    while i < cells.len()
        invariant
            i > 0 ==> y < grid_shape(*old(grid)).1,
            grid_shape(*grid) == grid_shape(*old(grid)),
            well_shaped(*grid),
            other_rows_kept(*old(grid), *grid, y as int),
            forall|x2: int|
                0 <= x2 < grid_shape(*old(grid)).0 && (x2 < x0 || x2 >= x0 + cells@.len()) ==> #[trigger] cell_of(
                    *grid,
                    x2,
                    y as int,
                ) == cell_of(*old(grid), x2, y as int),
            i <= cells@.len(),
            forall|k: int|
                0 <= k < i ==> x0 + k < grid_shape(*old(grid)).0 && #[trigger] cell_of(*grid, x0 + k, y as int)
                    == cells@[k],
        decreases cells@.len() - i,
    {
        if x0 > usize::MAX - i {
            return false;
        }
        if !paint_checked(grid, x0 + i, y, cells[i]) {
            return false;
        }
        i = i + 1;
    }
    proof {
        if cells@.len() > 0 {
            let k = cells@.len() - 1;
            assert(cell_of(*grid, x0 + k, y as int) == cells@[k]);
        }
    }
    true
}

/// Paints the cells of `cells` in column `x` from row `y0` on; `false`
/// when one of them falls outside the grid.
fn paint_column_checked(grid: &mut ColorGrid, x: usize, y0: usize, cells: &Vec<ValidColor>) -> (r: bool)
    requires
        well_shaped(*old(grid)),
    ensures
        grid_shape(*final(grid)) == grid_shape(*old(grid)),
        well_shaped(*final(grid)),
        y0 >= 1 ==> row_kept(*old(grid), *final(grid), 0),
        r == (cells@.len() == 0 || (x < grid_shape(*old(grid)).0 && y0 + cells@.len() <= grid_shape(*old(grid)).1)),
        r ==> forall|i: int| 0 <= i < cells@.len() ==> #[trigger] cell_of(*final(grid), x as int, y0 + i) == cells@[i],
        forall|x2: int, y2: int|
            0 <= x2 < grid_shape(*old(grid)).0 && 0 <= y2 < grid_shape(*old(grid)).1 && (x2 != x || y2 < y0 || y2
                >= y0 + cells@.len()) ==> #[trigger] cell_of(*final(grid), x2, y2) == cell_of(*old(grid), x2, y2),
{
    let mut i: usize = 0;
    while i < cells.len()
        invariant
            grid_shape(*grid) == grid_shape(*old(grid)),
            well_shaped(*grid),
            y0 >= 1 ==> row_kept(*old(grid), *grid, 0),
            i <= cells@.len(),
            i > 0 ==> x < grid_shape(*old(grid)).0 && y0 + i <= grid_shape(*old(grid)).1,
            forall|k: int| 0 <= k < i ==> #[trigger] cell_of(*grid, x as int, y0 + k) == cells@[k],
            forall|x2: int, y2: int|
                0 <= x2 < grid_shape(*old(grid)).0 && 0 <= y2 < grid_shape(*old(grid)).1 && (x2 != x || y2 < y0
                    || y2 >= y0 + cells@.len()) ==> #[trigger] cell_of(*grid, x2, y2) == cell_of(*old(grid), x2, y2),
        decreases cells@.len() - i,
    {
        if y0 > usize::MAX - i {
            return false;
        }
        if !paint_checked(grid, x, y0 + i, cells[i]) {
            return false;
        }
        i = i + 1;
    }
    true
}

/// Paints `len` cells of colour `c` in row `y` from column `x0` on.
fn paint_range(grid: &mut ColorGrid, y: usize, x0: usize, len: usize, c: ValidColor)
    requires
        y < grid_shape(*old(grid)).1,
        x0 + len <= grid_shape(*old(grid)).0,
        grid_shape(*old(grid)).0 <= usize::MAX,
        well_shaped(*old(grid)),
    ensures
        grid_shape(*final(grid)) == grid_shape(*old(grid)),
        well_shaped(*final(grid)),
        forall|x: int| x0 <= x < x0 + len ==> #[trigger] cell_of(*final(grid), x, y as int) == c,
        forall|x2: int, y2: int|
            0 <= x2 < grid_shape(*old(grid)).0 && 0 <= y2 < grid_shape(*old(grid)).1 && (y2 != y || x2 < x0 || x2
                >= x0 + len) ==> #[trigger] cell_of(*final(grid), x2, y2) == cell_of(*old(grid), x2, y2),
{
    let end = x0 + len;
    let mut x = x0;
    while x < end
        invariant
            grid_shape(*grid) == grid_shape(*old(grid)),
            well_shaped(*grid),
            y < grid_shape(*grid).1,
            x0 + len <= grid_shape(*grid).0,
            end == x0 + len,
            x0 <= x <= end,
            forall|x1: int| x0 <= x1 < x ==> #[trigger] cell_of(*grid, x1, y as int) == c,
            forall|x2: int, y2: int|
                0 <= x2 < grid_shape(*old(grid)).0 && 0 <= y2 < grid_shape(*old(grid)).1 && (y2 != y || x2 < x0
                    || x2 >= x) ==> #[trigger] cell_of(*grid, x2, y2) == cell_of(*old(grid), x2, y2),
        decreases end - x,
    {
        put(grid, x, y, c);
        x = x + 1;
    }
}

/// Draws a strip left to right from column `start` in row `li`, with the
/// turn that leads down to the next strip.
fn draw_strip_right(grid: &mut ColorGrid, g: &Geometry, start: usize, li: usize, strip: &Vec<ValidColor>)
    requires
        g.ok(),
        grid_shape(*old(grid)) == (g.w as nat, g.h as nat),
        start + g.j_width + 1 <= g.w - 4,
        li + 4 < g.h,
        li >= 1,
        strip@.len() <= g.j_width + 1,
        well_shaped(*old(grid)),
    ensures
        grid_shape(*final(grid)) == grid_shape(*old(grid)),
        well_shaped(*final(grid)),
        row_kept(*old(grid), *final(grid), 0),
        forall|j: int| 0 <= j < strip@.len() ==> #[trigger] cell_of(*final(grid), start + j, li as int) == strip@[j],
        cell_of(*final(grid), start + g.j_width + 1, li as int) == ValidColor::Black,
        cell_of(*final(grid), start + g.j_width, li + 4) == ValidColor::Black,
        forall|x2: int, y2: int|
            0 <= x2 < g.w && 0 <= y2 < g.h && !(y2 == li && start <= x2 < start + strip@.len()) && !(y2 == li
                && x2 == start + g.j_width + 1) && !(y2 == li + 4 && x2 == start + g.j_width) ==> #[trigger] cell_of(
                *final(grid),
                x2,
                y2,
            ) == cell_of(*old(grid), x2, y2),
{
    let jw = g.j_width;
    let mut j: usize = 0;
    while j < strip.len()
        invariant
            grid_shape(*grid) == (g.w as nat, g.h as nat),
            grid_shape(*old(grid)) == (g.w as nat, g.h as nat),
            well_shaped(*grid),
            row_kept(*old(grid), *grid, 0),
            start + jw + 1 <= g.w - 4,
            1 <= li < g.h,
            strip@.len() <= jw + 1,
            j <= strip@.len(),
            forall|k: int| 0 <= k < j ==> #[trigger] cell_of(*grid, start + k, li as int) == strip@[k],
            forall|x2: int, y2: int|
                0 <= x2 < g.w && 0 <= y2 < g.h && !(y2 == li && start <= x2 < start + j) ==> #[trigger] cell_of(
                    *grid,
                    x2,
                    y2,
                ) == cell_of(*old(grid), x2, y2),
        decreases strip@.len() - j,
    {
        put(grid, start + j, li, strip[j]);
        j = j + 1;
    }
    put(grid, start + jw + 1, li, ValidColor::Black);
    put(grid, start + jw, li + 4, ValidColor::Black);
}

/// Draws a strip right to left ending at column `start - 1` in row `li`,
/// with the turn that leads down to the next strip.
/// The black cells of the turn that ends a strip drawn right to left
/// ending at column `start - 1` in row `li`.
pub open spec fn left_turn(start: int, li: int, x: int, y: int) -> bool {
    ||| (x == start - 3 && y == li)
    ||| (x == start - 2 && y == li - 2)
    ||| (x == start - 1 && y == li - 1)
    ||| (x == start - 2 && y == li + 3)
    ||| (x == start - 4 && y == li + 2)
    ||| (x == start - 3 && y == li + 1)
}

fn draw_strip_left(grid: &mut ColorGrid, g: &Geometry, start: usize, li: usize, strip: &Vec<ValidColor>)
    requires
        g.ok(),
        grid_shape(*old(grid)) == (g.w as nat, g.h as nat),
        start >= 10,
        start + g.j_width + 1 <= g.w - 4,
        li >= 3,
        li + 4 < g.h,
        strip@.len() <= g.j_width + 1,
        well_shaped(*old(grid)),
    ensures
        grid_shape(*final(grid)) == grid_shape(*old(grid)),
        well_shaped(*final(grid)),
        row_kept(*old(grid), *final(grid), 0),
        forall|j: int|
            0 <= j < strip@.len() ==> #[trigger] cell_of(*final(grid), start + g.j_width - 1 - j, li as int)
                == strip@[j],
        forall|x: int, y: int| #[trigger] left_turn(start as int, li as int, x, y) ==> cell_of(*final(grid), x, y) == ValidColor::Black,
        forall|x2: int, y2: int|
            0 <= x2 < g.w && 0 <= y2 < g.h && !(y2 == li && start + g.j_width - strip@.len() <= x2 < start
                + g.j_width) && !left_turn(start as int, li as int, x2, y2) ==> #[trigger] cell_of(*final(grid), x2, y2)
                == cell_of(*old(grid), x2, y2),
{
    let jw = g.j_width;
    let mut j: usize = 0;
    while j < strip.len()
        invariant
            grid_shape(*grid) == (g.w as nat, g.h as nat),
            grid_shape(*old(grid)) == (g.w as nat, g.h as nat),
            well_shaped(*grid),
            row_kept(*old(grid), *grid, 0),
            start + jw + 1 <= g.w - 4,
            start >= 10,
            1 <= li < g.h,
            strip@.len() <= jw + 1,
            jw == g.j_width,
            j <= strip@.len(),
            forall|k: int| 0 <= k < j ==> #[trigger] cell_of(*grid, start + jw - 1 - k, li as int) == strip@[k],
            forall|x2: int, y2: int|
                0 <= x2 < g.w && 0 <= y2 < g.h && !(y2 == li && start + jw - j <= x2 < start + jw) ==> #[trigger] cell_of(
                    *grid,
                    x2,
                    y2,
                ) == cell_of(*old(grid), x2, y2),
        decreases strip@.len() - j,
    {
        put(grid, start + jw - 1 - j, li, strip[j]);
        j = j + 1;
    }
    let ghost g1 = *grid;
    put(grid, start - 3, li, ValidColor::Black);
    put(grid, start - 2, li - 2, ValidColor::Black);
    put(grid, start - 1, li - 1, ValidColor::Black);
    put(grid, start - 2, li + 3, ValidColor::Black);
    put(grid, start - 4, li + 2, ValidColor::Black);
    put(grid, start - 3, li + 1, ValidColor::Black);
    proof {
        assert forall|k: int| 0 <= k < strip@.len() implies #[trigger] cell_of(*grid, start + jw - 1 - k, li as int)
            == strip@[k] by {
            assert(cell_of(g1, start + jw - 1 - k, li as int) == strip@[k]);
        }
    }
}

#[verifier::spinoff_prover]
#[verifier::rlimit(60)]
/// Draws one block in its cell of the grid: the dispatcher's entry, then
/// either the end marker (for `term`) or the strips snaking right and left
/// with the turns between them, the branch code, and the exit.
fn draw_block(
    grid: &mut ColorGrid,
    g: &Geometry,
    si: usize,
    is_term: bool,
    strips: &Vec<Vec<ValidColor>>,
    branch: &Vec<ValidColor>,
) -> (r: bool)
    requires
        g.ok(),
        grid_shape(*old(grid)) == (g.w as nat, g.h as nat),
        si < g.b_width * g.b_height,
        forall|k: int| 0 <= k < strips@.len() ==> #[trigger] strips@[k]@.len() <= g.j_width + 1,
        strips@.len() * 5 / 2 + branch@.len() + 32 <= g.block_h,
        branch@.len() != 1,
        well_shaped(*old(grid)),
    ensures
        grid_shape(*final(grid)) == grid_shape(*old(grid)),
        well_shaped(*final(grid)),
        row_kept(*old(grid), *final(grid), 0),
        r,
        entry_drawn(
            *final(grid),
            3 + g.block_w * (si as int % g.b_width as int),
            4 + g.block_h * (si as int / g.b_width as int),
        ),
        kept_outside(
            *old(grid),
            *final(grid),
            3 + g.block_w * (si as int % g.b_width as int),
            3 + g.block_w * (si as int % g.b_width as int) + g.block_w,
            4 + g.block_h * (si as int / g.b_width as int),
            4 + g.block_h * (si as int / g.b_width as int) + g.block_h,
        ),
        !is_term ==> arm_at(
            *final(grid),
            g.b_width as int,
            g.block_w as int,
            g.block_h as int,
            g.j_width as int,
            si as int,
            strips@.len() as int,
            branch@,
        ),
{
    let bw = g.b_width;
    let bh = g.b_height;
    let tbw = g.block_w;
    let tbh = g.block_h;
    let jw = g.j_width;
    let col = si % bw;
    let row = si / bw;
    proof {
        assert(row < bh) by (nonlinear_arith)
            requires
                si < bw * bh,
                row == si / bw,
                bw >= 1,
        ;
        assert(tbw * col + tbw <= tbw * bw) by (nonlinear_arith)
            requires
                col < bw,
                tbw >= 0,
        ;
        assert(tbh * row + tbh <= tbh * bh) by (nonlinear_arith)
            requires
                row < bh,
                tbh >= 0,
        ;
    }
    let start = 10 + tbw * col;
    let li0 = 7 + tbh * row;
    let pp = pointer_code();
    let pop = pointer_pop_cell();
    proof {
        lemma_code_colors_len_unit(pointer_ops());
        assert(tbw * col + tbw <= tbw * bw);
    }
    let ghost x_lo = start - 7;
    let ghost x_hi = start + jw + 4;
    let ghost y_lo = li0 - 3;
    let ghost y_hi = tbh * row + tbh + 4;
    if !paint_row_checked(grid, start - 7, li0 - 3, &pp) {
        return false;
    }
    let ghost ex = start - 7;
    let ghost ey = li0 - 3;
    proof {
        assert forall|i: int| 0 <= i < 9 implies #[trigger] cell_of(*grid, ex + i, ey) == code_colors(pointer_ops())[i] by {
            assert(cell_of(*grid, (start - 7) + i, (li0 - 3) as int) == pp@[i]);
        }
    }
    if !paint_checked(grid, start - 1, li0 - 2, pop) {
        return false;
    }
    if is_term {
        put(grid, start - 2, li0 + 1, ValidColor::Red);
        put(grid, start - 1, li0 + 1, ValidColor::Red);
        put(grid, start, li0 + 1, ValidColor::Red);
        put(grid, start - 1, li0 + 2, ValidColor::Red);
        put(grid, start - 2, li0, ValidColor::Black);
        put(grid, start, li0, ValidColor::Black);
        put(grid, start - 3, li0 + 1, ValidColor::Black);
        put(grid, start + 1, li0 + 1, ValidColor::Black);
        put(grid, start - 2, li0 + 2, ValidColor::Black);
        put(grid, start, li0 + 2, ValidColor::Black);
        put(grid, start - 1, li0 + 3, ValidColor::Black);
        return true;
    }
    put(grid, start - 1, li0 + 1, ValidColor::Black);
    put(grid, start - 3, li0, ValidColor::Black);
    put(grid, start - 2, li0 - 1, ValidColor::Black);
    let mut li = li0;
    let mut going_right = true;
    let mut k: usize = 0;
    let ghost top = tbh * row + tbh;
    let ghost count = strips@.len();
    while k < strips.len()
        invariant
            grid_shape(*grid) == (g.w as nat, g.h as nat),
            grid_shape(*old(grid)) == (g.w as nat, g.h as nat),
            well_shaped(*grid),
            row_kept(*old(grid), *grid, 0),
            g.ok(),
            start >= 10,
            start + jw + 1 <= g.w - 4,
            jw == g.j_width,
            top <= g.h - 5,
            li0 + count * 5 / 2 + branch@.len() + 25 <= top,
            count == strips@.len(),
            forall|m: int| 0 <= m < strips@.len() ==> #[trigger] strips@[m]@.len() <= g.j_width + 1,
            k <= count,
            li0 >= 7,
            li0 <= li <= li0 + (5 * k + 1) / 2,
            li == li0 + (5 * k + 1) / 2,
            going_right == (k % 2 == 0),
            !going_right ==> li >= li0 + 3,
            ex == start - 7,
            ey == li0 - 3,
            entry_drawn(*grid, ex, ey),
            x_lo == start - 7,
            x_hi == start + jw + 4,
            y_lo == li0 - 3,
            y_hi == top + 4,
            kept_outside(*old(grid), *grid, x_lo, x_hi, y_lo, y_hi),
        decreases count - k,
    {
        let strip = &strips[k];
        assert(strip@.len() <= jw + 1);
        if going_right {
            draw_strip_right(grid, g, start, li, strip);
            li = li + 3;
        } else {
            draw_strip_left(grid, g, start, li, strip);
            li = li + 2;
        }
        going_right = !going_right;
        k = k + 1;
    }
    if branch.len() > 0 {
        let mut j: usize = 0;
        while j < branch.len() - 2
            invariant
                grid_shape(*grid) == (g.w as nat, g.h as nat),
                grid_shape(*old(grid)) == (g.w as nat, g.h as nat),
                well_shaped(*grid),
                row_kept(*old(grid), *grid, 0),
                g.ok(),
                start + 1 < g.w,
                li >= 3,
                li >= li0,
                li0 >= 7,
                ey == li0 - 3,
                ex == start - 7,
                start >= 10,
                entry_drawn(*grid, ex, ey),
                x_lo == start - 7,
                x_hi == start + jw + 4,
                y_lo == li0 - 3,
                li - 2 + branch@.len() - 2 <= y_hi,
                jw == g.j_width,
                kept_outside(*old(grid), *grid, x_lo, x_hi, y_lo, y_hi),
                branch@.len() >= 2,
                li - 2 + branch@.len() - 2 <= g.h,
                j <= branch@.len() - 2,
                forall|q: int| 0 <= q < j ==> #[trigger] cell_of(*grid, start + 1, li - 2 + q) == branch@[q + 2],
            decreases branch@.len() - j,
        {
            let ghost g1 = *grid;
            put(grid, start + 1, li - 2 + j, branch[j + 2]);
            proof {
                assert forall|q: int| 0 <= q < j + 1 implies #[trigger] cell_of(*grid, start + 1, li - 2 + q)
                    == branch@[q + 2] by {
                    if q < j {
                        assert(cell_of(g1, start + 1, li - 2 + q) == branch@[q + 2]);
                    }
                }
            }
            j = j + 1;
        }
    }
    let ghost g2 = *grid;
    if !going_right {
        put(grid, start + jw, li + 1, ValidColor::White);
    } else {
        put(grid, start - 2, li + 1, ValidColor::White);
    }
    proof {
        assert(li == li0 + (5 * count + 1) / 2);
        assert(going_right == (count % 2 == 0));
        if branch@.len() > 0 {
            assert forall|q: int|
                0 <= q < branch@.len() - 2 && !(count % 2 == 1 && jw == 1 && q == 3) implies #[trigger] cell_of(
                *grid,
                start + 1,
                li - 2 + q,
            ) == branch@[q + 2] by {
                assert(cell_of(g2, start + 1, li - 2 + q) == branch@[q + 2]);
            }
        }
    }
    true
}

/// The commands run on entry to a block, as views.
pub open spec fn pointer_ops() -> Seq<Op> {
    seq![Op::Dup, Op::Push(1), Op::Not, Op::Greater, Op::Not, Op::Pointer, Op::Push(1), Op::Sub]
}

/// The entry commands that pop where the block's own entry counts down.
pub open spec fn pointer_pop_ops() -> Seq<Op> {
    seq![Op::Dup, Op::Push(1), Op::Not, Op::Greater, Op::Not, Op::Pointer, Op::Pop]
}

/// Where no command is `nop` and every push pushes 1, each command adds
/// exactly one cell to a row.
proof fn lemma_code_colors_len_unit(os: Seq<Op>)
    requires
        forall|i: int| 0 <= i < os.len() ==> !(#[trigger] os[i] is Nop) && (os[i] matches Op::Push(v) ==> v == 1),
    ensures
        code_colors(os).len() == os.len() + 1,
    decreases os.len(),
{
    if os.len() > 0 {
        let q = os.drop_last();
        assert forall|i: int| 0 <= i < q.len() implies !(#[trigger] q[i] is Nop) && (q[i] matches Op::Push(v) ==> v == 1) by {
            assert(q[i] == os[i]);
        }
        lemma_code_colors_len_unit(q);
        assert(os.last() == os[os.len() - 1]);
    }
}

/// Each command adds at least one cell to a row.
proof fn lemma_code_colors_len(os: Seq<Op>)
    ensures
        code_colors(os).len() >= os.len() + 1,
    decreases os.len(),
{
    if os.len() > 0 {
        lemma_code_colors_len(os.drop_last());
    }
}

/// The commands run on entry to a block: compare the block number with
/// zero, turn the pointer accordingly, and count down.
fn pointer_commands() -> (r: Vec<CMD>)
    ensures
        forall|i: int| 0 <= i < r@.len() ==> drawable(#[trigger] r@[i]@),
        ops(r@) == pointer_ops(),
{
    let mut v: Vec<CMD> = Vec::new();
    v.push(CMD::Dup);
    v.push(CMD::Push(Integer::from_i64(1)));
    v.push(CMD::Not);
    v.push(CMD::Greater);
    v.push(CMD::Not);
    v.push(CMD::Pointer);
    v.push(CMD::Push(Integer::from_i64(1)));
    v.push(CMD::Sub);
    assert(ops(v@) =~= pointer_ops());
    v
}

/// The colours of commands run in order, after a red cell.
fn code_row(cmds: &Vec<CMD>) -> (r: Vec<ValidColor>)
    requires
        forall|i: int| 0 <= i < cmds@.len() ==> drawable(#[trigger] cmds@[i]@),
    ensures
        r@ == code_colors(cmds@.map_values(|c: CMD| c@)),
{
    let ghost os = cmds@.map_values(|c: CMD| c@);
    let mut out: Vec<ValidColor> = Vec::new();
    out.push(ValidColor::Red);
    let mut i: usize = 0;
    assert(os.take(0) =~= Seq::<Op>::empty());
    while i < cmds.len()
        invariant
            i <= cmds@.len(),
            os == cmds@.map_values(|c: CMD| c@),
            forall|k: int| 0 <= k < cmds@.len() ==> drawable(#[trigger] cmds@[k]@),
            out@ == code_colors(os.take(i as int)),
        decreases cmds@.len() - i,
    {
        proof {
            lemma_code_colors_end(os.take(i as int));
            assert(os.take(i + 1).drop_last() =~= os.take(i as int));
            assert(os.take(i + 1).last() == cmds@[i as int]@);
        }
        index_and_command_to_color_and_next_index(cmds[i].copy(), &mut out);
        i = i + 1;
    }
    assert(os.take(i as int) =~= os);
    out
}

/// The entry code's colours.
fn pointer_code() -> (r: Vec<ValidColor>)
    ensures
        r@ == code_colors(pointer_ops()),
{
    let cmds = pointer_commands();
    assert(cmds@.map_values(|c: CMD| c@) =~= ops(cmds@));
    code_row(&cmds)
}

/// The cell after the pointer turn when the entry code pops instead of
/// counting down.
fn pointer_pop_cell() -> (r: ValidColor)
    ensures
        r == code_colors(pointer_pop_ops())[7],
{
    let mut cmds: Vec<CMD> = Vec::new();
    cmds.push(CMD::Dup);
    cmds.push(CMD::Push(Integer::from_i64(1)));
    cmds.push(CMD::Not);
    cmds.push(CMD::Greater);
    cmds.push(CMD::Not);
    cmds.push(CMD::Pointer);
    cmds.push(CMD::Pop);
    proof {
        assert(cmds@.map_values(|c: CMD| c@) =~= pointer_pop_ops());
        lemma_code_colors_len(pointer_pop_ops());
    }
    let row = code_row(&cmds);
    if row.len() > 7 {
        row[7]
    } else {
        ValidColor::White
    }
}

/// The commands that push block number `id`, as statements.
fn goto_block_coord(optimizer: &mut StackOptimizer, id: usize, fuel: usize) -> (r: Option<Vec<CMD>>)
    requires
        old(optimizer).wf(),
    ensures
        final(optimizer).wf(),
        r matches Some(cs) ==> runs_cleanly(ops(cs@), seq![]) && run_ops(ops(cs@), seq![]) == seq![id as int]
            && small_pushes(ops(cs@)),
        id <= 173 && old(optimizer).found(seq![id as int]) ==> (r matches Some(cs) && old(optimizer).recorded(
            seq![id as int],
            ops(cs@),
        )),
        forall|s: Seq<int>| #[trigger] old(optimizer).found(s) ==> final(optimizer).found(s),
        forall|s: Seq<int>, os: Seq<Op>| #[trigger] old(optimizer).recorded(s, os) ==> final(optimizer).recorded(s, os),
        forall|s: Seq<int>, os: Seq<Op>|
            old(optimizer).found(s) && #[trigger] final(optimizer).recorded(s, os) ==> old(optimizer).recorded(s, os),
        r is Some,
{
    optimizer.optimize_number(id, fuel)
}

/// Commands with small pushes can all be drawn.
proof fn lemma_small_pushes_drawable(cs: Seq<CMD>)
    requires
        small_pushes(ops(cs)),
    ensures
        forall|i: int| 0 <= i < cs.len() ==> drawable(#[trigger] cs[i]@),
{
    assert forall|i: int| 0 <= i < cs.len() implies drawable(#[trigger] cs[i]@) by {
        assert(ops(cs)[i] == cs[i]@);
    }
}

/// Whether every jump and branch among the statements names a block that
/// `index` numbers.
pub open spec fn jumps_numbered(ss: Seq<Stmt>, index: Seq<(Seq<char>, usize)>) -> bool {
    forall|j: int|
        0 <= j < ss.len() ==> match #[trigger] ss[j] {
            Stmt::Goto(l) => has_name(index, l),
            Stmt::Branch(a, b) => has_name(index, a) && has_name(index, b),
            _ => true,
        }
}

/// Where every jump of the statements `ss` stands among statements `orig`
/// whose jumps are numbered, the block's exit names numbered blocks.
proof fn lemma_exit_numbered(ss: Seq<Stmt>, orig: Seq<Stmt>, index: Seq<(Seq<char>, usize)>)
    requires
        jumps_numbered(orig, index),
        forall|j: int|
            0 <= j < ss.len() && !(#[trigger] ss[j] is Instr) ==> exists|i: int| 0 <= i < orig.len() && #[trigger] orig[i] == ss[j],
    ensures
        match exit_of(ss) {
            BlockExit::Goto(l) => has_name(index, l),
            BlockExit::Branch(a, b) => has_name(index, a) && has_name(index, b),
            _ => true,
        },
{
    let k = first_exit(ss) as int;
    if k < ss.len() {
        match ss[k] {
            Stmt::Goto(_) | Stmt::Branch(_, _) => {
                let i = choose|i: int| 0 <= i < orig.len() && #[trigger] orig[i] == ss[k];
                assert(orig[i] == ss[k]);
            },
            _ => {},
        }
    }
}

/// Whether statement `st`, if a push, pushes a value whose magnitude fits
/// a `usize`.
pub open spec fn push_fits(st: Stmt) -> bool {
    match st {
        Stmt::Instr(Op::Push(v)) => -(usize::MAX as int) <= v <= usize::MAX,
        _ => true,
    }
}

/// The statements of a block with every push replaced by commands that
/// push the same value with pushes of 1 to 5 only: `0` as `1, not`, a
/// negative value as `0` minus its magnitude. `None` exactly when a pushed
/// value's magnitude is beyond `usize`.
fn rewrite_pushes(body: &Vec<Expr>, optimizer: &mut StackOptimizer, fuel: usize) -> (r: Option<Vec<Expr>>)
    requires
        old(optimizer).wf(),
    ensures
        final(optimizer).wf(),
        r matches Some(nb) ==> block_drawable(stmts(nb@)),
        r is Some <==> forall|i: int| 0 <= i < body@.len() ==> push_fits(#[trigger] body@[i]@),
        forall|s: Seq<int>| #[trigger] old(optimizer).found(s) ==> final(optimizer).found(s),
        r matches Some(nb) ==> forall|j: int|
            0 <= j < nb@.len() && !(#[trigger] stmts(nb@)[j] is Instr) ==> exists|i: int|
                0 <= i < body@.len() && #[trigger] stmts(body@)[i] == stmts(nb@)[j],
{
    let mut nb: Vec<Expr> = Vec::new();
    let mut i: usize = 0;

    while i < body.len()
        invariant
            optimizer.wf(),
            block_drawable(stmts(nb@)),
            forall|i2: int| 0 <= i2 < i ==> push_fits(#[trigger] body@[i2]@),
            forall|s: Seq<int>| #[trigger] old(optimizer).found(s) ==> optimizer.found(s),
            i <= body@.len(),
            forall|j: int|
                0 <= j < nb@.len() && !(#[trigger] stmts(nb@)[j] is Instr) ==> exists|i2: int|
                    0 <= i2 < i && #[trigger] stmts(body@)[i2] == stmts(nb@)[j],
        decreases body@.len() - i,
    {
        let mut piece: Vec<CMD> = Vec::new();
        let mut keep = false;
        match &body[i] {
            Expr::Instr(CMD::Push(n)) => {
                let zero = Integer::from_i64(0);
                if n.equals(&zero) {
                    piece.push(CMD::Push(Integer::from_i64(1)));
                    piece.push(CMD::Not);
                } else if n.less_than(&zero) {
                    let m = match zero.sub(n).to_usize() {
                        Some(m) => m,
                        None => {
                            assert(!push_fits(body@[i as int]@));
                            return None;
                        },
                    };
                    let code = match optimizer.optimize_number(m, fuel) {
                        Some(c) => c,
                        None => {
                            return None;
                        },
                    };
                    proof {
                        lemma_small_pushes_drawable(code@);
                    }
                    piece.push(CMD::Push(Integer::from_i64(1)));
                    piece.push(CMD::Not);
                    let mut k: usize = 0;
                    while k < code.len()
                        invariant
                            forall|q: int| 0 <= q < code@.len() ==> drawable(#[trigger] code@[q]@),
                            forall|q: int| 0 <= q < piece@.len() ==> drawable(#[trigger] piece@[q]@),
                        decreases code@.len() - k,
                    {
                        piece.push(code[k].copy());
                        k = k + 1;
                    }
                    piece.push(CMD::Sub);
                } else {
                    let m = match n.to_usize() {
                        Some(m) => m,
                        None => {
                            assert(!push_fits(body@[i as int]@));
                            return None;
                        },
                    };
                    let code = match optimizer.optimize_number(m, fuel) {
                        Some(c) => c,
                        None => {
                            return None;
                        },
                    };
                    proof {
                        lemma_small_pushes_drawable(code@);
                    }
                    piece = code;
                }
            },
            _ => {
                keep = true;
            },
        }
        if keep {
            let e = body[i].copy();
            proof {
                assert(!(e@ matches Stmt::Instr(Op::Push(_))));
            }
            let ghost n0 = stmts(nb@);
            nb.push(e);
            proof {
                assert(stmts(nb@) =~= n0.push(e@));
                assert forall|q: int| 0 <= q < stmts(nb@).len() implies (#[trigger] stmts(nb@)[q] matches Stmt::Instr(op) ==> drawable(op)) by {
                    if q < n0.len() {
                        assert(stmts(nb@)[q] == n0[q]);
                    }
                }
                assert forall|j: int|
                    0 <= j < nb@.len() && !(#[trigger] stmts(nb@)[j] is Instr) implies exists|i2: int|
                        0 <= i2 < i + 1 && #[trigger] stmts(body@)[i2] == stmts(nb@)[j] by {
                    if j < n0.len() {
                        assert(stmts(nb@)[j] == n0[j]);
                        let i2 = choose|i2: int| 0 <= i2 < i && #[trigger] stmts(body@)[i2] == n0[j];
                        assert(stmts(body@)[i2] == stmts(nb@)[j]);
                    } else {
                        assert(stmts(body@)[i as int] == stmts(nb@)[j]);
                    }
                }
            }
        } else {
            let mut k: usize = 0;
            while k < piece.len()
                invariant
                    block_drawable(stmts(nb@)),
                    forall|q: int| 0 <= q < piece@.len() ==> drawable(#[trigger] piece@[q]@),
                    i < body@.len(),
                    forall|j: int|
                        0 <= j < nb@.len() && !(#[trigger] stmts(nb@)[j] is Instr) ==> exists|i2: int|
                            0 <= i2 < i && #[trigger] stmts(body@)[i2] == stmts(nb@)[j],
                decreases piece@.len() - k,
            {
                let ghost n0 = stmts(nb@);
                let c = piece[k].copy();
                assert(drawable(c@));
                nb.push(Expr::Instr(c));
                proof {
                    assert(stmts(nb@) =~= n0.push(Stmt::Instr(c@)));
                    assert forall|q: int| 0 <= q < stmts(nb@).len() implies (#[trigger] stmts(nb@)[q] matches Stmt::Instr(op) ==> drawable(op)) by {
                        if q < n0.len() {
                            assert(stmts(nb@)[q] == n0[q]);
                        }
                    }
                    assert forall|j: int|
                        0 <= j < nb@.len() && !(#[trigger] stmts(nb@)[j] is Instr) implies exists|i2: int|
                            0 <= i2 < i && #[trigger] stmts(body@)[i2] == stmts(nb@)[j] by {
                        assert(stmts(nb@)[j] == n0[j]);
                    }
                }
                k = k + 1;
            }
        }
        i = i + 1;
    }
    Some(nb)
}

/// The commands of a branch arm: turn the pointer, leave the colour block,
/// and push the target's number.
fn branch_arm(coord: &Vec<CMD>) -> (r: Vec<CMD>)
    requires
        forall|q: int| 0 <= q < coord@.len() ==> drawable(#[trigger] coord@[q]@),
    ensures
        forall|q: int| 0 <= q < r@.len() ==> drawable(#[trigger] r@[q]@),
        ops(r@) == seq![Op::Pointer, Op::Nop] + ops(coord@),
{
    let mut v: Vec<CMD> = Vec::new();
    v.push(CMD::Pointer);
    v.push(CMD::Nop);
    let mut k: usize = 0;
    assert(ops(v@) =~= seq![Op::Pointer, Op::Nop] + ops(coord@).take(0));
    while k < coord.len()
        invariant
            forall|q: int| 0 <= q < coord@.len() ==> drawable(#[trigger] coord@[q]@),
            forall|q: int| 0 <= q < v@.len() ==> drawable(#[trigger] v@[q]@),
            k <= coord@.len(),
            ops(v@) == seq![Op::Pointer, Op::Nop] + ops(coord@).take(k as int),
        decreases coord@.len() - k,
    {
        let ghost v0 = v@;
        v.push(coord[k].copy());
        assert(ops(v@) =~= ops(v0).push(coord@[k as int]@));
        k = k + 1;
        assert(ops(v@) =~= seq![Op::Pointer, Op::Nop] + ops(coord@).take(k as int));
    }
    assert(ops(coord@).take(k as int) =~= ops(coord@));
    v
}

/// Appends the strips of `more` to `strips`.
fn append_strips(strips: &mut Vec<Vec<ValidColor>>, more: Vec<Vec<ValidColor>>)
    ensures
        final(strips)@ == old(strips)@ + more@,
{
    let mut more = more;
    strips.append(&mut more);
}

/// Whether `b` is the least number whose square is at least `n`.
pub open spec fn is_ceil_sqrt(b: nat, n: nat) -> bool {
    b * b >= n && (b == 0 || (b - 1) * (b - 1) < n)
}

/// The number of grid rows for `n` cells, `b` to a row.
pub open spec fn grid_rows(b: nat, n: nat) -> nat {
    if b == 0 {
        0
    } else {
        ((n - 1) / (b as int) + 1) as nat
    }
}

/// The strip width for a grid `b` cells wide and `rows` high: 70, or a
/// fifth of the larger side when that is more.
pub open spec fn strip_width(b: nat, rows: nat) -> nat {
    let larger = if b > rows {
        b
    } else {
        rows
    };
    if 70 > larger / 5 {
        70
    } else {
        larger / 5
    }
}

/// The width of the image for blocks `b_width` to a row and strips
/// `j_width` wide.
pub open spec fn image_width(b_width: nat, j_width: nat) -> nat {
    4 + (j_width + 11) * b_width
}

/// Commands that, run on an empty stack, leave exactly `id` on it.
pub open spec fn pushes_exactly(os: Seq<Op>, id: int) -> bool {
    runs_cleanly(os, seq![]) && run_ops(os, seq![]) == seq![id]
}

/// The top row of `img` begins, at its left end, with the colours of `os`.
pub open spec fn top_row_starts_with(img: PietImage, os: Seq<Op>) -> bool {
    &&& code_colors(os).len() <= img.columns()
    &&& img.rows() >= 1
    &&& forall|x: int| 0 <= x < code_colors(os).len() ==> #[trigger] img.cell(x, 0) == code_colors(os)[x]
}

/// A Piet program starts at the top left cell of its image; there `img`
/// holds the colours of commands that push the number that `index` gives
/// the block named `main`.
pub open spec fn enters_main(img: PietImage, index: Seq<(Seq<char>, usize)>) -> bool {
    exists|i: int, os: Seq<Op>|
        #![trigger index[i], top_row_starts_with(img, os)]
        0 <= i < index.len() && index[i].0 == seq!['m', 'a', 'i', 'n'] && pushes_exactly(os, index[i].1 as int)
            && top_row_starts_with(img, os)
}

/// Every cell of `b` outside columns `x_lo..x_hi` by rows `y_lo..y_hi` is
/// as in `a`.
pub open spec fn kept_outside(a: ColorGrid, b: ColorGrid, x_lo: int, x_hi: int, y_lo: int, y_hi: int) -> bool {
    forall|x2: int, y2: int|
        0 <= x2 < grid_shape(a).0 && 0 <= y2 < grid_shape(a).1 && !(x_lo <= x2 < x_hi && y_lo <= y2 < y_hi)
            ==> #[trigger] cell_of(b, x2, y2) == cell_of(a, x2, y2)
}

/// `img` is the grid `arr` (`w` by `h`) with each all-white row that an
/// all-white row follows removed, the other rows kept in order.
pub open spec fn compacted(img: PietImage, arr: ColorGrid, w: int, h: int) -> bool {
    &&& grid_shape(arr) == (w as nat, h as nat)
    &&& img.columns() == w
    &&& img.rows() == h - count_set(dropped_rows(arr, w, h), h)
    &&& forall|y: int, x: int|
        0 <= y < h && 0 <= x < w && !dropped_rows(arr, w, h)[y] ==> #[trigger] img.cell(
            x,
            y - count_set(dropped_rows(arr, w, h), y),
        ) == #[trigger] cell_of(arr, x, y)
}

/// `img` is a grid compacted (see `compacted`) that is `image_width` wide
/// and `(max_need + 32) * b_height + 5` high, in which, when `index` has
/// no name twice (`distinct`), the entry code of every block whose number
/// no other block shares stands in that number's cell, and, but for the
/// block `term`, its branch code below its strips (see `arm_at`).
pub open spec fn drawn_from(
    img: PietImage,
    b_width: int,
    b_height: int,
    finals: Seq<(Seq<char>, (Vec<Vec<ValidColor>>, Vec<ValidColor>))>,
    index: Seq<(Seq<char>, usize)>,
    distinct: bool,
    j_width: int,
) -> bool {
    exists|arr: ColorGrid|
        #[trigger] compacted(img, arr, 4 + (j_width + 11) * b_width, (max_need(finals) + 32) * b_height + 5) && (
        distinct ==> forall|k: int|
            0 <= k < finals.len() && number_unique(finals, index, k) ==> (lookup(index, #[trigger] finals[k].0) matches Some(
                si,
            ) && entry_at(arr, b_width, j_width + 11, max_need(finals) + 32, si as int) && (finals[k].0
                != term_label() ==> arm_at(
                arr,
                b_width,
                j_width + 11,
                max_need(finals) + 32,
                j_width,
                si as int,
                finals[k].1.0@.len() as int,
                finals[k].1.1@,
            ))))
}

/// A cell of a block's branch code lies in that block's cell of the grid,
/// and in the grid.
proof fn lemma_arm_in_cell(si: int, bw: int, bh: int, tbw: int, tbh: int, count: int, blen: int, j: int)
    requires
        0 <= si < bw * bh,
        bw >= 1,
        tbw >= 12,
        count >= 0,
        count * 5 / 2 + blen + 32 <= tbh,
        0 <= j < blen - 2,
    ensures
        3 + tbw * (si % bw) <= 10 + tbw * (si % bw) + 1 < 3 + tbw * (si % bw) + tbw,
        4 + tbh * (si / bw) <= 7 + tbh * (si / bw) + (5 * count + 1) / 2 - 2 + j < 4 + tbh * (si / bw) + tbh,
        10 + tbw * (si % bw) + 1 < 4 + tbw * bw,
        7 + tbh * (si / bw) + (5 * count + 1) / 2 - 2 + j < 5 + tbh * bh,
        0 <= tbw * (si % bw),
        0 <= tbh * (si / bw),
{
    let c = si % bw;
    let r = si / bw;
    assert(0 <= c < bw && 0 <= r < bh) by (nonlinear_arith)
        requires
            bw >= 1,
            0 <= si < bw * bh,
            c == si % bw,
            r == si / bw,
    ;
    assert(tbw * c + tbw <= tbw * bw && 0 <= tbw * c) by (nonlinear_arith)
        requires
            0 <= c < bw,
            tbw >= 1,
    ;
    assert(tbh * r + tbh <= tbh * bh && 0 <= tbh * r) by (nonlinear_arith)
        requires
            0 <= r < bh,
            tbh >= 1,
    ;
}

/// A point in the cell of one block lies outside the cell of another.
proof fn lemma_cells_apart(s1: int, s2: int, bw: int, tbw: int, tbh: int, x: int, y: int)
    requires
        0 <= s1,
        0 <= s2,
        s1 != s2,
        bw >= 1,
        tbw >= 1,
        tbh >= 1,
        3 + tbw * (s1 % bw) <= x < 3 + tbw * (s1 % bw) + tbw,
        4 + tbh * (s1 / bw) <= y < 4 + tbh * (s1 / bw) + tbh,
    ensures
        !(3 + tbw * (s2 % bw) <= x < 3 + tbw * (s2 % bw) + tbw && 4 + tbh * (s2 / bw) <= y < 4 + tbh * (s2
            / bw) + tbh),
{
    let c1 = s1 % bw;
    let c2 = s2 % bw;
    let r1 = s1 / bw;
    let r2 = s2 / bw;
    assert(s1 == r1 * bw + c1 && s2 == r2 * bw + c2 && 0 <= c1 < bw && 0 <= c2 < bw) by (nonlinear_arith)
        requires
            bw >= 1,
            c1 == s1 % bw,
            c2 == s2 % bw,
            r1 == s1 / bw,
            r2 == s2 / bw,
    ;
    if r1 < r2 {
        assert(tbh * r1 + tbh <= tbh * r2) by (nonlinear_arith)
            requires
                r1 + 1 <= r2,
                tbh >= 1,
        ;
    } else if r2 < r1 {
        assert(tbh * r2 + tbh <= tbh * r1) by (nonlinear_arith)
            requires
                r2 + 1 <= r1,
                tbh >= 1,
        ;
    } else {
        assert(c1 != c2);
        if c1 < c2 {
            assert(tbw * c1 + tbw <= tbw * c2) by (nonlinear_arith)
                requires
                    c1 + 1 <= c2,
                    tbw >= 1,
            ;
        } else {
            assert(tbw * c2 + tbw <= tbw * c1) by (nonlinear_arith)
                requires
                    c2 + 1 <= c1,
                    tbw >= 1,
            ;
        }
    }
}

/// Whether no other block of `finals` has the number `index` gives block
/// `k`.
pub open spec fn number_unique(
    finals: Seq<(Seq<char>, (Vec<Vec<ValidColor>>, Vec<ValidColor>))>,
    index: Seq<(Seq<char>, usize)>,
    k: int,
) -> bool {
    forall|q: int| 0 <= q < finals.len() && q != k ==> lookup(index, #[trigger] finals[q].0) != lookup(index, finals[k].0)
}

/// The entry code of block number `si` stands in its cell of a grid with
/// cells `block_w` by `block_h`, `b_width` to a row.
pub open spec fn entry_at(grid: ColorGrid, b_width: int, block_w: int, block_h: int, si: int) -> bool {
    entry_drawn(grid, 3 + block_w * (si % b_width), 4 + block_h * (si / b_width))
}

/// The branch code of a block stands below its strips: `branch[j + 2]` in
/// column `start + 1` from row `li - 2` on, where `start` is the block's
/// first strip column, `li` the row after its last strip and `count` the
/// number of strips. When the strips end going left and are one cell wide,
/// the exit mark is painted last, over the fourth of those cells.
pub open spec fn arm_drawn(grid: ColorGrid, start: int, li: int, count: int, j_width: int, branch: Seq<ValidColor>) -> bool {
    branch.len() > 0 ==> forall|j: int|
        0 <= j < branch.len() - 2 && !(count % 2 == 1 && j_width == 1 && j == 3) ==> #[trigger] cell_of(
            grid,
            start + 1,
            li - 2 + j,
        ) == branch[j + 2]
}

/// The branch code of block number `si`, with `count` strips, stands in its
/// cell of a grid with cells `block_w` by `block_h`, `b_width` to a row
/// (see `arm_drawn`).
pub open spec fn arm_at(
    grid: ColorGrid,
    b_width: int,
    block_w: int,
    block_h: int,
    j_width: int,
    si: int,
    count: int,
    branch: Seq<ValidColor>,
) -> bool {
    arm_drawn(
        grid,
        10 + block_w * (si % b_width),
        7 + block_h * (si / b_width) + (5 * count + 1) / 2,
        count,
        j_width,
        branch,
    )
}

/// The entry code of one block lies outside the cell of another.
proof fn lemma_entry_outside(s1: int, s2: int, bw: int, bw_cells: int, tbw: int, tbh: int, i: int)
    requires
        0 <= s1,
        0 <= s2,
        s1 != s2,
        bw >= 1,
        tbw >= 12,
        tbh >= 1,
        0 <= i < 9,
    ensures
        !(3 + tbw * (s2 % bw) <= 3 + tbw * (s1 % bw) + i < 3 + tbw * (s2 % bw) + tbw && 4 + tbh * (s2 / bw)
            <= 4 + tbh * (s1 / bw) < 4 + tbh * (s2 / bw) + tbh),
{
    let c1 = s1 % bw;
    let c2 = s2 % bw;
    let r1 = s1 / bw;
    let r2 = s2 / bw;
    assert(s1 == r1 * bw + c1 && s2 == r2 * bw + c2 && 0 <= c1 < bw && 0 <= c2 < bw) by (nonlinear_arith)
        requires
            bw >= 1,
            c1 == s1 % bw,
            c2 == s2 % bw,
            r1 == s1 / bw,
            r2 == s2 / bw,
    ;
    if r1 < r2 {
        assert(tbh * r1 + tbh <= tbh * r2) by (nonlinear_arith)
            requires
                r1 + 1 <= r2,
                tbh >= 1,
        ;
    } else if r2 < r1 {
        assert(tbh * r2 + tbh <= tbh * r1) by (nonlinear_arith)
            requires
                r2 + 1 <= r1,
                tbh >= 1,
        ;
    } else {
        assert(c1 != c2);
        if c1 < c2 {
            assert(tbw * c1 + tbw <= tbw * c2) by (nonlinear_arith)
                requires
                    c1 + 1 <= c2,
                    tbw >= 1,
            ;
        } else {
            assert(tbw * c2 + tbw <= tbw * c1) by (nonlinear_arith)
                requires
                    c2 + 1 <= c1,
                    tbw >= 1,
            ;
        }
    }
}

/// The height of the grid blocks are drawn in, before compaction.
pub open spec fn arr_height(finals: Seq<(Seq<char>, (Vec<Vec<ValidColor>>, Vec<ValidColor>))>, b_height: int) -> int {
    (max_need(finals) + 32) * b_height + 5
}

/// The entry code of a block numbered below `b_width * b_height` lies in
/// the grid.
proof fn lemma_entry_in_grid(si: int, bw: int, bh: int, tbw: int, tbh: int, i: int)
    requires
        0 <= si < bw * bh,
        bw >= 1,
        tbw >= 12,
        tbh >= 1,
        0 <= i < 9,
    ensures
        0 <= 3 + tbw * (si % bw) + i < 4 + tbw * bw,
        0 <= 4 + tbh * (si / bw) < 5 + tbh * bh,
{
    let c = si % bw;
    let r = si / bw;
    assert(0 <= c < bw && 0 <= r < bh) by (nonlinear_arith)
        requires
            bw >= 1,
            0 <= si < bw * bh,
            c == si % bw,
            r == si / bw,
    ;
    assert(tbw * c + tbw <= tbw * bw && 0 <= tbw * c) by (nonlinear_arith)
        requires
            0 <= c < bw,
            tbw >= 1,
    ;
    assert(tbh * r + tbh <= tbh * bh && 0 <= tbh * r) by (nonlinear_arith)
        requires
            0 <= r < bh,
            tbh >= 1,
    ;
}

/// The entry code of a block stands in row `ey` from column `ex` on.
pub open spec fn entry_drawn(grid: ColorGrid, ex: int, ey: int) -> bool {
    forall|i: int| 0 <= i < 9 ==> #[trigger] cell_of(grid, ex + i, ey) == code_colors(pointer_ops())[i]
}

/// The rows a block's strips and branch code need.
pub open spec fn block_need(v: (Vec<Vec<ValidColor>>, Vec<ValidColor>)) -> int {
    (v.0@.len() * 5 / 2 + v.1@.len()) as int
}

/// The most rows any of the blocks needs; 0 for none.
pub open spec fn max_need(es: Seq<(Seq<char>, (Vec<Vec<ValidColor>>, Vec<ValidColor>))>) -> int
    decreases es.len(),
{
    if es.len() == 0 {
        0
    } else {
        let m = max_need(es.drop_last());
        let n = block_need(es.last().1);
        if n > m {
            n
        } else {
            m
        }
    }
}

/// No block needs more rows than the most any needs.
proof fn lemma_max_need(es: Seq<(Seq<char>, (Vec<Vec<ValidColor>>, Vec<ValidColor>))>, m: int)
    requires
        0 <= m < es.len(),
    ensures
        block_need(es[m].1) <= max_need(es),
    decreases es.len(),
{
    if m < es.len() - 1 {
        lemma_max_need(es.drop_last(), m);
        assert(es.drop_last()[m] == es[m]);
    }
}

/// `index` names `k`, and every number it gives `k` is below `bound`.
pub open spec fn indexed_below(index: Seq<(Seq<char>, usize)>, k: Seq<char>, bound: int) -> bool {
    &&& has_name(index, k)
    &&& forall|i: int| 0 <= i < index.len() && #[trigger] index[i].0 == k ==> index[i].1 < bound
}

/// What drawing blocks already cut into strips needs to give an image: some
/// block; an image `image_width` wide and `(max_need + 32) * b_height + 5`
/// high with no more cells than an `isize` counts, and wide enough for the
/// dispatcher code (at most `1 + 11 * max(b_width, 3)` cells) from column
/// 8; for every block a
/// number inside the grid, strips at most `j_width + 1` wide and a branch
/// code of other than one cell; and for `main` a number of at most 173
/// whose recorded sequences in `opt` fit in the top row.
pub open spec fn draw_ready(
    opt: StackOptimizer,
    b_width: int,
    b_height: int,
    finals: Seq<(Seq<char>, (Vec<Vec<ValidColor>>, Vec<ValidColor>))>,
    index: Seq<(Seq<char>, usize)>,
    j_width: int,
) -> bool {
    let w = 4 + (j_width + 11) * b_width;
    let h = (max_need(finals) + 32) * b_height + 5;
    &&& finals.len() > 0
    &&& w * h <= isize::MAX
    &&& 9 + 11 * (if b_width >= 3 {
        b_width
    } else {
        3
    }) <= w
    &&& forall|m: int|
        0 <= m < finals.len() ==> {
            &&& indexed_below(index, #[trigger] finals[m].0, b_width * b_height)
            &&& forall|q: int| 0 <= q < finals[m].1.0@.len() ==> #[trigger] finals[m].1.0@[q]@.len() <= j_width + 1
            &&& finals[m].1.1@.len() != 1
        }
    &&& has_name(index, seq!['m', 'a', 'i', 'n'])
    &&& forall|i: int|
        0 <= i < index.len() && #[trigger] index[i].0 == seq!['m', 'a', 'i', 'n'] ==> {
            &&& index[i].1 <= 173
            &&& opt.found(seq![index[i].1 as int])
            &&& forall|os: Seq<Op>| #[trigger] opt.recorded(seq![index[i].1 as int], os) ==> code_colors(os).len() <= w
        }
}

/// A row of commands with no `nop` and pushes of 1 to `b` has at most `b`
/// cells per command after the first.
proof fn lemma_code_colors_len_bound(os: Seq<Op>, b: int)
    requires
        b >= 1,
        forall|i: int| 0 <= i < os.len() ==> !(#[trigger] os[i] is Nop) && (os[i] matches Op::Push(v) ==> 1 <= v <= b),
    ensures
        code_colors(os).len() <= 1 + os.len() * b,
    decreases os.len(),
{
    if os.len() > 0 {
        let q = os.drop_last();
        assert forall|i: int| 0 <= i < q.len() implies !(#[trigger] q[i] is Nop) && (q[i] matches Op::Push(v) ==> 1 <= v <= b) by {
            assert(q[i] == os[i]);
        }
        lemma_code_colors_len_bound(q, b);
        assert(os.last() == os[os.len() - 1]);
        assert(1 + q.len() * b + b == 1 + os.len() * b) by (nonlinear_arith)
            requires
                q.len() + 1 == os.len(),
        ;
    }
}

impl PietStackExecutor {
    /// A jump or branch target that no block number is given for, if any.
    pub fn missing_jump_target(&self) -> (r: Option<String>)
        ensures
            r is None <==> forall|k: int|
                0 <= k < self.blocks.entries().len() ==> jumps_numbered(
                    stmts(#[trigger] self.blocks.entries()[k].1@),
                    self.block_index.entries(),
                ),
            r matches Some(t) ==> !has_name(self.block_index.entries(), t@),
    {
        let mut k: usize = 0;
        while k < self.blocks.len()
            invariant
                k <= self.blocks.entries().len(),
                forall|q: int|
                    0 <= q < k ==> jumps_numbered(
                        stmts(#[trigger] self.blocks.entries()[q].1@),
                        self.block_index.entries(),
                    ),
            decreases self.blocks.entries().len() - k,
        {
            let body = self.blocks.value_at(k);
            let mut j: usize = 0;
            while j < body.len()
                invariant
                    j <= body@.len(),
                    body@ == self.blocks.entries()[k as int].1@,
                    k < self.blocks.entries().len(),
                    forall|q: int|
                        0 <= q < j ==> match #[trigger] stmts(body@)[q] {
                            Stmt::Goto(l) => has_name(self.block_index.entries(), l),
                            Stmt::Branch(a, b) => has_name(self.block_index.entries(), a) && has_name(
                                self.block_index.entries(),
                                b,
                            ),
                            _ => true,
                        },
                decreases body@.len() - j,
            {
                assert(stmts(body@)[j as int] == body@[j as int]@);
                match &body[j] {
                    Expr::Goto(l) => {
                        if !self.block_index.contains_key(l.as_str()) {
                            return Some(l.clone());
                        }
                    },
                    Expr::Branch(a, b) => {
                        if !self.block_index.contains_key(a.as_str()) {
                            return Some(a.clone());
                        }
                        if !self.block_index.contains_key(b.as_str()) {
                            return Some(b.clone());
                        }
                    },
                    _ => {},
                }
                j = j + 1;
            }
            k = k + 1;
        }
        None
    }

    /// Draws the program as a Piet image: every block (the pushes rewritten
    /// into short sequences found by `optimizer`) in a cell of a grid
    /// `ceil_sqrt(blocks + 1)` cells wide, with strips 70 cells wide or a
    /// fifth of the larger grid side. `None` when a pushed value is beyond
    /// `usize`, a strip gets stuck, or the image cannot be drawn (see
    /// `to_png_draw`). The image's top row starts with the commands
    /// that push the number of `main`, where a Piet program begins. Every
    /// jump and branch must name a numbered block (`missing_jump_target`
    /// finds one that does not).
    pub fn to_png(&self, optimizer: &mut StackOptimizer, fuel: usize) -> (r: Option<PietImage>)
        requires
            old(optimizer).wf(),
            forall|k: int|
                0 <= k < self.blocks.entries().len() ==> jumps_numbered(
                    stmts(#[trigger] self.blocks.entries()[k].1@),
                    self.block_index.entries(),
                ),
        ensures
            final(optimizer).wf(),
            r matches Some(img) ==> exists|b: nat|
                #[trigger] is_ceil_sqrt(b, self.blocks.entries().len() + 1) && img.columns() == image_width(
                    b,
                    strip_width(b, grid_rows(b, self.blocks.entries().len() + 1)),
                ),
            r matches Some(img) ==> enters_main(img, self.block_index.entries()),
    {
        let n_blocks = self.blocks.len();
        if n_blocks == usize::MAX {
            return None;
        }
        let pbl = n_blocks + 1;
        let b_width = ceil_sqrt(pbl);
        proof {
            assert(b_width >= 1) by (nonlinear_arith)
                requires
                    b_width * b_width >= pbl,
                    pbl >= 1,
            ;
        }
        let b_height = (pbl - 1) / b_width + 1;
        let larger = if b_width > b_height {
            b_width
        } else {
            b_height
        };
        let j_width = if 70 > larger / 5 {
            70
        } else {
            larger / 5
        };
        let mut finals: LabelMap<(Vec<Vec<ValidColor>>, Vec<ValidColor>)> = LabelMap::new();
        let mut i: usize = 0;
        while i < self.blocks.len()
            invariant
                optimizer.wf(),
                finals.wf(),
                j_width >= 70,
                forall|k: int|
                    0 <= k < self.blocks.entries().len() ==> jumps_numbered(
                        stmts(#[trigger] self.blocks.entries()[k].1@),
                        self.block_index.entries(),
                    ),
            decreases self.blocks.entries().len() - i,
        {
            let name = self.blocks.name_at(i);
            let body = self.blocks.value_at(i);
            let nb = match rewrite_pushes(body, optimizer, fuel) {
                Some(nb) => nb,
                None => {
                    return None;
                },
            };
            proof {
                assert(jumps_numbered(stmts(self.blocks.entries()[i as int].1@), self.block_index.entries()));
                lemma_exit_numbered(stmts(nb@), stmts(body@), self.block_index.entries());
            }
            let (colors, exit) = make_block(&nb);
            let (mut splits, going_right) = match split_in_blocks(&colors, j_width, true) {
                Some(x) => x,
                None => {
                    return None;
                },
            };
            let mut branch_blocks: Vec<ValidColor> = Vec::new();
            match exit {
                (_, _, true) => {
                    let empty: Vec<ValidColor> = Vec::new();
                    match split_in_blocks(&empty, j_width, true) {
                        Some((more, _)) => append_strips(&mut splits, more),
                        None => {
                            return None;
                        },
                    }
                },
                (Some(t), None, false) => {
                    let idx = match self.block_index.get(t.as_str()) {
                        Some(idx) => *idx,
                        None => {
                            return None;
                        },
                    };
                    let coord = match goto_block_coord(optimizer, idx, fuel) {
                        Some(c) => c,
                        None => {
                            return None;
                        },
                    };
                    proof {
                        lemma_small_pushes_drawable(coord@);
                    }
                    let code = code_row(&coord);
                    match split_in_blocks(&code, j_width, true) {
                        Some((more, _)) => append_strips(&mut splits, more),
                        None => {
                            return None;
                        },
                    }
                },
                (Some(t), Some(e), false) => {
                    let ti = match self.block_index.get(t.as_str()) {
                        Some(idx) => *idx,
                        None => {
                            return None;
                        },
                    };
                    let t_coord = match goto_block_coord(optimizer, ti, fuel) {
                        Some(c) => c,
                        None => {
                            return None;
                        },
                    };
                    proof {
                        lemma_small_pushes_drawable(t_coord@);
                    }
                    let code1 = code_row(&branch_arm(&t_coord));
                    let ei = match self.block_index.get(e.as_str()) {
                        Some(idx) => *idx,
                        None => {
                            return None;
                        },
                    };
                    let e_coord = match goto_block_coord(optimizer, ei, fuel) {
                        Some(c) => c,
                        None => {
                            return None;
                        },
                    };
                    proof {
                        lemma_small_pushes_drawable(e_coord@);
                    }
                    let code2 = code_row(&branch_arm(&e_coord));
                    if going_right {
                        splits.push(Vec::new());
                    }
                    match split_in_blocks(&code2, j_width, true) {
                        Some((more, _)) => append_strips(&mut splits, more),
                        None => {
                            return None;
                        },
                    }
                    branch_blocks = code1;
                },
                _ => {},
            }
            finals.insert(name.clone(), (splits, branch_blocks));
            i = i + 1;
        }
        let r = Self::to_png_draw(optimizer, b_width, b_height, &finals, &self.block_index, j_width, fuel);
        proof {
            assert(is_ceil_sqrt(b_width as nat, pbl as nat));
            assert(grid_rows(b_width as nat, pbl as nat) == b_height);
            assert(strip_width(b_width as nat, b_height as nat) == j_width);
            if r is Some {
                let b = b_width as nat;
                assert(is_ceil_sqrt(b, self.blocks.entries().len() + 1) && r.unwrap().columns() == image_width(
                    b,
                    strip_width(b, grid_rows(b, self.blocks.entries().len() + 1)),
                ));
            }
        }
        r
    }

    /// Draws blocks already cut into strips: the dispatcher that turns a
    /// block number on the stack into a walk to the block's cell, the code
    /// that starts at `main`, and every block in the cell its number gives;
    /// then removes every all-white row that an all-white row follows.
    /// `None` when a block has no number, a number lies beyond the grid, a
    /// strip is wider than `j_width + 1`, a branch code has a single cell,
    /// there is no block `main`, its code does not fit in the first row,
    /// or the image would be too large.
    pub fn to_png_draw(
        optimizer: &mut StackOptimizer,
        b_width: usize,
        b_height: usize,
        final_blocks: &LabelMap<(Vec<Vec<ValidColor>>, Vec<ValidColor>)>,
        block_index: &LabelMap<usize>,
        j_width: usize,
        fuel: usize,
    ) -> (r: Option<PietImage>)
        requires
            old(optimizer).wf(),
            b_width >= 1,
            b_height >= 1,
            j_width >= 1,
        ensures
            final(optimizer).wf(),
            r matches Some(img) ==> img.columns() == image_width(b_width as nat, j_width as nat) && img.rows() >= 1
                && enters_main(img, block_index.entries()),
            draw_ready(
                *old(optimizer),
                b_width as int,
                b_height as int,
                final_blocks.entries(),
                block_index.entries(),
                j_width as int,
            ) ==> r is Some,
            r matches Some(img) ==> drawn_from(
                img,
                b_width as int,
                b_height as int,
                final_blocks.entries(),
                block_index.entries(),
                block_index.wf(),
                j_width as int,
            ),
    {
        let ghost es = final_blocks.entries();
        let ghost ready = draw_ready(
            *optimizer,
            b_width as int,
            b_height as int,
            es,
            block_index.entries(),
            j_width as int,
        );
        let ghost mx = max_need(es);
        proof {
            if ready {
                let w0 = 4 + (j_width + 11) * b_width;
                let h0 = (mx + 32) * b_height + 5;
                assert(mx >= 0) by {
                    if es.len() > 0 {
                        lemma_max_need(es, 0);
                    }
                }
                assert(w0 <= isize::MAX && h0 <= isize::MAX && mx + 37 <= h0 && (j_width + 11) <= w0) by (nonlinear_arith)
                    requires
                        w0 == 4 + (j_width + 11) * b_width,
                        h0 == (mx + 32) * b_height + 5,
                        w0 * h0 <= isize::MAX,
                        b_width >= 1,
                        b_height >= 1,
                        mx >= 0,
                        j_width >= 0,
                ;
            }
        }
        let tbw = j_width.checked_add(11);
        let tbw = match tbw {
            Some(v) => v,
            None => {
                return None;
            },
        };
        let mut hpb: usize = 0;
        let mut found = false;
        let mut i: usize = 0;
        while i < final_blocks.len()
            invariant
                optimizer.wf(),
                i <= final_blocks.entries().len(),
                found == (i > 0),
                es == final_blocks.entries(),
                hpb == max_need(es.take(i as int)),
                ready ==> mx + 37 <= isize::MAX,
                mx == max_need(es),
                ready == draw_ready(
                    *old(optimizer),
                    b_width as int,
                    b_height as int,
                    es,
                    block_index.entries(),
                    j_width as int,
                ),
                *optimizer == *old(optimizer),
                forall|m: int| 0 <= m < i ==>
                    #[trigger] final_blocks.entries()[m].1.0@.len() * 5 / 2 + final_blocks.entries()[m].1.1@.len() <= hpb,
            decreases final_blocks.entries().len() - i,
        {
            let (strips, branch) = final_blocks.value_at(i);
            proof {
                lemma_max_need(es, i as int);
                assert(es.take(i + 1).drop_last() =~= es.take(i as int));
                assert(es.take(i + 1).last() == es[i as int]);
            }
            let need = match strips.len().checked_mul(5) {
                Some(v) => v / 2,
                None => {
                    return None;
                },
            };
            let need = match need.checked_add(branch.len()) {
                Some(v) => v,
                None => {
                    return None;
                },
            };
            if !found || need > hpb {
                hpb = need;
            }
            found = true;
            i = i + 1;
        }
        if !found {
            return None;
        }
        proof {
            assert(es.take(i as int) =~= es);
        }
        let tbh = match hpb.checked_add(32) {
            Some(v) => v,
            None => {
                return None;
            },
        };
        let w = match tbw.checked_mul(b_width) {
            Some(v) => match v.checked_add(4) {
                Some(v) => v,
                None => {
                    return None;
                },
            },
            None => {
                return None;
            },
        };
        let h = match tbh.checked_mul(b_height) {
            Some(v) => match v.checked_add(5) {
                Some(v) => v,
                None => {
                    return None;
                },
            },
            None => {
                return None;
            },
        };
        match w.checked_mul(h) {
            Some(area) => {
                if area > isize::MAX as usize {
                    return None;
                }
            },
            None => {
                return None;
            },
        }
        proof {
            if ready {
                assert(w == 4 + (j_width + 11) * b_width);
                assert(h == (mx + 32) * b_height + 5);
            }
        }
        let mut arr = grid_new(w, h);
        let g = Geometry { b_width, b_height, j_width, block_w: tbw, block_h: tbh, w, h };
        paint_range(&mut arr, 1, 0, 3 + tbw * b_width, ValidColor::Black);
        let mut li: usize = 0;
        while li < b_height
            invariant
                g.ok(),
                g.w == w,
                g.h == h,
                g.block_w == tbw,
                g.block_h == tbh,
                g.b_width == b_width,
                g.b_height == b_height,
                grid_shape(arr) == (w as nat, h as nat),
                well_shaped(arr),
                optimizer.wf(),
                *optimizer == *old(optimizer),
            decreases b_height - li,
        {
            assert(tbh * (1 + li) + 2 < h && tbh * (1 + li) == tbh * li + tbh) by (nonlinear_arith)
                requires
                    li < b_height,
                    h == 5 + tbh * b_height,
            ;
            paint_range(&mut arr, 1 + tbh * (1 + li), 3, tbw * b_width, ValidColor::Black);
            paint_range(&mut arr, 3 + tbh * li, 2, 1 + tbw * b_width, ValidColor::Black);
            paint_range(&mut arr, 2 + tbh * (1 + li), 1, 1, ValidColor::Black);
            li = li + 1;
        }
        let mut converter: Vec<CMD> = Vec::new();
        converter.push(CMD::Dup);
        converter.push(CMD::Push(Integer::from_usize(b_width)));
        converter.push(CMD::Dup);
        converter.push(CMD::Push(Integer::from_i64(3)));
        converter.push(CMD::Push(Integer::from_i64(1)));
        converter.push(CMD::Roll);
        converter.push(CMD::Mod);
        converter.push(CMD::Push(Integer::from_i64(3)));
        converter.push(CMD::Push(Integer::from_i64(1)));
        converter.push(CMD::Roll);
        converter.push(CMD::Div);
        proof {
            assert(ops(converter@) =~= seq![
                Op::Dup,
                Op::Push(b_width as int),
                Op::Dup,
                Op::Push(3),
                Op::Push(1),
                Op::Roll,
                Op::Mod,
                Op::Push(3),
                Op::Push(1),
                Op::Roll,
                Op::Div,
            ]);
            assert(converter@.map_values(|c: CMD| c@) =~= ops(converter@));
            lemma_code_colors_len_bound(ops(converter@), if b_width >= 3 { b_width as int } else { 3 });
        }
        let conv = code_row(&converter);
        if !paint_row_checked(&mut arr, 8, 0, &conv) || !paint_row_checked(&mut arr, 8, 2, &conv) {
            return None;
        }
        proof {
            reveal_strlit("main");
            reveal_strlit("term");
        }
        proof {
            assert("main"@ =~= seq!['m', 'a', 'i', 'n']);
        }
        let main_index = match block_index.get("main") {
            Some(m) => *m,
            None => {
                return None;
            },
        };
        proof {
            if ready {
                let ix = block_index.entries();
                let mi = choose|i: int| 0 <= i < ix.len() && ix[i].0 == "main"@ && ix[i].1 == main_index;
                assert(ix[mi].0 == seq!['m', 'a', 'i', 'n']);
            }
        }
        let ghost opt0 = *optimizer;
        let main_coord = match goto_block_coord(optimizer, main_index, fuel) {
            Some(c) => c,
            None => {
                return None;
            },
        };
        proof {
            lemma_small_pushes_drawable(main_coord@);
        }
        let main_row = code_row(&main_coord);
        proof {
            if ready {
                let ix = block_index.entries();
                let mi = choose|i: int| 0 <= i < ix.len() && ix[i].0 == "main"@ && ix[i].1 == main_index;
                assert(ix[mi].0 == seq!['m', 'a', 'i', 'n']);
                assert(main_coord@.map_values(|c: CMD| c@) =~= ops(main_coord@));
                assert(opt0.recorded(seq![main_index as int], ops(main_coord@)));
                assert(main_row@.len() <= w);
            }
        }
        if !paint_row_checked(&mut arr, 0, 0, &main_row) {
            return None;
        }
        let ghost main_ops = ops(main_coord@);
        proof {
            assert(main_ops =~= main_coord@.map_values(|c: CMD| c@));
            lemma_code_colors_first(main_ops);
            assert forall|x: int| 0 <= x < main_row@.len() implies x < w && #[trigger] cell_of(arr, x, 0)
                == main_row@[x] by {
                assert(cell_of(arr, 0 + x, 0) == main_row@[x]);
            }
        }
        let pp = pointer_code();
        let pop = pointer_pop_cell();
        proof {
            lemma_code_colors_len_unit(pointer_ops());
        }
        let mut li: usize = 0;
        while li < b_height
            invariant
                g.ok(),
                g.w == w,
                g.h == h,
                g.block_h == tbh,
                g.b_height == b_height,
                grid_shape(arr) == (w as nat, h as nat),
                optimizer.wf(),
                well_shaped(arr),
                main_row@ == code_colors(main_ops),
                forall|x: int|
                    0 <= x < main_row@.len() ==> x < w && #[trigger] cell_of(arr, x, 0) == main_row@[x],
                pp@.len() == 9,
                tbh >= 32,
            decreases b_height - li,
        {
            assert(tbh * (li + 1) + 5 <= h && tbh * (li + 1) >= tbh) by (nonlinear_arith)
                requires
                    li < b_height,
                    h == 5 + tbh * b_height,
            ;
            if !paint_column_checked(&mut arr, w - 1, tbh * (li + 1) - 4, &pp) {
                return None;
            }
            if !paint_checked(&mut arr, w - 2, tbh * (li + 1) + 2, pop) {
                return None;
            }
            li = li + 1;
        }
        let mut k: usize = 0;
        while k < final_blocks.len()
            invariant
                g.ok(),
                g.w == w,
                g.h == h,
                g.j_width == j_width,
                g.block_h == tbh,
                g.b_width == b_width,
                g.b_height == b_height,
                grid_shape(arr) == (w as nat, h as nat),
                optimizer.wf(),
                well_shaped(arr),
                main_row@ == code_colors(main_ops),
                forall|x: int|
                    0 <= x < main_row@.len() ==> x < w && #[trigger] cell_of(arr, x, 0) == main_row@[x],
                hpb + 32 == tbh,
                ready ==> draw_ready(
                    *old(optimizer),
                    b_width as int,
                    b_height as int,
                    final_blocks.entries(),
                    block_index.entries(),
                    j_width as int,
                ),
                ready == draw_ready(
                    *old(optimizer),
                    b_width as int,
                    b_height as int,
                    final_blocks.entries(),
                    block_index.entries(),
                    j_width as int,
                ),
                forall|m: int| 0 <= m < final_blocks.entries().len() ==>
                    #[trigger] final_blocks.entries()[m].1.0@.len() * 5 / 2 + final_blocks.entries()[m].1.1@.len() <= hpb,
                k <= final_blocks.entries().len(),
                tbh == max_need(final_blocks.entries()) + 32,
                block_index.wf() ==> forall|q: int|
                    0 <= q < k && number_unique(final_blocks.entries(), block_index.entries(), q) ==> (lookup(
                        block_index.entries(),
                        #[trigger] final_blocks.entries()[q].0,
                    ) matches Some(si) && si < b_width * b_height && entry_at(
                        arr,
                        b_width as int,
                        j_width + 11,
                        tbh as int,
                        si as int,
                    ) && (final_blocks.entries()[q].0 != term_label() ==> arm_at(
                        arr,
                        b_width as int,
                        j_width + 11,
                        tbh as int,
                        j_width as int,
                        si as int,
                        final_blocks.entries()[q].1.0@.len() as int,
                        final_blocks.entries()[q].1.1@,
                    ))),
            decreases final_blocks.entries().len() - k,
        {
            let name = final_blocks.name_at(k);
            let (strips, branch) = final_blocks.value_at(k);
            proof {
                if ready {
                    assert(indexed_below(block_index.entries(), final_blocks.entries()[k as int].0, b_width * b_height));
                }
            }
            let si = match block_index.get(name.as_str()) {
                Some(si) => *si,
                None => {
                    return None;
                },
            };
            match b_width.checked_mul(b_height) {
                Some(cells) => {
                    if si >= cells {
                        return None;
                    }
                },
                None => {},
            }
            let jw1 = j_width + 1;
            let mut m: usize = 0;
            while m < strips.len()
                invariant
                    optimizer.wf(),
                    jw1 == j_width + 1,
                    forall|q: int| 0 <= q < m ==> #[trigger] strips@[q]@.len() <= j_width + 1,
                    ready ==> forall|q: int| 0 <= q < strips@.len() ==> #[trigger] strips@[q]@.len() <= j_width + 1,
                    ready == draw_ready(
                        *old(optimizer),
                        b_width as int,
                        b_height as int,
                        final_blocks.entries(),
                        block_index.entries(),
                        j_width as int,
                    ),
                decreases strips@.len() - m,
            {
                if strips[m].len() > jw1 {
                    return None;
                }
                m = m + 1;
            }
            if branch.len() == 1 {
                return None;
            }
            let is_term = text_eq(name.as_str(), "term");
            let ghost a0 = arr;
            if !draw_block(&mut arr, &g, si, is_term, strips, branch) {
                return None;
            }
            proof {
                let fe = final_blocks.entries();
                let ie = block_index.entries();
                if block_index.wf() {
                    assert forall|q: int|
                        0 <= q < k + 1 && number_unique(fe, ie, q) implies (lookup(ie, #[trigger] fe[q].0) matches Some(
                        s2) && s2 < b_width * b_height && entry_at(arr, b_width as int, j_width + 11, tbh as int, s2 as int)
                        && (fe[q].0 != term_label() ==> arm_at(
                        arr,
                        b_width as int,
                        j_width + 11,
                        tbh as int,
                        j_width as int,
                        s2 as int,
                        fe[q].1.0@.len() as int,
                        fe[q].1.1@,
                    ))) by {
                        if q < k {
                            let s2 = lookup(ie, fe[q].0)->0;
                            assert(lookup(ie, fe[k as int].0) == Some(si));
                            assert(s2 != si);
                            let s2i = s2 as int;
                            let bwi = b_width as int;
                            let tbwi = j_width + 11;
                            let tbhi = tbh as int;
                            assert forall|i: int| 0 <= i < 9 implies #[trigger] cell_of(
                                arr,
                                3 + tbwi * (s2i % bwi) + i,
                                4 + tbhi * (s2i / bwi),
                            ) == code_colors(pointer_ops())[i] by {
                                lemma_entry_outside(s2i, si as int, bwi, 0, tbwi, tbhi, i);
                                assert(cell_of(a0, 3 + tbwi * (s2i % bwi) + i, 4 + tbhi * (s2i / bwi)) == code_colors(
                                    pointer_ops(),
                                )[i]);
                                lemma_entry_in_grid(s2i, bwi, b_height as int, tbwi, tbhi, i);
                            }
                            if fe[q].0 != term_label() {
                                let cnt = fe[q].1.0@.len() as int;
                                let br = fe[q].1.1@;
                                let st = 10 + tbwi * (s2i % bwi);
                                let l2 = 7 + tbhi * (s2i / bwi) + (5 * cnt + 1) / 2;
                                assert(fe[q].1.0@.len() * 5 / 2 + fe[q].1.1@.len() <= hpb);
                                if br.len() > 0 {
                                    assert forall|j: int|
                                        0 <= j < br.len() - 2 && !(cnt % 2 == 1 && j_width == 1 && j == 3) implies #[trigger] cell_of(
                                        arr,
                                        st + 1,
                                        l2 - 2 + j,
                                    ) == br[j + 2] by {
                                        lemma_arm_in_cell(s2i, bwi, b_height as int, tbwi, tbhi, cnt, br.len() as int, j);
                                        lemma_cells_apart(s2i, si as int, bwi, tbwi, tbhi, st + 1, l2 - 2 + j);
                                        assert(cell_of(a0, st + 1, l2 - 2 + j) == br[j + 2]);
                                    }
                                }
                            }
                        } else {
                            assert(lookup(ie, fe[k as int].0) == Some(si));
                            reveal_strlit("term");
                            assert("term"@ =~= term_label());
                        }
                    }
                }
            }
            k = k + 1;
        }
        proof {
            lemma_code_colors_first(main_ops);
            assert(main_row@[0] == ValidColor::Red);
            assert(cell_of(arr, 0, 0) == main_row@[0]);
        }
        let img = compact_rows(&arr, w, h);
        proof {
            let fe = final_blocks.entries();
            let ie = block_index.entries();
            if block_index.wf() {
                assert forall|q: int| 0 <= q < fe.len() && number_unique(fe, ie, q) implies (lookup(
                    ie,
                    #[trigger] fe[q].0,
                ) matches Some(s2) && entry_at(arr, b_width as int, j_width + 11, max_need(fe) + 32, s2 as int) && (
                fe[q].0 != term_label() ==> arm_at(
                    arr,
                    b_width as int,
                    j_width + 11,
                    max_need(fe) + 32,
                    j_width as int,
                    s2 as int,
                    fe[q].1.0@.len() as int,
                    fe[q].1.1@,
                ))) by {
                    assert(tbh == max_need(fe) + 32);
                }
            }
            let wd = 4 + (j_width + 11) * b_width;
            let ht = (max_need(fe) + 32) * b_height + 5;
            assert(drawn_from(img, b_width as int, b_height as int, fe, ie, block_index.wf(), j_width as int)) by {
                assert(compacted(img, arr, wd, ht));
            }
        }
        proof {
            let es = block_index.entries();
            let mi = choose|i: int| 0 <= i < es.len() && es[i].0 == "main"@ && es[i].1 == main_index;
            assert(cell_of(arr, main_row@.len() - 1, 0) == main_row@[main_row@.len() - 1]);
            assert(top_row_starts_with(img, main_ops));
            assert(es[mi].0 == seq!['m', 'a', 'i', 'n'] && pushes_exactly(main_ops, es[mi].1 as int));
        }
        Some(img)
    }
}

/// Whether row `y` of the grid is all white.
fn row_white(arr: &ColorGrid, w: usize, h: usize, y: usize) -> (r: bool)
    requires
        grid_shape(*arr) == (w as nat, h as nat),
        y < h,
    ensures
        r == forall|x: int| 0 <= x < w ==> #[trigger] cell_of(*arr, x, y as int) == ValidColor::White,
{
    let mut x: usize = 0;
    while x < w
        invariant
            grid_shape(*arr) == (w as nat, h as nat),
            y < h,
            x <= w,
            forall|k: int| 0 <= k < x ==> #[trigger] cell_of(*arr, k, y as int) == ValidColor::White,
        decreases w - x,
    {
        if grid_get(arr, x, y) != ValidColor::White {
            assert(cell_of(*arr, x as int, y as int) != ValidColor::White);
            return false;
        }
        x = x + 1;
    }
    true
}

/// How many of the first `n` flags are set.
pub open spec fn count_set(flags: Seq<bool>, n: int) -> int
    decreases n,
{
    if n <= 0 {
        0
    } else {
        count_set(flags, n - 1) + if flags[n - 1] {
            1int
        } else {
            0
        }
    }
}

/// Counting set flags never counts more than there are.
proof fn lemma_count_set_bound(flags: Seq<bool>, n: int)
    requires
        0 <= n,
    ensures
        0 <= count_set(flags, n) <= n,
    decreases n,
{
    if n > 0 {
        lemma_count_set_bound(flags, n - 1);
    }
}

/// Counting the first `n` flags only looks at them.
proof fn lemma_count_prefix(a: Seq<bool>, b: Seq<bool>, n: int)
    requires
        0 <= n <= a.len(),
        n <= b.len(),
        forall|i: int| 0 <= i < n ==> a[i] == b[i],
    ensures
        count_set(a, n) == count_set(b, n),
    decreases n,
{
    if n > 0 {
        lemma_count_prefix(a, b, n - 1);
    }
}

/// Counting is monotone.
proof fn lemma_count_set_mono(flags: Seq<bool>, a: int, b: int)
    requires
        0 <= a <= b,
    ensures
        count_set(flags, a) <= count_set(flags, b),
        b - count_set(flags, b) >= a - count_set(flags, a),
    decreases b - a,
{
    if a < b {
        lemma_count_set_mono(flags, a, b - 1);
    }
}

/// When the first flag is clear, fewer than `n` of the first `n` are set.
proof fn lemma_count_set_first_clear(flags: Seq<bool>, n: int)
    requires
        1 <= n,
        flags.len() >= 1,
        !flags[0],
    ensures
        count_set(flags, n) <= n - 1,
    decreases n,
{
    reveal_with_fuel(count_set, 2);
    if n > 1 {
        lemma_count_set_first_clear(flags, n - 1);
    }
}

/// Whether row `y` of the grid holds only white cells in its first `w`
/// columns.
pub open spec fn row_blank(arr: ColorGrid, w: int, y: int) -> bool {
    forall|x: int| 0 <= x < w ==> #[trigger] cell_of(arr, x, y) == ValidColor::White
}

/// For each of the `h` rows, whether compaction drops it: it and the row
/// after it are both all white.
pub open spec fn dropped_rows(arr: ColorGrid, w: int, h: int) -> Seq<bool> {
    Seq::new(h as nat, |y: int| y < h - 1 && row_blank(arr, w, y) && row_blank(arr, w, y + 1))
}

/// Between a kept row and a later one, fewer rows are dropped than lie
/// between them.
proof fn lemma_count_set_gap(flags: Seq<bool>, a: int, b: int)
    requires
        0 <= a < b <= flags.len(),
        !flags[a],
    ensures
        count_set(flags, b) - count_set(flags, a) <= b - a - 1,
    decreases b - a,
{
    reveal_with_fuel(count_set, 2);
    if b > a + 1 {
        lemma_count_set_gap(flags, a, b - 1);
    }
}

/// The grid with every all-white row that an all-white row follows
/// removed; the other rows keep their order.
fn compact_rows(arr: &ColorGrid, w: usize, h: usize) -> (r: PietImage)
    requires
        grid_shape(*arr) == (w as nat, h as nat),
        w * h <= isize::MAX,
        h >= 1,
        w >= 1,
    ensures
        r.columns() == w,
        r.rows() >= 1,
        r.rows() == h - count_set(dropped_rows(*arr, w as int, h as int), h as int),
        forall|y: int, x: int|
            0 <= y < h && 0 <= x < w && !dropped_rows(*arr, w as int, h as int)[y] ==> #[trigger] r.cell(
                x,
                y - count_set(dropped_rows(*arr, w as int, h as int), y),
            ) == #[trigger] cell_of(*arr, x, y),
        (exists|x: int| 0 <= x < w && #[trigger] cell_of(*arr, x, 0) != ValidColor::White) ==> forall|x: int|
            0 <= x < w ==> #[trigger] r.cell(x, 0) == cell_of(*arr, x, 0),
{
    let ghost flags = dropped_rows(*arr, w as int, h as int);
    let mut removed: Vec<bool> = Vec::new();
    let mut new_h: usize = 1;
    let mut y: usize = 0;
    while y < h - 1
        invariant
            grid_shape(*arr) == (w as nat, h as nat),
            h >= 1,
            y <= h - 1,
            removed@.len() == y,
            new_h == 1 + y - count_set(removed@, y as int),
            w * h <= isize::MAX,
            flags == dropped_rows(*arr, w as int, h as int),
            removed@ == flags.take(y as int),
        decreases h - 1 - y,
    {
        proof {
            lemma_count_set_bound(removed@, y as int);
        }
        let ghost r0 = removed@;
        let blank = row_white(arr, w, h, y) && row_white(arr, w, h, y + 1);
        removed.push(blank);
        proof {
            lemma_count_prefix(r0, removed@, y as int);
            assert(removed@ =~= flags.take(y + 1));
        }
        if !blank {
            new_h = new_h + 1;
        }
        y = y + 1;
    }
    let ghost r1 = removed@;
    removed.push(false);
    proof {
        lemma_count_prefix(r1, removed@, (h - 1) as int);
        lemma_count_set_bound(removed@, (h - 1) as int);
        lemma_count_set_bound(removed@, h as int);
        assert(count_set(removed@, h as int) == count_set(removed@, (h - 1) as int));
        assert(new_h <= h);
        assert(w * new_h <= w * h) by (nonlinear_arith)
            requires
                new_h <= h,
        ;
        assert(removed@ =~= flags);
    }
    let mut fin = grid_new(w, new_h);
    let mut skipped: usize = 0;
    let mut y: usize = 0;
    while y < h
        invariant
            grid_shape(*arr) == (w as nat, h as nat),
            grid_shape(fin) == (w as nat, new_h as nat),
            well_shaped(fin),
            removed@.len() == h,
            removed@ == flags,
            y <= h,
            skipped == count_set(removed@, y as int),
            skipped <= y,
            new_h == h - count_set(removed@, h as int),
            new_h >= 1,
            forall|y2: int, x: int|
                0 <= y2 < y && 0 <= x < w && !flags[y2] ==> #[trigger] cell_of(fin, x, y2 - count_set(flags, y2))
                    == #[trigger] cell_of(*arr, x, y2),
        decreases h - y,
    {
        proof {
            lemma_count_set_mono(removed@, y + 1, h as int);
            lemma_count_set_bound(removed@, y as int);
            lemma_count_set_bound(removed@, y + 1);
        }
        if removed[y] {
            skipped = skipped + 1;
        } else {
            proof {
                assert forall|y2: int| 0 <= y2 < y && !flags[y2] implies 0 <= y2 - count_set(flags, y2) < y - skipped by {
                    lemma_count_set_gap(flags, y2, y as int);
                    lemma_count_set_bound(flags, y2);
                }
            }
            let mut x: usize = 0;
            while x < w
                invariant
                    grid_shape(*arr) == (w as nat, h as nat),
                    grid_shape(fin) == (w as nat, new_h as nat),
                    well_shaped(fin),
                    y < h,
                    skipped <= y,
                    y - skipped < new_h,
                    x <= w,
                    removed@ == flags,
                    !flags[y as int],
                    skipped == count_set(flags, y as int),
                    forall|y2: int| 0 <= y2 < y && !flags[y2] ==> 0 <= y2 - count_set(flags, y2) < y - skipped,
                    forall|x2: int| 0 <= x2 < x ==> #[trigger] cell_of(fin, x2, y - skipped) == cell_of(*arr, x2, y as int),
                    forall|y2: int, x2: int|
                        0 <= y2 < y && 0 <= x2 < w && !flags[y2] ==> #[trigger] cell_of(fin, x2, y2 - count_set(flags, y2))
                            == #[trigger] cell_of(*arr, x2, y2),
                decreases w - x,
            {
                let c = grid_get(arr, x, y);
                put(&mut fin, x, y - skipped, c);
                x = x + 1;
            }
        }
        proof {
            lemma_count_set_bound(flags, y as int);
            assert(count_set(flags, y + 1) == count_set(flags, y as int) + if flags[y as int] { 1int } else { 0 });
        }
        y = y + 1;
    }
    let r = PietImage { grid: fin, width: w, height: new_h };
    proof {
        assert forall|y2: int, x: int|
            0 <= y2 < h && 0 <= x < w && !flags[y2] implies #[trigger] r.cell(x, y2 - count_set(flags, y2))
            == #[trigger] cell_of(*arr, x, y2) by {
            assert(cell_of(fin, x, y2 - count_set(flags, y2)) == cell_of(*arr, x, y2));
        }
        assert forall|x: int|
            (exists|x1: int| 0 <= x1 < w && #[trigger] cell_of(*arr, x1, 0) != ValidColor::White) && 0 <= x < w
            implies #[trigger] r.cell(x, 0) == cell_of(*arr, x, 0) by {
            let x1 = choose|x1: int| 0 <= x1 < w && #[trigger] cell_of(*arr, x1, 0) != ValidColor::White;
            assert(!row_blank(*arr, w as int, 0));
            assert(!flags[0]);
            assert(count_set(flags, 0) == 0);
            assert(r.cell(x, 0 - count_set(flags, 0)) == cell_of(*arr, x, 0));
        }
    }
    r
}

} // verus!
