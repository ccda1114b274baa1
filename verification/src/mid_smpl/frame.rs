//! What the lowered code does to the machine's stack: the frame set-up at
//! the start of `main` leaves every variable's value at the depth that the
//! code reading a variable looks at.

use super::mid_smpl_to_stk::{
    add_var_code, debug_quoted, depth_code, dup_at_depth_code, frame_code, get_code, lower_stmt, prologue, swap_code,
    var_slots,
};
use super::{MStmt, VarView};
use crate::label_map::{lookup, names_distinct, sort_by_number};
use crate::optimize_stk::{is_stack_op, lemma_run_concat, needed, run_ops, runs_cleanly, step};
use crate::piet_interpreter::{cmd_crashes, rotate_right, Op};
use crate::piet_stack::expr::Stmt;
use vstd::prelude::*;

verus! {

/// The machine commands of straight-line code, in order, comments and
/// jumps left out.
pub open spec fn instr_ops(ss: Seq<Stmt>) -> Seq<Op>
    decreases ss.len(),
{
    if ss.len() == 0 {
        seq![]
    } else {
        instr_ops(ss.drop_last()) + match ss.last() {
            Stmt::Instr(o) => seq![o],
            _ => Seq::<Op>::empty(),
        }
    }
}

/// The stack of a running lowered program: a 0 at the bottom, the values
/// of the variables by slot, the values pushed since, and on top the
/// number of values below it.
pub open spec fn frame_stack(vals: Seq<int>, extra: Seq<int>) -> Seq<int> {
    seq![0int] + vals + extra + seq![(vals.len() + extra.len() + 1) as int]
}

/// The values of the variables, in the order of the entries.
pub open spec fn var_values(vars: Seq<(Seq<char>, VarView)>) -> Seq<int> {
    vars.map_values(|e: (Seq<char>, VarView)| e.1.value)
}

/// Whether the entries' slots are their positions.
pub open spec fn slots_in_order(vars: Seq<(Seq<char>, VarView)>) -> bool {
    forall|i: int| 0 <= i < vars.len() ==> #[trigger] vars[i].1.var_index == i
}

/// Running `os` from `s` goes cleanly (see `runs_cleanly`) and ends in
/// `t`.
#[verifier::opaque]
pub open spec fn runs_to(os: Seq<Op>, s: Seq<int>, t: Seq<int>) -> bool {
    runs_cleanly(os, s) && run_ops(os, s) == t
}

/// One command finds the values it takes, only works on the stack and does
/// not abort.
pub open spec fn step_ok(o: Op, s: Seq<int>) -> bool {
    is_stack_op(o) && needed(o) <= s.len() && !cmd_crashes(o, s, seq![])
}

/// Commands split in two are those of the first part, then of the second.
proof fn lemma_instr_ops_concat(a: Seq<Stmt>, b: Seq<Stmt>)
    ensures
        instr_ops(a + b) == instr_ops(a) + instr_ops(b),
    decreases b.len(),
{
    if b.len() == 0 {
        assert(a + b =~= a);
        assert(instr_ops(b) =~= Seq::<Op>::empty());
        assert(instr_ops(a) + instr_ops(b) =~= instr_ops(a));
    } else {
        lemma_instr_ops_concat(a, b.drop_last());
        assert((a + b).drop_last() =~= a + b.drop_last());
        assert((a + b).last() == b.last());
    }
}

/// Code made only of commands gives those commands.
proof fn lemma_instr_only(ss: Seq<Stmt>)
    requires
        forall|i: int| 0 <= i < ss.len() ==> #[trigger] ss[i] is Instr,
    ensures
        instr_ops(ss).len() == ss.len(),
        forall|i: int| 0 <= i < ss.len() ==> Stmt::Instr(#[trigger] instr_ops(ss)[i]) == ss[i],
    decreases ss.len(),
{
    if ss.len() > 0 {
        let p = ss.drop_last();
        assert forall|i: int| 0 <= i < p.len() implies #[trigger] p[i] is Instr by {
            assert(p[i] == ss[i]);
        }
        lemma_instr_only(p);
        assert(ss.last() is Instr);
        assert forall|i: int| 0 <= i < ss.len() implies Stmt::Instr(#[trigger] instr_ops(ss)[i]) == ss[i] by {
            if i < p.len() {
                assert(instr_ops(ss)[i] == instr_ops(p)[i]);
                assert(p[i] == ss[i]);
            }
        }
    }
}

/// A comment gives no command.
proof fn lemma_comment_ops(c: Seq<char>)
    ensures
        instr_ops(seq![Stmt::Comment(c)]) == Seq::<Op>::empty(),
{
    assert(seq![Stmt::Comment(c)].drop_last() =~= Seq::<Stmt>::empty());
    assert(instr_ops(Seq::<Stmt>::empty()) + Seq::<Op>::empty() =~= Seq::<Op>::empty());
}

/// Running one more command.
proof fn lemma_extend(p: Seq<Op>, o: Op, s0: Seq<int>, before: Seq<int>, after: Seq<int>)
    requires
        runs_cleanly(p, s0),
        run_ops(p, s0) == before,
        step_ok(o, before),
        step(o, before) == after,
    ensures
        runs_cleanly(p.push(o), s0),
        run_ops(p.push(o), s0) == after,
{
    assert(p.push(o).drop_last() =~= p);
    assert(p.push(o).last() == o);
}

/// Running nothing.
proof fn lemma_run_nothing(s0: Seq<int>)
    ensures
        runs_cleanly(Seq::<Op>::empty(), s0),
        run_ops(Seq::<Op>::empty(), s0) == s0,
{
}

/// `roll` with the depth `q.len()` and the count `a` on top rotates the `q`
/// values below them by `a` (taken modulo the depth).
proof fn lemma_roll(p: Seq<int>, q: Seq<int>, a: int)
    requires
        1 <= q.len() <= usize::MAX,
    ensures
        step_ok(Op::Roll, p + q + seq![q.len() as int, a]),
        step(Op::Roll, p + q + seq![q.len() as int, a]) == p + rotate_right(q, a % (q.len() as int)),
{
    let s = p + q + seq![q.len() as int, a];
    let n = s.len() as int;
    assert(s[n - 2] == q.len() && s[n - 1] == a);
    let rest = s.subrange(0, n - 2);
    assert(rest =~= p + q);
    let b = q.len() as int;
    let k = a % b;
    assert(rest.subrange(0, rest.len() - b) =~= p);
    assert(rest.subrange(rest.len() - b, rest.len() as int) =~= q);
    if k == 0 {
        assert(rotate_right(q, 0) =~= q);
        assert(p + q =~= rest);
    }
}

/// `push 2, push 1, roll` on top of `x, y`: the swap's last command.
proof fn lemma_swap_roll(p: Seq<int>, x: int, y: int)
    ensures
        step_ok(Op::Roll, p + seq![x, y, 2, 1]),
        step(Op::Roll, p + seq![x, y, 2, 1]) == p + seq![y, x],
{
    assert(p + seq![x, y, 2, 1] =~= p + seq![x, y] + seq![seq![x, y].len() as int, 1]);
    lemma_roll(p, seq![x, y], 1);
    assert(rotate_right(seq![x, y], 1) =~= seq![y, x]);
    assert(p + rotate_right(seq![x, y], 1int % 2) =~= p + seq![y, x]);
}

/// `push 3, push 1, roll` on top of `x, y, z` moves `z` below `x`.
proof fn lemma_roll3(p: Seq<int>, x: int, y: int, z: int, a: int)
    requires
        a == 1 || a == -1,
    ensures
        step_ok(Op::Roll, p + seq![x, y, z, 3, a]),
        step(Op::Roll, p + seq![x, y, z, 3, a]) == p + if a == 1 {
            seq![z, x, y]
        } else {
            seq![y, z, x]
        },
{
    assert(p + seq![x, y, z, 3, a] =~= p + seq![x, y, z] + seq![seq![x, y, z].len() as int, a]);
    lemma_roll(p, seq![x, y, z], a);
    if a == 1 {
        assert(rotate_right(seq![x, y, z], 1) =~= seq![z, x, y]);
    } else {
        assert(a % 3 == 2);
        assert(rotate_right(seq![x, y, z], 2) =~= seq![y, z, x]);
    }
}

/// The commands of the code that adds a variable holding `v`.
pub open spec fn add_var_ops(v: int) -> Seq<Op> {
    seq![
        Op::Push(v), Op::Push(2), Op::Push(1), Op::Roll, Op::Push(1), Op::Add, Op::Dup,
        Op::Push(3), Op::Push(1), Op::Roll, Op::Push(1), Op::Roll,
    ]
}

#[verifier::spinoff_prover]
proof fn lemma_add_var_ops(v: int)
    ensures
        instr_ops(add_var_code(v)) == add_var_ops(v),
{
    let c = add_var_code(v);
    let os = add_var_ops(v);
    assert(c =~= seq![
        Stmt::Instr(os[0]), Stmt::Instr(os[1]), Stmt::Instr(os[2]), Stmt::Instr(os[3]), Stmt::Instr(os[4]),
        Stmt::Instr(os[5]), Stmt::Instr(os[6]), Stmt::Instr(os[7]), Stmt::Instr(os[8]), Stmt::Instr(os[9]),
        Stmt::Instr(os[10]), Stmt::Instr(os[11]),
    ]);
    assert forall|i: int| 0 <= i < c.len() implies #[trigger] c[i] is Instr by {}
    lemma_instr_only(c);
    assert forall|i: int| 0 <= i < 12 implies #[trigger] instr_ops(c)[i] == os[i] by {
        assert(Stmt::Instr(instr_ops(c)[i]) == c[i]);
    }
    assert(instr_ops(c) =~= os);
}

/// Running `a` from `s` reaches `mid` and running `b` from there `end`:
/// running both reaches `end`.
proof fn lemma_chain(a: Seq<Op>, b: Seq<Op>, s: Seq<int>, mid: Seq<int>, end: Seq<int>)
    requires
        runs_to(a, s, mid),
        runs_to(b, mid, end),
    ensures
        runs_to(a + b, s, end),
{
    reveal(runs_to);
    lemma_run_concat(a, b, s);
}

/// Running a single command.
proof fn lemma_one(o: Op, s: Seq<int>, after: Seq<int>)
    requires
        step_ok(o, s),
        step(o, s) == after,
    ensures
        runs_to(seq![o], s, after),
{
    reveal(runs_to);
    lemma_run_nothing(s);
    lemma_extend(Seq::<Op>::empty(), o, s, s, after);
    assert(Seq::<Op>::empty().push(o) =~= seq![o]);
}

/// Two commands, one after the other.
proof fn lemma_two(o1: Op, o2: Op, s: Seq<int>, mid: Seq<int>, end: Seq<int>)
    requires
        step_ok(o1, s),
        step(o1, s) == mid,
        step_ok(o2, mid),
        step(o2, mid) == end,
    ensures
        runs_to(seq![o1, o2], s, end),
{
    lemma_one(o1, s, mid);
    lemma_one(o2, mid, end);
    lemma_chain(seq![o1], seq![o2], s, mid, end);
    assert(seq![o1] + seq![o2] =~= seq![o1, o2]);
}

/// `push c`.
proof fn lemma_run_push(p: Seq<int>, c: int)
    ensures
        runs_to(seq![Op::Push(c)], p, p.push(c)),
{
    lemma_one(Op::Push(c), p, p.push(c));
}

/// `dup`.
proof fn lemma_run_dup(p: Seq<int>, x: int)
    ensures
        runs_to(seq![Op::Dup], p.push(x), p.push(x).push(x)),
{
    lemma_one(Op::Dup, p.push(x), p.push(x).push(x));
}

/// `push 1, add` adds one to the top value.
proof fn lemma_run_inc(p: Seq<int>, x: int)
    ensures
        runs_to(seq![Op::Push(1), Op::Add], p.push(x), p.push(x + 1)),
{
    let m = p.push(x).push(1);
    assert(step(Op::Add, m) =~= p.push(x + 1));
    lemma_two(Op::Push(1), Op::Add, p.push(x), m, p.push(x + 1));
}

/// `sub` takes the top value from the one below.
proof fn lemma_run_sub(p: Seq<int>, x: int, y: int)
    ensures
        runs_to(seq![Op::Sub], p.push(x).push(y), p.push(x - y)),
{
    assert(step(Op::Sub, p.push(x).push(y)) =~= p.push(x - y));
    lemma_one(Op::Sub, p.push(x).push(y), p.push(x - y));
}

/// The commands of the code that swaps the two top values.
pub open spec fn swap_ops() -> Seq<Op> {
    seq![Op::Push(2), Op::Push(1), Op::Roll]
}

/// Swapping the two top values.
proof fn lemma_run_swap(p: Seq<int>, x: int, y: int)
    ensures
        runs_to(swap_ops(), p + seq![x, y], p + seq![y, x]),
{
    let s0 = p + seq![x, y];
    let s2 = p + seq![x, y, 2, 1];
    assert(step(Op::Push(2), s0) =~= p + seq![x, y, 2]);
    assert(step(Op::Push(1), p + seq![x, y, 2]) =~= s2);
    lemma_two(Op::Push(2), Op::Push(1), s0, p + seq![x, y, 2], s2);
    lemma_swap_roll(p, x, y);
    lemma_one(Op::Roll, s2, p + seq![y, x]);
    lemma_chain(seq![Op::Push(2), Op::Push(1)], seq![Op::Roll], s0, s2, p + seq![y, x]);
    assert(seq![Op::Push(2), Op::Push(1)] + seq![Op::Roll] =~= swap_ops());
}

/// `push 3, push a, roll` for `a` of 1 or -1.
proof fn lemma_run_roll3(p: Seq<int>, x: int, y: int, z: int, a: int)
    requires
        a == 1 || a == -1,
    ensures
        runs_to(
            seq![Op::Push(3), Op::Push(a), Op::Roll],
            p + seq![x, y, z],
            p + if a == 1 {
                seq![z, x, y]
            } else {
                seq![y, z, x]
            },
        ),
{
    let s0 = p + seq![x, y, z];
    let s2 = p + seq![x, y, z, 3, a];
    assert(step(Op::Push(3), s0) =~= p + seq![x, y, z, 3]);
    assert(step(Op::Push(a), p + seq![x, y, z, 3]) =~= s2);
    lemma_two(Op::Push(3), Op::Push(a), s0, p + seq![x, y, z, 3], s2);
    lemma_roll3(p, x, y, z, a);
    let end = p + if a == 1 {
        seq![z, x, y]
    } else {
        seq![y, z, x]
    };
    lemma_one(Op::Roll, s2, end);
    lemma_chain(seq![Op::Push(3), Op::Push(a)], seq![Op::Roll], s0, s2, end);
    assert(seq![Op::Push(3), Op::Push(a)] + seq![Op::Roll] =~= seq![Op::Push(3), Op::Push(a), Op::Roll]);
}

/// `push a, roll` with the depth `q.len()` on top.
proof fn lemma_run_deep_roll(p: Seq<int>, q: Seq<int>, a: int)
    requires
        1 <= q.len() <= usize::MAX,
    ensures
        runs_to(
            seq![Op::Push(a), Op::Roll],
            p + q + seq![q.len() as int],
            p + rotate_right(q, a % (q.len() as int)),
        ),
{
    let s0 = p + q + seq![q.len() as int];
    let s1 = p + q + seq![q.len() as int, a];
    assert(step(Op::Push(a), s0) =~= s1);
    lemma_roll(p, q, a);
    lemma_two(Op::Push(a), Op::Roll, s0, s1, p + rotate_right(q, a % (q.len() as int)));
}

/// Adding a variable's value `v` to the frame puts it at the bottom of the
/// frame, just above the 0, and counts it.
proof fn lemma_add_var_runs(v: int, w: Seq<int>)
    requires
        w.len() + 2 <= usize::MAX,
    ensures
        runs_to(
            instr_ops(add_var_code(v)),
            seq![0int] + w + seq![(w.len() + 1) as int],
            seq![0int, v] + w + seq![(w.len() + 2) as int],
        ),
{
    lemma_add_var_ops(v);
    let pp = seq![0int] + w;
    let t: int = (w.len() + 1) as int;
    let s0 = pp + seq![t];
    let a = seq![Op::Push(v)];
    let b = swap_ops();
    let c = seq![Op::Push(1), Op::Add];
    let d = seq![Op::Dup];
    let e = seq![Op::Push(3), Op::Push(1), Op::Roll];
    let f = seq![Op::Push(1), Op::Roll];
    lemma_run_push(s0, v);
    assert(s0.push(v) =~= pp + seq![t, v]);
    lemma_run_swap(pp, t, v);
    lemma_chain(a, b, s0, pp + seq![t, v], pp + seq![v, t]);
    assert(pp + seq![v, t] =~= (pp + seq![v]).push(t));
    lemma_run_inc(pp + seq![v], t);
    assert((pp + seq![v]).push(t + 1) =~= pp + seq![v, t + 1]);
    lemma_chain(a + b, c, s0, pp + seq![v, t], pp + seq![v, t + 1]);
    assert(pp + seq![v, t + 1] =~= (pp + seq![v]).push(t + 1));
    lemma_run_dup(pp + seq![v], t + 1);
    assert((pp + seq![v]).push(t + 1).push(t + 1) =~= pp + seq![v, t + 1, t + 1]);
    lemma_chain(a + b + c, d, s0, pp + seq![v, t + 1], pp + seq![v, t + 1, t + 1]);
    lemma_run_roll3(pp, v, t + 1, t + 1, 1);
    lemma_chain(a + b + c + d, e, s0, pp + seq![v, t + 1, t + 1], pp + seq![t + 1, v, t + 1]);
    let q = w + seq![t + 1, v];
    assert(pp + seq![t + 1, v, t + 1] =~= seq![0int] + q + seq![q.len() as int]);
    lemma_run_deep_roll(seq![0int], q, 1);
    vstd::arithmetic::div_mod::lemma_small_mod(1, q.len());
    let end = seq![0int, v] + w + seq![(w.len() + 2) as int];
    assert(seq![0int] + rotate_right(q, 1) =~= end);
    lemma_chain(a + b + c + d + e, f, s0, pp + seq![t + 1, v, t + 1], end);
    assert(a + b + c + d + e + f =~= add_var_ops(v));
}

/// Running nothing reaches the stack it starts from.
proof fn lemma_runs_nothing(s0: Seq<int>)
    ensures
        runs_to(Seq::<Op>::empty(), s0, s0),
{
    reveal(runs_to);
}

/// Sorting pairs already in the order of their numbers changes nothing.
proof fn lemma_sorted_stays(s: Seq<(Seq<char>, usize)>)
    requires
        forall|i: int, j: int| 0 <= i < j < s.len() ==> s[i].1 <= s[j].1,
    ensures
        sort_by_number(s) == s,
    decreases s.len(),
{
    if s.len() > 0 {
        let p = s.drop_last();
        assert forall|i: int, j: int| 0 <= i < j < p.len() implies p[i].1 <= p[j].1 by {
            assert(p[i] == s[i] && p[j] == s[j]);
        }
        lemma_sorted_stays(p);
        if p.len() > 0 {
            assert(p.last() == s[s.len() - 2]);
        }
        assert(p.push(s.last()) =~= s);
    }
}

/// With distinct names, looking up an entry's name finds that entry.
proof fn lemma_lookup_at(vars: Seq<(Seq<char>, VarView)>, i: int)
    requires
        names_distinct(vars),
        0 <= i < vars.len(),
    ensures
        lookup(vars, vars[i].0) == Some(vars[i].1),
{
    assert(vars[i].0 == vars[i].0);
    let j = choose|j: int| 0 <= j < vars.len() && #[trigger] vars[j].0 == vars[i].0;
    if j != i {
        if j < i {
            assert(vars[j].0 != vars[i].0);
        } else {
            assert(vars[i].0 != vars[j].0);
        }
    }
}

/// Variables whose slots are their positions come out of the slot sort in
/// the same order.
proof fn lemma_slot_order(vars: Seq<(Seq<char>, VarView)>)
    requires
        slots_in_order(vars),
    ensures
        sort_by_number(var_slots(vars)) == var_slots(vars),
        var_slots(vars).len() == vars.len(),
        forall|i: int| 0 <= i < vars.len() ==> #[trigger] var_slots(vars)[i] == (vars[i].0, i as usize),
{
    let s = var_slots(vars);
    assert forall|i: int| 0 <= i < vars.len() implies #[trigger] var_slots(vars)[i] == (vars[i].0, i as usize) by {
        assert(vars[i].1.var_index == i);
    }
    assert forall|i: int, j: int| 0 <= i < j < s.len() implies s[i].1 <= s[j].1 by {
        assert(s[i] == (vars[i].0, i as usize));
        assert(s[j] == (vars[j].0, j as usize));
    }
    lemma_sorted_stays(s);
}

/// The set-up for the first `j` variables puts their values, by slot,
/// below the values `w` already in the frame.
proof fn lemma_frame_runs(vars: Seq<(Seq<char>, VarView)>, j: nat, w: Seq<int>)
    requires
        names_distinct(vars),
        slots_in_order(vars),
        j <= vars.len(),
        w.len() + j + 2 <= usize::MAX,
    ensures
        runs_to(
            instr_ops(frame_code(var_slots(vars), vars, j)),
            seq![0int] + w + seq![(w.len() + 1) as int],
            seq![0int] + var_values(vars).take(j as int) + w + seq![(w.len() + j + 1) as int],
        ),
    decreases j,
{
    let order = var_slots(vars);
    lemma_slot_order(vars);
    let s0 = seq![0int] + w + seq![(w.len() + 1) as int];
    if j == 0 {
        assert(frame_code(order, vars, 0) =~= Seq::<Stmt>::empty());
        lemma_runs_nothing(s0);
        assert(seq![0int] + var_values(vars).take(0) + w + seq![(w.len() + 0 + 1) as int] =~= s0);
        assert(instr_ops(Seq::<Stmt>::empty()) =~= Seq::<Op>::empty());
    } else {
        let v = vars[j - 1].1.value;
        lemma_lookup_at(vars, j - 1);
        assert(order[j - 1].0 == vars[j - 1].0);
        let head = add_var_code(v);
        let tail = frame_code(order, vars, (j - 1) as nat);
        assert(frame_code(order, vars, j) == head + tail);
        lemma_instr_ops_concat(head, tail);
        lemma_add_var_runs(v, w);
        let w2 = seq![v] + w;
        let mid = seq![0int, v] + w + seq![(w.len() + 2) as int];
        assert(mid =~= seq![0int] + w2 + seq![(w2.len() + 1) as int]);
        lemma_frame_runs(vars, (j - 1) as nat, w2);
        let vals = var_values(vars);
        let end = seq![0int] + vals.take(j as int) + w + seq![(w.len() + j + 1) as int];
        assert(vals[j - 1] == v);
        assert(seq![0int] + vals.take(j - 1) + w2 + seq![(w2.len() + (j - 1) + 1) as int] =~= end);
        lemma_chain(instr_ops(head), instr_ops(tail), s0, mid, end);
    }
}

/// The frame set-up that starts `main`, run from an empty stack, leaves the
/// variables' values by slot above a 0 and below their count plus one:
/// the frame the code reading and writing variables works on.
pub proof fn lemma_prologue_frame(vars: Seq<(Seq<char>, VarView)>)
    requires
        names_distinct(vars),
        slots_in_order(vars),
        vars.len() + 2 <= usize::MAX,
    ensures
        runs_cleanly(instr_ops(prologue(vars)), seq![]),
        run_ops(instr_ops(prologue(vars)), seq![]) == frame_stack(var_values(vars), seq![]),
{
    let order = sort_by_number(var_slots(vars));
    lemma_slot_order(vars);
    let start = seq![Stmt::Instr(Op::Push(0)), Stmt::Instr(Op::Push(1))];
    let rest = frame_code(order, vars, order.len());
    assert(prologue(vars) == start + rest);
    lemma_instr_ops_concat(start, rest);
    assert forall|i: int| 0 <= i < start.len() implies #[trigger] start[i] is Instr by {}
    lemma_instr_only(start);
    assert(instr_ops(start) =~= seq![Op::Push(0), Op::Push(1)]) by {
        assert(Stmt::Instr(instr_ops(start)[0]) == start[0]);
        assert(Stmt::Instr(instr_ops(start)[1]) == start[1]);
    }
    let e = Seq::<int>::empty();
    assert(step(Op::Push(0), e) =~= seq![0int]);
    assert(step(Op::Push(1), seq![0int]) =~= seq![0int, 1]);
    lemma_two(Op::Push(0), Op::Push(1), e, seq![0int], seq![0int, 1]);
    assert(seq![0int, 1] =~= seq![0int] + e + seq![(e.len() + 1) as int]);
    lemma_frame_runs(vars, vars.len(), e);
    let vals = var_values(vars);
    assert(vals.take(vars.len() as int) =~= vals);
    assert(seq![0int] + vals.take(vars.len() as int) + e + seq![(e.len() + vars.len() + 1) as int] =~= frame_stack(vals, seq![]));
    lemma_chain(seq![Op::Push(0), Op::Push(1)], instr_ops(rest), e, seq![0int, 1], frame_stack(vals, seq![]));
    reveal(runs_to);
}

/// The commands of the code that computes the depth of slot `slot`.
pub open spec fn depth_ops(slot: int) -> Seq<Op> {
    seq![Op::Push(slot + 1)] + swap_ops() + seq![Op::Dup] + seq![Op::Push(3), Op::Push(1), Op::Roll] + swap_ops()
        + seq![Op::Sub] + seq![Op::Push(1), Op::Add]
}

/// The commands of the code that copies a value from a depth.
pub open spec fn dup_at_ops() -> Seq<Op> {
    seq![Op::Dup] + seq![Op::Push(1), Op::Add] + seq![Op::Push(-1), Op::Roll] + seq![Op::Dup] + seq![
        Op::Push(3),
        Op::Push(-1),
        Op::Roll,
    ] + seq![Op::Push(1), Op::Add] + seq![Op::Push(1), Op::Roll]
}

/// The commands of the code that reads the variable in slot `slot`.
pub open spec fn get_ops(slot: int) -> Seq<Op> {
    depth_ops(slot) + dup_at_ops() + swap_ops() + seq![Op::Push(1), Op::Add]
}

#[verifier::spinoff_prover]
proof fn lemma_depth_ops(slot: int)
    ensures
        instr_ops(depth_code(slot)) == depth_ops(slot),
{
    let c = depth_code(slot);
    let os = depth_ops(slot);
    assert(c.len() == 14 && os.len() == 14);
    assert forall|i: int| 0 <= i < 14 implies #[trigger] c[i] == Stmt::Instr(os[i]) by {}
    assert forall|i: int| 0 <= i < c.len() implies #[trigger] c[i] is Instr by {
        assert(c[i] == Stmt::Instr(os[i]));
    }
    lemma_instr_only(c);
    assert forall|i: int| 0 <= i < 14 implies #[trigger] instr_ops(c)[i] == os[i] by {
        assert(Stmt::Instr(instr_ops(c)[i]) == c[i]);
        assert(c[i] == Stmt::Instr(os[i]));
    }
    assert(instr_ops(c) =~= os);
}

#[verifier::spinoff_prover]
proof fn lemma_dup_at_ops()
    ensures
        instr_ops(dup_at_depth_code()) == dup_at_ops(),
        instr_ops(swap_code()) == swap_ops(),
{
    let c = dup_at_depth_code();
    let os = dup_at_ops();
    assert(c.len() == 13 && os.len() == 13);
    assert forall|i: int| 0 <= i < 13 implies #[trigger] c[i] == Stmt::Instr(os[i]) by {}
    assert forall|i: int| 0 <= i < c.len() implies #[trigger] c[i] is Instr by {
        assert(c[i] == Stmt::Instr(os[i]));
    }
    lemma_instr_only(c);
    assert forall|i: int| 0 <= i < 13 implies #[trigger] instr_ops(c)[i] == os[i] by {
        assert(Stmt::Instr(instr_ops(c)[i]) == c[i]);
        assert(c[i] == Stmt::Instr(os[i]));
    }
    assert(instr_ops(c) =~= os);
    let w = swap_code();
    let ws = swap_ops();
    assert forall|i: int| 0 <= i < 3 implies #[trigger] w[i] == Stmt::Instr(ws[i]) by {}
    assert forall|i: int| 0 <= i < w.len() implies #[trigger] w[i] is Instr by {
        assert(w[i] == Stmt::Instr(ws[i]));
    }
    lemma_instr_only(w);
    assert forall|i: int| 0 <= i < 3 implies #[trigger] instr_ops(w)[i] == ws[i] by {
        assert(Stmt::Instr(instr_ops(w)[i]) == w[i]);
        assert(w[i] == Stmt::Instr(ws[i]));
    }
    assert(instr_ops(w) =~= ws);
}

/// The code reading a variable gives the commands of `get_ops`.
proof fn lemma_get_ops(slot: int, name: Seq<char>)
    ensures
        instr_ops(get_code(slot, name)) == get_ops(slot),
{
    let a = seq![Stmt::Comment(seq!['+'] + name)];
    let b = depth_code(slot);
    let c = dup_at_depth_code();
    let d = swap_code();
    let e1 = seq![Stmt::Instr(Op::Push(1)), Stmt::Instr(Op::Add)];
    let e2 = seq![Stmt::Comment(seq!['-'] + name)];
    assert(get_code(slot, name) =~= a + b + c + d + e1 + e2);
    lemma_instr_ops_concat(a + b + c + d + e1, e2);
    lemma_instr_ops_concat(a + b + c + d, e1);
    lemma_instr_ops_concat(a + b + c, d);
    lemma_instr_ops_concat(a + b, c);
    lemma_instr_ops_concat(a, b);
    lemma_comment_ops(seq!['+'] + name);
    lemma_comment_ops(seq!['-'] + name);
    lemma_depth_ops(slot);
    lemma_dup_at_ops();
    assert forall|i: int| 0 <= i < e1.len() implies #[trigger] e1[i] is Instr by {}
    lemma_instr_only(e1);
    assert(instr_ops(e1) =~= seq![Op::Push(1), Op::Add]) by {
        assert(Stmt::Instr(instr_ops(e1)[0]) == e1[0]);
        assert(Stmt::Instr(instr_ops(e1)[1]) == e1[1]);
    }
    assert(Seq::<Op>::empty() + depth_ops(slot) =~= depth_ops(slot));
    assert(get_ops(slot) + Seq::<Op>::empty() =~= get_ops(slot));
}

/// With the frame count `s.len()` on top of `s`, the depth code for slot
/// `k` pushes `s.len() - k`, the depth at which that slot's value lies.
proof fn lemma_depth_runs(s: Seq<int>, k: int)
    ensures
        runs_to(depth_ops(k), s.push(s.len() as int), s + seq![s.len() as int, s.len() - k]),
{
    let t = s.len() as int;
    let s0 = s.push(t);
    let a = seq![Op::Push(k + 1)];
    let b = swap_ops();
    let c = seq![Op::Dup];
    let d = seq![Op::Push(3), Op::Push(1), Op::Roll];
    let e = swap_ops();
    let f = seq![Op::Sub];
    let g = seq![Op::Push(1), Op::Add];
    lemma_run_push(s0, k + 1);
    assert(s0.push(k + 1) =~= s + seq![t, k + 1]);
    lemma_run_swap(s, t, k + 1);
    lemma_chain(a, b, s0, s + seq![t, k + 1], s + seq![k + 1, t]);
    assert(s + seq![k + 1, t] =~= (s + seq![k + 1]).push(t));
    lemma_run_dup(s + seq![k + 1], t);
    assert((s + seq![k + 1]).push(t).push(t) =~= s + seq![k + 1, t, t]);
    lemma_chain(a + b, c, s0, s + seq![k + 1, t], s + seq![k + 1, t, t]);
    lemma_run_roll3(s, k + 1, t, t, 1);
    lemma_chain(a + b + c, d, s0, s + seq![k + 1, t, t], s + seq![t, k + 1, t]);
    assert(s + seq![t, k + 1, t] =~= (s + seq![t]) + seq![k + 1, t]);
    lemma_run_swap(s + seq![t], k + 1, t);
    assert((s + seq![t]) + seq![t, k + 1] =~= (s + seq![t]).push(t).push(k + 1));
    lemma_chain(a + b + c + d, e, s0, s + seq![t, k + 1, t], (s + seq![t]).push(t).push(k + 1));
    lemma_run_sub(s + seq![t], t, k + 1);
    lemma_chain(a + b + c + d + e, f, s0, (s + seq![t]).push(t).push(k + 1), (s + seq![t]).push(t - (k + 1)));
    lemma_run_inc(s + seq![t], t - (k + 1));
    assert((s + seq![t]).push(t - (k + 1) + 1) =~= s + seq![t, t - k]);
    lemma_chain(a + b + c + d + e + f, g, s0, (s + seq![t]).push(t - (k + 1)), s + seq![t, t - k]);
    assert(a + b + c + d + e + f + g =~= depth_ops(k));
}

/// With the frame count on top of `s` and the depth `s.len() - k` above
/// it, the copy code leaves the count with a copy of `s[k + 1]` on top.
proof fn lemma_dup_at_runs(s: Seq<int>, k: int)
    requires
        0 <= k,
        k + 1 < s.len(),
        s.len() + 2 <= usize::MAX,
    ensures
        runs_to(dup_at_ops(), s + seq![s.len() as int, s.len() - k], s + seq![s.len() as int, s[k + 1]]),
{
    let t = s.len() as int;
    let d = t - k;
    let x = s[k + 1];
    let s0 = s + seq![t, d];
    let p = s.subrange(0, k + 1);
    let r = p + s.subrange(k + 2, t);
    let a = seq![Op::Dup];
    let b = seq![Op::Push(1), Op::Add];
    let c = seq![Op::Push(-1), Op::Roll];
    let dd = seq![Op::Dup];
    let e = seq![Op::Push(3), Op::Push(-1), Op::Roll];
    let f = seq![Op::Push(1), Op::Add];
    let g = seq![Op::Push(1), Op::Roll];
    assert(s0 =~= (s + seq![t]).push(d));
    lemma_run_dup(s + seq![t], d);
    lemma_run_inc(s0, d);
    lemma_chain(a, b, s0, s0.push(d), s0.push(d + 1));
    let q = s.subrange(k + 1, t) + seq![t, d];
    assert(q.len() == d + 1);
    assert(s0.push(d + 1) =~= p + q + seq![q.len() as int]);
    lemma_run_deep_roll(p, q, -1);
    vstd::arithmetic::div_mod::lemma_fundamental_div_mod_converse(-1, d + 1, -1, d);
    let s3 = r + seq![t, d, x];
    assert(p + rotate_right(q, d) =~= s3);
    lemma_chain(a + b, c, s0, s0.push(d + 1), s3);
    assert(s3 =~= (r + seq![t, d]).push(x));
    lemma_run_dup(r + seq![t, d], x);
    assert((r + seq![t, d]).push(x).push(x) =~= (r + seq![t]) + seq![d, x, x]);
    lemma_chain(a + b + c, dd, s0, s3, (r + seq![t]) + seq![d, x, x]);
    lemma_run_roll3(r + seq![t], d, x, x, -1);
    let s5 = (r + seq![t]) + seq![x, x, d];
    lemma_chain(a + b + c + dd, e, s0, (r + seq![t]) + seq![d, x, x], s5);
    assert(s5 =~= (r + seq![t, x, x]).push(d));
    lemma_run_inc(r + seq![t, x, x], d);
    lemma_chain(a + b + c + dd + e, f, s0, s5, (r + seq![t, x, x]).push(d + 1));
    let q2 = s.subrange(k + 2, t) + seq![t, x, x];
    assert(q2.len() == d + 1);
    assert((r + seq![t, x, x]).push(d + 1) =~= p + q2 + seq![q2.len() as int]);
    lemma_run_deep_roll(p, q2, 1);
    vstd::arithmetic::div_mod::lemma_small_mod(1, q2.len());
    let end = s + seq![t, x];
    assert(p + rotate_right(q2, 1) =~= end);
    lemma_chain(a + b + c + dd + e + f, g, s0, (r + seq![t, x, x]).push(d + 1), end);
    assert(a + b + c + dd + e + f + g =~= dup_at_ops());
}

/// Reading the variable in slot `k` pushes its value: on the frame of the
/// slot values `vals` with the values `extra` pushed since, the code that
/// `get` lowers to leaves the same frame with the value of slot `k` pushed
/// (and counted).
pub proof fn lemma_get_reads(vals: Seq<int>, extra: Seq<int>, k: int, name: Seq<char>)
    requires
        0 <= k < vals.len(),
        vals.len() + extra.len() + 3 <= usize::MAX,
    ensures
        runs_cleanly(instr_ops(get_code(k, name)), frame_stack(vals, extra)),
        run_ops(instr_ops(get_code(k, name)), frame_stack(vals, extra)) == frame_stack(vals, extra.push(vals[k])),
{
    lemma_get_ops(k, name);
    let s = seq![0int] + vals + extra;
    let t = s.len() as int;
    let x = vals[k];
    assert(s[k + 1] == x);
    assert(frame_stack(vals, extra) =~= s.push(t));
    lemma_depth_runs(s, k);
    lemma_dup_at_runs(s, k);
    lemma_chain(depth_ops(k), dup_at_ops(), s.push(t), s + seq![t, t - k], s + seq![t, x]);
    lemma_run_swap(s, t, x);
    lemma_chain(depth_ops(k) + dup_at_ops(), swap_ops(), s.push(t), s + seq![t, x], s + seq![x, t]);
    assert(s + seq![x, t] =~= (s + seq![x]).push(t));
    lemma_run_inc(s + seq![x], t);
    assert((s + seq![x]).push(t + 1) =~= frame_stack(vals, extra.push(x)));
    lemma_chain(
        depth_ops(k) + dup_at_ops() + swap_ops(),
        seq![Op::Push(1), Op::Add],
        s.push(t),
        s + seq![x, t],
        frame_stack(vals, extra.push(x)),
    );
    reveal(runs_to);
}

/// A variable read at the start of `main` gives the value it was declared
/// with: running the frame set-up and then the lowered `get` of variable
/// `i` from an empty stack leaves the frame with that value pushed.
pub proof fn lemma_prologue_then_get(vars: Seq<(Seq<char>, VarView)>, i: int)
    requires
        names_distinct(vars),
        slots_in_order(vars),
        0 <= i < vars.len(),
        vars.len() + 3 <= usize::MAX,
    ensures
        runs_cleanly(instr_ops(prologue(vars) + lower_stmt(vars, MStmt::GetVar(vars[i].0))), seq![]),
        run_ops(instr_ops(prologue(vars) + lower_stmt(vars, MStmt::GetVar(vars[i].0))), seq![]) == frame_stack(
            var_values(vars),
            seq![vars[i].1.value],
        ),
{
    lemma_lookup_at(vars, i);
    assert(vars[i].1.var_index == i);
    let g = lower_stmt(vars, MStmt::GetVar(vars[i].0));
    assert(g == get_code(i, debug_quoted(vars[i].0)));
    lemma_instr_ops_concat(prologue(vars), g);
    lemma_prologue_frame(vars);
    let vals = var_values(vars);
    lemma_get_reads(vals, seq![], i, debug_quoted(vars[i].0));
    assert(vals[i] == vars[i].1.value);
    assert(Seq::<int>::empty().push(vals[i]) =~= seq![vars[i].1.value]);
    lemma_run_concat(instr_ops(prologue(vars)), instr_ops(g), seq![]);
}

} // verus!
