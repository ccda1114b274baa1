//! What running the statements of a block does, and why the peephole
//! optimizer does not change it.

use super::expr::{stmts, Expr};
use super::{debug_line, name_with_index, stk_run, stk_step, term_label, RunOutcome, StkMachine};
use crate::label_map::{has_name, lookup, names_distinct};
use super::expr::Stmt;
use super::optimize::{
    all_pushes, dup_count, fold_value, is_fold_op, is_push, lemma_rewrite_shrinks, no_comments,
    optimized_block, peephole, push_stmt, push_value, refold, rewrite_at, Rewrite,
};
use crate::integer::div_toward_zero;
use crate::piet_interpreter::{binary_result, cmd_crashes, cmd_effect, rotate_right, Op};
use vstd::prelude::*;

verus! {

/// The machine state a block's statements act on.
pub struct RunState {
    pub stack: Seq<int>,
    pub input: Seq<u8>,
    pub output: Seq<char>,
    pub log: Seq<char>,
}

/// One statement: the state after it and, for a jump (`goto`, `branch`,
/// `goto_stk`), the jump itself, which ends the run; `None` when it is a
/// command the machine refuses or aborts on.
pub open spec fn run_one(s: Stmt, st: RunState) -> Option<(RunState, Option<Stmt>)> {
    match s {
        Stmt::Instr(c) => if cmd_crashes(c, st.stack, st.input) {
            None
        } else {
            let (s2, i2, o2, ok) = cmd_effect(c, st.stack, st.input);
            if ok {
                Some((RunState { stack: s2, input: i2, output: st.output + o2, log: st.log }, None))
            } else {
                None
            }
        },
        Stmt::Debug => Some((RunState { log: st.log + debug_line(st.stack), ..st }, None)),
        Stmt::Comment(_) => Some((st, None)),
        _ => Some((st, Some(s))),
    }
}

/// Runs statements from the front until the first jump: the state then
/// and the jump (`None` when the statements run out first); `None` when a
/// command is refused or aborts before.
pub open spec fn run_stmts(ss: Seq<Stmt>, st: RunState) -> Option<(RunState, Option<Stmt>)>
    decreases ss.len(),
{
    if ss.len() == 0 {
        Some((st, None))
    } else {
        match run_stmts(ss.drop_last(), st) {
            None => None,
            Some((st1, j)) => if j is Some {
                Some((st1, j))
            } else {
                run_one(ss.last(), st1)
            },
        }
    }
}

/// Whether `t` does what `ss` does whenever `ss` runs without a refused
/// command.
pub open spec fn runs_alike(t: Seq<Stmt>, ss: Seq<Stmt>) -> bool {
    forall|st: RunState| #[trigger] run_stmts(ss, st) is Some ==> run_stmts(t, st) == run_stmts(ss, st)
}

/// Running two runs of statements one after the other.
pub proof fn lemma_run_concat(p: Seq<Stmt>, q: Seq<Stmt>, st: RunState)
    ensures
        run_stmts(p + q, st) == (match run_stmts(p, st) {
            None => None,
            Some((st1, j)) => if j is Some {
                Some((st1, j))
            } else {
                run_stmts(q, st1)
            },
        }),
    decreases q.len(),
{
    if q.len() == 0 {
        assert(p + q =~= p);
    } else {
        lemma_run_concat(p, q.drop_last(), st);
        assert((p + q).drop_last() =~= p + q.drop_last());
        assert((p + q).last() == q.last());
    }
}

/// Replacing a part by one that runs alike keeps the whole running alike.
pub proof fn lemma_runs_alike_context(pre: Seq<Stmt>, w: Seq<Stmt>, w2: Seq<Stmt>, suf: Seq<Stmt>)
    requires
        runs_alike(w2, w),
    ensures
        runs_alike(pre + w2 + suf, pre + w + suf),
{
    assert forall|st: RunState| #[trigger] run_stmts(pre + w + suf, st) is Some implies run_stmts(
        pre + w2 + suf,
        st,
    ) == run_stmts(pre + w + suf, st) by {
        lemma_run_concat(pre + w, suf, st);
        lemma_run_concat(pre + w2, suf, st);
        lemma_run_concat(pre, w, st);
        lemma_run_concat(pre, w2, st);
        match run_stmts(pre, st) {
            None => {},
            Some((st1, j)) => {
                if j is None {
                    if run_stmts(w, st1) is Some {
                        assert(run_stmts(w2, st1) == run_stmts(w, st1));
                    }
                }
            },
        }
    }
}

/// Running alike is transitive.
pub proof fn lemma_runs_alike_trans(a: Seq<Stmt>, b: Seq<Stmt>, c: Seq<Stmt>)
    requires
        runs_alike(a, b),
        runs_alike(b, c),
    ensures
        runs_alike(a, c),
{
    assert forall|st: RunState| #[trigger] run_stmts(c, st) is Some implies run_stmts(a, st) == run_stmts(c, st) by {
        assert(run_stmts(b, st) == run_stmts(c, st));
        assert(run_stmts(b, st) is Some);
    }
}

/// Running one statement.
proof fn lemma_run_single(x: Stmt, st: RunState)
    ensures
        run_stmts(seq![x], st) == run_one(x, st),
{
    assert(seq![x].drop_last() =~= Seq::<Stmt>::empty());
    assert(run_stmts(Seq::<Stmt>::empty(), st) == Some((st, None::<Stmt>)));
}

/// Running two statements.
proof fn lemma_run_pair(x: Stmt, y: Stmt, st: RunState)
    ensures
        run_stmts(seq![x, y], st) == (match run_one(x, st) {
            None => None,
            Some((st1, j)) => if j is Some {
                Some((st1, j))
            } else {
                run_one(y, st1)
            },
        }),
{
    lemma_run_single(x, st);
    assert(seq![x, y].drop_last() =~= seq![x]);
}

/// Running three statements.
proof fn lemma_run_triple(x: Stmt, y: Stmt, z: Stmt, st: RunState)
    ensures
        run_stmts(seq![x, y, z], st) == (match run_stmts(seq![x, y], st) {
            None => None,
            Some((st1, j)) => if j is Some {
                Some((st1, j))
            } else {
                run_one(z, st1)
            },
        }),
{
    assert(seq![x, y, z].drop_last() =~= seq![x, y]);
}

/// The state after pushing `v`.
pub open spec fn pushed_state(st: RunState, v: int) -> RunState {
    RunState { stack: st.stack.push(v), ..st }
}

/// A push always runs and pushes its value.
proof fn lemma_run_push(v: int, st: RunState)
    ensures
        run_one(push_stmt(v), st) == Some((pushed_state(st, v), None::<Stmt>)),
{
    assert(st.output + Seq::<char>::empty() =~= st.output);
}

/// The values pushed by a run of pushes.
pub open spec fn push_values(ps: Seq<Stmt>) -> Seq<int> {
    ps.map_values(|s: Stmt| push_value(s))
}

/// A run of pushes pushes its values in order.
proof fn lemma_run_pushes(ps: Seq<Stmt>, st: RunState)
    requires
        all_pushes(ps),
    ensures
        run_stmts(ps, st) == Some((RunState { stack: st.stack + push_values(ps), ..st }, None::<Stmt>)),
    decreases ps.len(),
{
    if ps.len() == 0 {
        assert(st.stack + push_values(ps) =~= st.stack);
    } else {
        let init = ps.drop_last();
        assert(all_pushes(init)) by {
            assert forall|j: int| 0 <= j < init.len() implies is_push(#[trigger] init[j]) by {
                assert(init[j] == ps[j]);
            }
        }
        lemma_run_pushes(init, st);
        assert(is_push(ps[ps.len() - 1]));
        let v = push_value(ps.last());
        assert(ps.last() == push_stmt(v));
        let st1 = RunState { stack: st.stack + push_values(init), ..st };
        lemma_run_push(v, st1);
        assert((st.stack + push_values(init)).push(v) =~= st.stack + push_values(ps));
    }
}

/// A push and a `pop` do nothing.
proof fn lemma_push_pop(a: int)
    ensures
        runs_alike(Seq::<Stmt>::empty(), seq![push_stmt(a), Stmt::Instr(Op::Pop)]),
{
    let w = seq![push_stmt(a), Stmt::Instr(Op::Pop)];
    assert forall|st: RunState| #[trigger] run_stmts(w, st) is Some implies run_stmts(
        Seq::<Stmt>::empty(),
        st,
    ) == run_stmts(w, st) by {
        lemma_run_pair(push_stmt(a), Stmt::Instr(Op::Pop), st);
        lemma_run_push(a, st);
        assert(st.stack.push(a).drop_last() =~= st.stack);
        assert(st.output + Seq::<char>::empty() =~= st.output);
    }
}

/// A push and a `not` push the negation.
proof fn lemma_push_not(a: int)
    ensures
        runs_alike(seq![push_stmt(if a == 0 { 1 } else { 0 })], seq![push_stmt(a), Stmt::Instr(Op::Not)]),
{
    let w = seq![push_stmt(a), Stmt::Instr(Op::Not)];
    let v = if a == 0 { 1int } else { 0int };
    assert forall|st: RunState| #[trigger] run_stmts(w, st) is Some implies run_stmts(seq![push_stmt(v)], st)
        == run_stmts(w, st) by {
        lemma_run_pair(push_stmt(a), Stmt::Instr(Op::Not), st);
        lemma_run_push(a, st);
        lemma_run_single(push_stmt(v), st);
        lemma_run_push(v, st);
        assert(st.stack.push(a).drop_last().push(v) =~= st.stack.push(v));
        assert(st.output + Seq::<char>::empty() =~= st.output);
    }
}

/// A push and a `dup` push the value twice.
proof fn lemma_push_dup(a: int)
    ensures
        runs_alike(seq![push_stmt(a), push_stmt(a)], seq![push_stmt(a), Stmt::Instr(Op::Dup)]),
        runs_alike(seq![push_stmt(a), Stmt::Instr(Op::Dup)], seq![push_stmt(a), push_stmt(a)]),
{
    let w = seq![push_stmt(a), Stmt::Instr(Op::Dup)];
    let w2 = seq![push_stmt(a), push_stmt(a)];
    assert forall|st: RunState| run_stmts(w, st) == run_stmts(w2, st) by {
        lemma_run_pair(push_stmt(a), Stmt::Instr(Op::Dup), st);
        lemma_run_pair(push_stmt(a), push_stmt(a), st);
        lemma_run_push(a, st);
        lemma_run_push(a, pushed_state(st, a));
        assert(st.output + Seq::<char>::empty() =~= st.output);
    }
}

/// Adding or subtracting a pushed 0, multiplying or dividing by a pushed 1
/// does nothing (when the command runs).
proof fn lemma_push_neutral(a: int, op: Op)
    requires
        (a == 0 && (op is Add || op is Sub)) || (a == 1 && (op is Mul || op is Div)),
    ensures
        runs_alike(Seq::<Stmt>::empty(), seq![push_stmt(a), Stmt::Instr(op)]),
{
    let w = seq![push_stmt(a), Stmt::Instr(op)];
    assert forall|st: RunState| #[trigger] run_stmts(w, st) is Some implies run_stmts(Seq::<Stmt>::empty(), st)
        == run_stmts(w, st) by {
        lemma_run_pair(push_stmt(a), Stmt::Instr(op), st);
        lemma_run_push(a, st);
        let s = st.stack.push(a);
        let n = s.len();
        assert(n >= 2);
        assert(s[n - 1] == a);
        assert(s[n - 2] == st.stack.last());
        if op is Div {
            assert(s[n - 2] != 0);
            assert(div_toward_zero(s[n - 2], 1) == s[n - 2]);
        }
        assert(binary_result(s, st.stack.last()) =~= st.stack);
        assert(st.output + Seq::<char>::empty() =~= st.output);
    }
}

/// A `roll` of pushed values that moves nothing does nothing (when it
/// runs).
proof fn lemma_push_roll_nothing(k: int, a: int)
    requires
        k != 0,
        a % k == 0,
    ensures
        runs_alike(Seq::<Stmt>::empty(), seq![push_stmt(k), push_stmt(a), Stmt::Instr(Op::Roll)]),
{
    let w = seq![push_stmt(k), push_stmt(a), Stmt::Instr(Op::Roll)];
    assert forall|st: RunState| #[trigger] run_stmts(w, st) is Some implies run_stmts(Seq::<Stmt>::empty(), st)
        == run_stmts(w, st) by {
        lemma_run_triple(push_stmt(k), push_stmt(a), Stmt::Instr(Op::Roll), st);
        lemma_run_pair(push_stmt(k), push_stmt(a), st);
        lemma_run_push(k, st);
        lemma_run_push(a, pushed_state(st, k));
        let s = st.stack.push(k).push(a);
        let n = s.len();
        assert(s[n - 2] == k && s[n - 1] == a);
        assert(s.subrange(0, n - 2) =~= st.stack);
        assert(st.output + Seq::<char>::empty() =~= st.output);
    }
}

/// Two pushes and a binary command push the result (when it runs).
proof fn lemma_push_fold(a: int, b: int, op: Op)
    requires
        is_fold_op(op),
        fold_value(op, a, b) is Some,
    ensures
        runs_alike(seq![push_stmt(fold_value(op, a, b).unwrap())], seq![push_stmt(a), push_stmt(b), Stmt::Instr(op)]),
{
    let w = seq![push_stmt(a), push_stmt(b), Stmt::Instr(op)];
    let v = fold_value(op, a, b).unwrap();
    assert forall|st: RunState| #[trigger] run_stmts(w, st) is Some implies run_stmts(seq![push_stmt(v)], st)
        == run_stmts(w, st) by {
        lemma_run_triple(push_stmt(a), push_stmt(b), Stmt::Instr(op), st);
        lemma_run_pair(push_stmt(a), push_stmt(b), st);
        lemma_run_push(a, st);
        lemma_run_push(b, pushed_state(st, a));
        lemma_run_single(push_stmt(v), st);
        lemma_run_push(v, st);
        let s = st.stack.push(a).push(b);
        let n = s.len();
        assert(s[n - 2] == a && s[n - 1] == b);
        assert(binary_result(s, v) =~= st.stack.push(v));
        assert(st.output + Seq::<char>::empty() =~= st.output);
    }
}

/// Pushes followed by a `roll` of them run as the pushes rotated (when the
/// `roll` runs).
#[verifier::spinoff_prover]
#[verifier::rlimit(40)]
proof fn lemma_push_rotate(ps: Seq<Stmt>, k: int, a: int)
    requires
        all_pushes(ps),
        ps.len() == k,
        k > 0,
    ensures
        runs_alike(rotate_right(ps, a % k), ps + seq![push_stmt(k), push_stmt(a), Stmt::Instr(Op::Roll)]),
{
    let tail = seq![push_stmt(k), push_stmt(a), Stmt::Instr(Op::Roll)];
    let w = ps + tail;
    let r = rotate_right(ps, a % k);
    assert(all_pushes(r)) by {
        assert forall|j: int| 0 <= j < r.len() implies is_push(#[trigger] r[j]) by {
            if j < a % k {
                assert(r[j] == ps[ps.len() - a % k + j]);
            } else {
                assert(r[j] == ps[j - a % k]);
            }
        }
    }
    assert forall|st: RunState| #[trigger] run_stmts(w, st) is Some implies run_stmts(r, st) == run_stmts(w, st) by {
        lemma_run_concat(ps, tail, st);
        lemma_run_pushes(ps, st);
        let st1 = RunState { stack: st.stack + push_values(ps), ..st };
        lemma_run_triple(push_stmt(k), push_stmt(a), Stmt::Instr(Op::Roll), st1);
        lemma_run_pair(push_stmt(k), push_stmt(a), st1);
        lemma_run_push(k, st1);
        lemma_run_push(a, pushed_state(st1, k));
        lemma_run_pushes(r, st);
        let s = st1.stack.push(k).push(a);
        let n = s.len();
        assert(s[n - 2] == k && s[n - 1] == a);
        let rest = s.subrange(0, n - 2);
        assert(rest =~= st.stack + push_values(ps));
        assert(rest.subrange(0, rest.len() - k) =~= st.stack);
        assert(rest.subrange(rest.len() - k, rest.len() as int) =~= push_values(ps));
        assert(push_values(r) =~= rotate_right(push_values(ps), a % k));
        if a % k == 0 {
            assert(r =~= ps);
        }
        assert(st.output + Seq::<char>::empty() =~= st.output);
    }
}

/// Running alike is reflexive.
proof fn lemma_runs_alike_refl(ss: Seq<Stmt>)
    ensures
        runs_alike(ss, ss),
{
}

/// The first rule's rewrites run alike: a push followed by `pop`, `not`
/// or `dup`.
proof fn lemma_rewrite_push_then(ss: Seq<Stmt>, i: int)
    requires
        0 <= i,
        i + 2 < ss.len(),
        is_push(ss[i]),
        ss[i + 1] == Stmt::Instr(Op::Pop) || ss[i + 1] == Stmt::Instr(Op::Not) || ss[i + 1] == Stmt::Instr(Op::Dup),
    ensures
        ss[i + 1] == Stmt::Instr(Op::Pop) ==> runs_alike(ss.remove(i).remove(i), ss),
        ss[i + 1] == Stmt::Instr(Op::Not) ==> runs_alike(
            ss.update(i, push_stmt(if push_value(ss[i]) == 0 { 1 } else { 0 })).remove(i + 1),
            ss,
        ),
        ss[i + 1] == Stmt::Instr(Op::Dup) ==> runs_alike(ss.update(i + 1, push_stmt(push_value(ss[i]))), ss),
{
    let n = ss.len();
    let a = push_value(ss[i]);
    let pre = ss.subrange(0, i);
    let suf = ss.subrange(i + 2, n as int);
    let w = seq![push_stmt(a), ss[i + 1]];
    assert(ss[i] == push_stmt(a));
    assert(ss =~= pre + w + suf);
    if ss[i + 1] == Stmt::Instr(Op::Pop) {
        lemma_push_pop(a);
        lemma_runs_alike_context(pre, w, Seq::<Stmt>::empty(), suf);
        assert(ss.remove(i).remove(i) =~= pre + Seq::<Stmt>::empty() + suf);
    } else if ss[i + 1] == Stmt::Instr(Op::Not) {
        let v = if a == 0 { 1int } else { 0int };
        lemma_push_not(a);
        lemma_runs_alike_context(pre, w, seq![push_stmt(v)], suf);
        assert(ss.update(i, push_stmt(v)).remove(i + 1) =~= pre + seq![push_stmt(v)] + suf);
    } else {
        lemma_push_dup(a);
        lemma_runs_alike_context(pre, w, seq![push_stmt(a), push_stmt(a)], suf);
        assert(ss.update(i + 1, push_stmt(a)) =~= pre + seq![push_stmt(a), push_stmt(a)] + suf);
    }
}

/// A push of a neutral value before its command vanishes alike.
proof fn lemma_rewrite_neutral(ss: Seq<Stmt>, i: int, op: Op)
    requires
        0 <= i,
        i + 2 < ss.len(),
        is_push(ss[i]),
        ss[i + 1] == Stmt::Instr(op),
        (push_value(ss[i]) == 0 && (op is Add || op is Sub)) || (push_value(ss[i]) == 1 && (op is Mul
            || op is Div)),
    ensures
        runs_alike(ss.remove(i).remove(i), ss),
{
    let n = ss.len();
    let a = push_value(ss[i]);
    let pre = ss.subrange(0, i);
    let suf = ss.subrange(i + 2, n as int);
    let w = seq![push_stmt(a), Stmt::Instr(op)];
    assert(ss[i] == push_stmt(a));
    assert(ss =~= pre + w + suf);
    lemma_push_neutral(a, op);
    lemma_runs_alike_context(pre, w, Seq::<Stmt>::empty(), suf);
    assert(ss.remove(i).remove(i) =~= pre + Seq::<Stmt>::empty() + suf);
}

/// A `roll` that moves nothing vanishes alike.
proof fn lemma_rewrite_roll_nothing(ss: Seq<Stmt>, i: int)
    requires
        0 <= i,
        i + 3 < ss.len(),
        is_push(ss[i]),
        is_push(ss[i + 1]),
        ss[i + 2] == Stmt::Instr(Op::Roll),
        push_value(ss[i]) != 0,
        push_value(ss[i + 1]) % push_value(ss[i]) == 0,
    ensures
        runs_alike(ss.remove(i).remove(i).remove(i), ss),
{
    let n = ss.len();
    let k = push_value(ss[i]);
    let a = push_value(ss[i + 1]);
    let pre = ss.subrange(0, i);
    let suf = ss.subrange(i + 3, n as int);
    let w = seq![push_stmt(k), push_stmt(a), Stmt::Instr(Op::Roll)];
    assert(ss[i] == push_stmt(k) && ss[i + 1] == push_stmt(a));
    assert(ss =~= pre + w + suf);
    lemma_push_roll_nothing(k, a);
    lemma_runs_alike_context(pre, w, Seq::<Stmt>::empty(), suf);
    assert(ss.remove(i).remove(i).remove(i) =~= pre + Seq::<Stmt>::empty() + suf);
}

/// Folding two pushes and a binary command runs alike.
proof fn lemma_rewrite_fold(ss: Seq<Stmt>, i: int, op: Op)
    requires
        0 <= i,
        i + 3 < ss.len(),
        is_push(ss[i]),
        is_push(ss[i + 1]),
        ss[i + 2] == Stmt::Instr(op),
        is_fold_op(op),
        fold_value(op, push_value(ss[i]), push_value(ss[i + 1])) is Some,
    ensures
        runs_alike(
            ss.remove(i).remove(i).update(i, push_stmt(fold_value(op, push_value(ss[i]), push_value(ss[i + 1])).unwrap())),
            ss,
        ),
{
    let n = ss.len();
    let a = push_value(ss[i]);
    let b = push_value(ss[i + 1]);
    let v = fold_value(op, a, b).unwrap();
    let pre = ss.subrange(0, i);
    let suf = ss.subrange(i + 3, n as int);
    let w = seq![push_stmt(a), push_stmt(b), Stmt::Instr(op)];
    assert(ss[i] == push_stmt(a) && ss[i + 1] == push_stmt(b));
    assert(ss =~= pre + w + suf);
    lemma_push_fold(a, b, op);
    lemma_runs_alike_context(pre, w, seq![push_stmt(v)], suf);
    assert(ss.remove(i).remove(i).update(i, push_stmt(v)) =~= pre + seq![push_stmt(v)] + suf);
}

/// Rotating pushes under a `roll` runs alike.
proof fn lemma_rewrite_rotate(ss: Seq<Stmt>, i: int)
    requires
        4 <= i < ss.len(),
        ss[i] == Stmt::Instr(Op::Roll),
        is_push(ss[i - 1]),
        is_push(ss[i - 2]),
        push_value(ss[i - 2]) > 0,
        push_value(ss[i - 2]) + 3 <= i,
        all_pushes(ss.subrange(i - 2 - push_value(ss[i - 2]), i - 2)),
    ensures
        ({
            let k = push_value(ss[i - 2]);
            let t = ss.remove(i - 2).remove(i - 2).remove(i - 2);
            runs_alike(
                t.subrange(0, i - 2 - k) + rotate_right(t.subrange(i - 2 - k, i - 2), push_value(ss[i - 1]) % k)
                    + t.subrange(i - 2, t.len() as int),
                ss,
            )
        }),
{
    let n = ss.len();
    let k = push_value(ss[i - 2]);
    let a = push_value(ss[i - 1]);
    let pre = ss.subrange(0, i - 2 - k);
    let ps = ss.subrange(i - 2 - k, i - 2);
    let suf = ss.subrange(i + 1, n as int);
    let tail = seq![push_stmt(k), push_stmt(a), Stmt::Instr(Op::Roll)];
    assert(ss[i - 2] == push_stmt(k) && ss[i - 1] == push_stmt(a));
    assert(ss =~= pre + (ps + tail) + suf);
    lemma_push_rotate(ps, k, a);
    lemma_runs_alike_context(pre, ps + tail, rotate_right(ps, a % k), suf);
    let t = ss.remove(i - 2).remove(i - 2).remove(i - 2);
    assert(t.subrange(0, i - 2 - k) =~= pre);
    assert(t.subrange(i - 2 - k, i - 2) =~= ps);
    assert(t.subrange(i - 2, t.len() as int) =~= suf);
}

/// A rewrite of the optimizer runs like the statements it rewrites.
#[verifier::rlimit(50)]
pub proof fn lemma_rewrite_runs_alike(ss: Seq<Stmt>, i: int)
    requires
        0 <= i < ss.len(),
    ensures
        rewrite_at(ss, i) matches Rewrite::To(t) ==> runs_alike(t, ss),
{
    let n = ss.len();
    if i + 2 < n && is_push(ss[i]) && (ss[i + 1] == Stmt::Instr(Op::Pop) || ss[i + 1] == Stmt::Instr(Op::Not)
        || ss[i + 1] == Stmt::Instr(Op::Dup)) {
        lemma_rewrite_push_then(ss, i);
    } else if i + 2 < n && is_push(ss[i]) && push_value(ss[i]) == 0 && (ss[i + 1] == Stmt::Instr(Op::Add)
        || ss[i + 1] == Stmt::Instr(Op::Sub)) {
        if ss[i + 1] == Stmt::Instr(Op::Add) {
            lemma_rewrite_neutral(ss, i, Op::Add);
        } else {
            lemma_rewrite_neutral(ss, i, Op::Sub);
        }
    } else if i + 2 < n && is_push(ss[i]) && push_value(ss[i]) == 1 && (ss[i + 1] == Stmt::Instr(Op::Mul)
        || ss[i + 1] == Stmt::Instr(Op::Div)) {
        if ss[i + 1] == Stmt::Instr(Op::Mul) {
            lemma_rewrite_neutral(ss, i, Op::Mul);
        } else {
            lemma_rewrite_neutral(ss, i, Op::Div);
        }
    } else if i + 3 < n && is_push(ss[i]) && is_push(ss[i + 1]) && ss[i + 2] == Stmt::Instr(Op::Roll)
        && push_value(ss[i]) != 0 && push_value(ss[i + 1]) % push_value(ss[i]) == 0 {
        lemma_rewrite_roll_nothing(ss, i);
    } else if i + 3 < n && is_push(ss[i]) && is_push(ss[i + 1]) && (ss[i + 2] matches Stmt::Instr(op)
        && is_fold_op(op)) {
        match ss[i + 2] {
            Stmt::Instr(op) => {
                if fold_value(op, push_value(ss[i]), push_value(ss[i + 1])) is Some {
                    lemma_rewrite_fold(ss, i, op);
                }
            },
            _ => {},
        }
    } else if 4 <= i < n && ss[i] == Stmt::Instr(Op::Roll) && is_push(ss[i - 1]) && is_push(ss[i - 2])
        && push_value(ss[i - 2]) > 0 {
        let k = push_value(ss[i - 2]);
        if !(k > usize::MAX - 3) && k + 3 <= i && all_pushes(ss.subrange(i - 2 - k, i - 2)) && push_value(
            ss[i - 1],
        ) != 0 {
            lemma_rewrite_rotate(ss, i);
        }
    }
}

/// Applying the rules until none applies runs alike.
proof fn lemma_peephole_runs_alike(ss: Seq<Stmt>, i: nat)
    ensures
        peephole(ss, i) matches Some(t) ==> runs_alike(t, ss),
    decreases ss.len(), dup_count(ss), ss.len() - i,
{
    if i >= ss.len() {
        lemma_runs_alike_refl(ss);
    } else {
        match rewrite_at(ss, i as int) {
            Rewrite::Stuck => {},
            Rewrite::NoMatch => {
                lemma_peephole_runs_alike(ss, i + 1);
            },
            Rewrite::To(t) => {
                lemma_rewrite_shrinks(ss, i as int);
                lemma_rewrite_runs_alike(ss, i as int);
                lemma_peephole_runs_alike(t, 0);
                if let Some(u) = peephole(t, 0) {
                    lemma_runs_alike_trans(u, t, ss);
                }
            },
        }
    }
}

/// Making repeated pushes `dup`s runs alike.
proof fn lemma_refold_runs_alike(ss: Seq<Stmt>, i: int)
    ensures
        runs_alike(refold(ss, i), ss),
    decreases i + 1,
{
    if i < 0 {
        lemma_runs_alike_refl(ss);
    } else {
        let cond = i + 2 < ss.len() && is_push(ss[i]) && is_push(ss[i + 1]) && push_value(ss[i]) == push_value(
            ss[i + 1],
        );
        let s2 = if cond {
            ss.update(i + 1, Stmt::Instr(Op::Dup))
        } else {
            ss
        };
        if cond {
            let v = push_value(ss[i]);
            let pre = ss.subrange(0, i);
            let suf = ss.subrange(i + 2, ss.len() as int);
            assert(ss[i] == push_stmt(v) && ss[i + 1] == push_stmt(v));
            assert(ss =~= pre + seq![push_stmt(v), push_stmt(v)] + suf);
            assert(s2 =~= pre + seq![push_stmt(v), Stmt::Instr(Op::Dup)] + suf);
            lemma_push_dup(v);
            lemma_runs_alike_context(pre, seq![push_stmt(v), push_stmt(v)], seq![push_stmt(v), Stmt::Instr(Op::Dup)], suf);
        } else {
            lemma_runs_alike_refl(ss);
        }
        lemma_refold_runs_alike(s2, i - 1);
        lemma_runs_alike_trans(refold(s2, i - 1), s2, ss);
    }
}

/// Dropping comments changes nothing a run does.
proof fn lemma_no_comments_run(ss: Seq<Stmt>, st: RunState)
    ensures
        run_stmts(no_comments(ss), st) == run_stmts(ss, st),
    decreases ss.len(),
{
    if ss.len() > 0 {
        let init = ss.drop_last();
        let x = ss.last();
        lemma_no_comments_run(init, st);
        if x is Comment {
            assert(no_comments(ss) =~= no_comments(init));
        } else {
            assert(no_comments(ss) =~= no_comments(init) + seq![x]);
            lemma_run_concat(no_comments(init), seq![x], st);
            match run_stmts(init, st) {
                None => {},
                Some((st1, j)) => {
                    lemma_run_single(x, st1);
                },
            }
        }
    }
}

/// Optimizing a block does not change what running it does: whenever the
/// block's statements run from the front without a refused or aborting
/// command up to its first jump (or its end), the optimized statements run
/// to the same stack, input, output and log, and reach the same jump.
pub proof fn lemma_optimized_block_runs_alike(ss: Seq<Stmt>, st: RunState)
    requires
        optimized_block(ss) is Some,
        run_stmts(ss, st) is Some,
    ensures
        run_stmts(optimized_block(ss).unwrap(), st) == run_stmts(ss, st),
{
    let nc = no_comments(ss);
    lemma_no_comments_run(ss, st);
    lemma_peephole_runs_alike(nc, 0);
    let t = peephole(nc, 0).unwrap();
    lemma_refold_runs_alike(t, t.len() - 1);
    assert(run_stmts(t, st) == run_stmts(nc, st));
}

/// The machine at position `pc` of the block `label` in state `st`.
pub open spec fn at_position(label: Seq<char>, pc: nat, st: RunState) -> StkMachine {
    StkMachine { label, pc, stack: st.stack, input: st.input, output: st.output, log: st.log }
}

/// Running statements describes what the machine does: when the first
/// `k` statements of a block run without a refused command and without a
/// jump, the machine started at the front of the block is, `k` steps
/// later, at position `k` in the state they reach.
pub proof fn lemma_run_stmts_steps(
    blocks: Seq<(Seq<char>, Vec<Expr>)>,
    index: Seq<(Seq<char>, usize)>,
    label: Seq<char>,
    body: Vec<Expr>,
    k: nat,
    st: RunState,
    fuel: nat,
)
    requires
        lookup(blocks, label) == Some(body),
        label != term_label(),
        k <= body@.len(),
    ensures
        (match run_stmts(stmts(body@).take(k as int), st) {
            Some((st2, j)) => j is None ==> stk_run(blocks, index, at_position(label, 0, st), fuel + k)
                == stk_run(blocks, index, at_position(label, k, st2), fuel),
            None => true,
        }),
    decreases k,
{
    if k > 0 {
        let ss = stmts(body@);
        let prev = ss.take(k - 1);
        assert(ss.take(k as int).drop_last() =~= prev);
        assert(ss.take(k as int).last() == ss[k - 1]);
        lemma_run_stmts_steps(blocks, index, label, body, (k - 1) as nat, st, fuel + 1);
        match run_stmts(prev, st) {
            None => {},
            Some((st1, j1)) => {
                if j1 is None {
                    let m = at_position(label, (k - 1) as nat, st1);
                    assert((fuel + k) == (fuel + 1) + (k - 1) as nat);
                    assert(body@[k - 1]@ == ss[k - 1]);
                    match run_one(ss[k - 1], st1) {
                        Some((st2, j)) => {
                            if j is None {
                                assert(st1.output + Seq::<char>::empty() =~= st1.output);
                                assert(stk_step(blocks, index, m) == (at_position(label, k, st2), true));
                            }
                        },
                        None => {},
                    }
                }
            },
        }
    }
}

/// Where a run stops: the statements before its exit run through, and the
/// exit, if any, is the jump at that position.
proof fn lemma_run_exit_position(ss: Seq<Stmt>, st: RunState)
    ensures
        (match run_stmts(ss, st) {
            Some((st1, j)) => exists|p: int|
                0 <= p <= ss.len() && #[trigger] run_stmts(ss.take(p), st) == Some((st1, None::<Stmt>)) && (j is None
                    ==> p == ss.len()) && (j is Some ==> p < ss.len() && ss[p] == j.unwrap() && (ss[p] is Goto
                    || ss[p] is Branch || ss[p] is GotoStk)),
            None => true,
        }),
    decreases ss.len(),
{
    if ss.len() == 0 {
        assert(ss.take(0) =~= ss);
    } else {
        let init = ss.drop_last();
        lemma_run_exit_position(init, st);
        match run_stmts(init, st) {
            None => {},
            Some((s1, j1)) => {
                if j1 is Some {
                    let p = choose|p: int|
                        0 <= p <= init.len() && #[trigger] run_stmts(init.take(p), st) == Some((s1, None::<Stmt>))
                            && (j1 is None ==> p == init.len()) && (j1 is Some ==> p < init.len() && init[p]
                            == j1.unwrap() && (init[p] is Goto || init[p] is Branch || init[p] is GotoStk));
                    assert(ss.take(p) =~= init.take(p));
                    assert(ss[p] == init[p]);
                } else {
                    let p = choose|p: int|
                        0 <= p <= init.len() && #[trigger] run_stmts(init.take(p), st) == Some((s1, None::<Stmt>))
                            && (j1 is None ==> p == init.len()) && (j1 is Some ==> p < init.len() && init[p]
                            == j1.unwrap() && (init[p] is Goto || init[p] is Branch || init[p] is GotoStk));
                    assert(p == init.len());
                    assert(init.take(p) =~= init);
                    assert(ss.take(init.len() as int) =~= init);
                    assert(ss.take(ss.len() as int) =~= ss);
                    match run_one(ss.last(), s1) {
                        None => {},
                        Some((s2, j2)) => {
                            if j2 is None {
                                assert(run_stmts(ss.take(ss.len() as int), st) == Some((s2, None::<Stmt>)));
                            } else {
                                assert(run_stmts(ss.take(init.len() as int), st) == Some((s1, None::<Stmt>)));
                                assert(ss[init.len() as int] == ss.last());
                            }
                        },
                    }
                }
            },
        }
    }
}

/// Runs a program block by block from the front of block `label`, at most
/// `fuel` blocks, each block until its jump (or its end, which starts it
/// again): the state when it reaches `term`; `None` when a command is
/// refused or aborts, a branch finds the stack empty, a jump has no
/// target, or the fuel runs out.
pub open spec fn clean_run(
    blocks: Seq<(Seq<char>, Vec<Expr>)>,
    index: Seq<(Seq<char>, usize)>,
    label: Seq<char>,
    st: RunState,
    fuel: nat,
) -> Option<RunState>
    decreases fuel,
{
    if label == term_label() {
        Some(st)
    } else if fuel == 0 {
        None
    } else {
        match lookup(blocks, label) {
            None => None,
            Some(body) => match run_stmts(stmts(body@), st) {
                None => None,
                Some((st1, exit)) => match exit {
                    None => clean_run(blocks, index, label, st1, (fuel - 1) as nat),
                    Some(Stmt::Goto(l)) => clean_run(blocks, index, l, st1, (fuel - 1) as nat),
                    Some(Stmt::Branch(t, e)) => if st1.stack.len() == 0 {
                        None
                    } else {
                        clean_run(
                            blocks,
                            index,
                            if st1.stack.last() == 0 { e } else { t },
                            RunState { stack: st1.stack.drop_last(), ..st1 },
                            (fuel - 1) as nat,
                        )
                    },
                    Some(Stmt::GotoStk) => if st1.stack.len() == 0 {
                        None
                    } else {
                        match name_with_index(index, st1.stack.last()) {
                            None => None,
                            Some(l) => clean_run(
                                blocks,
                                index,
                                l,
                                RunState { stack: st1.stack.drop_last(), ..st1 },
                                (fuel - 1) as nat,
                            ),
                        }
                    },
                    Some(_) => None,
                },
            },
        }
    }
}

/// Whether `opt` holds the blocks of `blocks`, in order and by the same
/// names, each optimized.
pub open spec fn optimized_blocks(opt: Seq<(Seq<char>, Vec<Expr>)>, blocks: Seq<(Seq<char>, Vec<Expr>)>) -> bool {
    &&& opt.len() == blocks.len()
    &&& forall|k: int|
        0 <= k < blocks.len() ==> #[trigger] opt[k].0 == blocks[k].0 && Some(stmts(opt[k].1@)) == optimized_block(
            stmts(blocks[k].1@),
        )
}

/// The block of a name in the optimized program is the optimized block.
proof fn lemma_lookup_optimized(opt: Seq<(Seq<char>, Vec<Expr>)>, blocks: Seq<(Seq<char>, Vec<Expr>)>, label: Seq<char>)
    requires
        names_distinct(blocks),
        optimized_blocks(opt, blocks),
    ensures
        lookup(blocks, label) is None <==> lookup(opt, label) is None,
        lookup(blocks, label) matches Some(b) ==> Some(stmts(lookup(opt, label).unwrap()@)) == optimized_block(
            stmts(b@),
        ),
{
    if has_name(blocks, label) {
        let i = choose|i: int| 0 <= i < blocks.len() && #[trigger] blocks[i].0 == label;
        assert(opt[i].0 == label);
        let j = choose|j: int| 0 <= j < opt.len() && #[trigger] opt[j].0 == label;
        assert(blocks[j].0 == opt[j].0);
        assert(j == i);
    } else {
        if has_name(opt, label) {
            let j = choose|j: int| 0 <= j < opt.len() && #[trigger] opt[j].0 == label;
            assert(blocks[j].0 == opt[j].0);
        }
    }
}

/// The optimized program runs block by block as the program does.
pub proof fn lemma_optimized_clean_run(
    blocks: Seq<(Seq<char>, Vec<Expr>)>,
    opt: Seq<(Seq<char>, Vec<Expr>)>,
    index: Seq<(Seq<char>, usize)>,
    label: Seq<char>,
    st: RunState,
    fuel: nat,
)
    requires
        names_distinct(blocks),
        optimized_blocks(opt, blocks),
        clean_run(blocks, index, label, st, fuel) is Some,
    ensures
        clean_run(opt, index, label, st, fuel) == clean_run(blocks, index, label, st, fuel),
    decreases fuel,
{
    if label != term_label() && fuel > 0 {
        lemma_lookup_optimized(opt, blocks, label);
        let b = lookup(blocks, label).unwrap();
        lemma_optimized_block_runs_alike(stmts(b@), st);
        match run_stmts(stmts(b@), st) {
            None => {},
            Some((st1, exit)) => {
                let f = (fuel - 1) as nat;
                match exit {
                    None => {
                        lemma_optimized_clean_run(blocks, opt, index, label, st1, f);
                    },
                    Some(Stmt::Goto(l)) => {
                        lemma_optimized_clean_run(blocks, opt, index, l, st1, f);
                    },
                    Some(Stmt::Branch(t, e)) => {
                        if st1.stack.len() > 0 {
                            lemma_optimized_clean_run(
                                blocks,
                                opt,
                                index,
                                if st1.stack.last() == 0 { e } else { t },
                                RunState { stack: st1.stack.drop_last(), ..st1 },
                                f,
                            );
                        }
                    },
                    Some(Stmt::GotoStk) => {
                        if st1.stack.len() > 0 {
                            if let Some(l) = name_with_index(index, st1.stack.last()) {
                                lemma_optimized_clean_run(
                                    blocks,
                                    opt,
                                    index,
                                    l,
                                    RunState { stack: st1.stack.drop_last(), ..st1 },
                                    f,
                                );
                            }
                        }
                    },
                    Some(_) => {},
                }
            },
        }
    }
}

/// A run block by block describes what the machine does: when it reaches
/// `term`, the machine started at the front of the block reaches `term` in
/// the same state.
pub proof fn lemma_clean_run_finishes(
    blocks: Seq<(Seq<char>, Vec<Expr>)>,
    index: Seq<(Seq<char>, usize)>,
    label: Seq<char>,
    st: RunState,
    fuel: nat,
)
    requires
        clean_run(blocks, index, label, st, fuel) is Some,
    ensures
        exists|n: nat|
            #[trigger] stk_run(blocks, index, at_position(label, 0, st), n) == (
                at_position(term_label(), 0, clean_run(blocks, index, label, st, fuel).unwrap()),
                RunOutcome::Finished,
            ),
    decreases fuel,
{
    let fin = clean_run(blocks, index, label, st, fuel).unwrap();
    if label == term_label() {
        assert(stk_run(blocks, index, at_position(label, 0, st), 0) == (
            at_position(term_label(), 0, fin),
            RunOutcome::Finished,
        ));
    } else {
        let b = lookup(blocks, label).unwrap();
        let ss = stmts(b@);
        let f = (fuel - 1) as nat;
        lemma_run_exit_position(ss, st);
        let (st1, exit) = run_stmts(ss, st).unwrap();
        let p = choose|p: int|
            0 <= p <= ss.len() && #[trigger] run_stmts(ss.take(p), st) == Some((st1, None::<Stmt>)) && (exit is None
                ==> p == ss.len()) && (exit is Some ==> p < ss.len() && ss[p] == exit.unwrap() && (ss[p] is Goto
                || ss[p] is Branch || ss[p] is GotoStk));
        let (l2, st2) = match exit {
            None => (label, st1),
            Some(Stmt::Goto(l)) => (l, st1),
            Some(Stmt::Branch(t, e)) => (
                if st1.stack.last() == 0 { e } else { t },
                RunState { stack: st1.stack.drop_last(), ..st1 },
            ),
            _ => (
                name_with_index(index, st1.stack.last()).unwrap(),
                RunState { stack: st1.stack.drop_last(), ..st1 },
            ),
        };
        assert(clean_run(blocks, index, l2, st2, f) == Some(fin));
        lemma_clean_run_finishes(blocks, index, l2, st2, f);
        let n1 = choose|n: nat|
            #[trigger] stk_run(blocks, index, at_position(l2, 0, st2), n) == (
                at_position(term_label(), 0, fin),
                RunOutcome::Finished,
            );
        lemma_run_stmts_steps(blocks, index, label, b, p as nat, st, n1 + 1);
        let m = at_position(label, p as nat, st1);
        if exit is Some {
            assert(b@[p]@ == ss[p]);
        }
        assert(stk_step(blocks, index, m) == (at_position(l2, 0, st2), true));
        assert(stk_run(blocks, index, m, n1 + 1) == stk_run(blocks, index, at_position(l2, 0, st2), n1));
        assert(stk_run(blocks, index, at_position(label, 0, st), (n1 + 1 + p) as nat) == (
            at_position(term_label(), 0, fin),
            RunOutcome::Finished,
        ));
    }
}

/// Optimizing a program keeps what it does: when the program, run from
/// the front of a block without a refused command, reaches `term`, the
/// optimized program, run from the front of the same block, reaches `term`
/// in the same state (stack, input left, output and log).
pub proof fn lemma_optimized_program_finishes_alike(
    blocks: Seq<(Seq<char>, Vec<Expr>)>,
    opt: Seq<(Seq<char>, Vec<Expr>)>,
    index: Seq<(Seq<char>, usize)>,
    label: Seq<char>,
    st: RunState,
    fuel: nat,
)
    requires
        names_distinct(blocks),
        optimized_blocks(opt, blocks),
        clean_run(blocks, index, label, st, fuel) is Some,
    ensures
        exists|n: nat|
            #[trigger] stk_run(opt, index, at_position(label, 0, st), n) == (
                at_position(term_label(), 0, clean_run(blocks, index, label, st, fuel).unwrap()),
                RunOutcome::Finished,
            ),
{
    lemma_optimized_clean_run(blocks, opt, index, label, st, fuel);
    lemma_clean_run_finishes(opt, index, label, st, fuel);
}

} // verus!
