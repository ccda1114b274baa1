//! A peephole optimizer for stack programs: comments are dropped, short
//! patterns of pushes and commands are simplified until none is left, and
//! repeated pushes of a value become `dup`s.

use super::expr::{stmts, Expr, Stmt};
use super::PietStackExecutor;
use crate::integer::{div_toward_zero, Integer};
use crate::label_map::LabelMap;
use crate::piet_interpreter::{cmd_effect, rotate_right, Op, CMD};
use vstd::prelude::*;

verus! {

/// Whether a statement is a push.
pub open spec fn is_push(s: Stmt) -> bool {
    s matches Stmt::Instr(Op::Push(_))
}

/// The value a push statement pushes.
pub open spec fn push_value(s: Stmt) -> int {
    match s {
        Stmt::Instr(Op::Push(v)) => v,
        _ => 0,
    }
}

/// A push statement.
pub open spec fn push_stmt(v: int) -> Stmt {
    Stmt::Instr(Op::Push(v))
}

/// The statements without comments.
pub open spec fn no_comments(ss: Seq<Stmt>) -> Seq<Stmt>
    decreases ss.len(),
{
    if ss.len() == 0 {
        seq![]
    } else {
        no_comments(ss.drop_last()) + if ss.last() is Comment {
            Seq::<Stmt>::empty()
        } else {
            seq![ss.last()]
        }
    }
}

/// The number of `dup` statements.
pub open spec fn dup_count(ss: Seq<Stmt>) -> nat
    decreases ss.len(),
{
    if ss.len() == 0 {
        0
    } else {
        dup_count(ss.drop_last()) + if ss.last() == Stmt::Instr(Op::Dup) {
            1nat
        } else {
            0nat
        }
    }
}

/// Whether a binary command is folded when both its operands are pushed.
pub open spec fn is_fold_op(op: Op) -> bool {
    op is Add || op is Mul || op is Mod || op is Div || op is Sub || op is Greater
}

/// The value `push a, push b, op` leaves; `None` for a division or
/// remainder by zero.
pub open spec fn fold_value(op: Op, a: int, b: int) -> Option<int> {
    match op {
        Op::Add => Some(a + b),
        Op::Mul => Some(a * b),
        Op::Sub => Some(a - b),
        Op::Mod => if b == 0 {
            None
        } else {
            Some(a % b)
        },
        Op::Div => if b == 0 {
            None
        } else {
            Some(div_toward_zero(a, b))
        },
        Op::Greater => Some(
            if a > b {
                1
            } else {
                0
            },
        ),
        _ => None,
    }
}

/// Whether every statement is a push.
pub open spec fn all_pushes(ss: Seq<Stmt>) -> bool {
    forall|j: int| 0 <= j < ss.len() ==> is_push(#[trigger] ss[j])
}

/// The outcome of trying the rules at one position.
pub enum Rewrite {
    NoMatch,
    Stuck,
    To(Seq<Stmt>),
}

/// The first rule that applies at position `i` (with room for at least one
/// statement after the pattern), and what it makes of the statements:
/// a push followed by `pop` vanishes, by `not` becomes the push of the
/// negation, by `dup` becomes two pushes; a push of 0 before `add` or `sub`
/// and a push of 1 before `mul` or `div` vanish; a `roll` of pushed values
/// that moves nothing vanishes; two pushes and a binary command become the
/// push of the result (`Stuck` on a division by zero); a `roll` of `k` by
/// `a`, both pushed, over `k` pushes rotates those pushes (`Stuck` when `k`
/// is too large to count with).
pub open spec fn rewrite_at(ss: Seq<Stmt>, i: int) -> Rewrite {
    let n = ss.len();
    if i + 2 < n && is_push(ss[i]) && (ss[i + 1] == Stmt::Instr(Op::Pop) || ss[i + 1] == Stmt::Instr(Op::Not)
        || ss[i + 1] == Stmt::Instr(Op::Dup)) {
        let a = push_value(ss[i]);
        if ss[i + 1] == Stmt::Instr(Op::Pop) {
            Rewrite::To(ss.remove(i).remove(i))
        } else if ss[i + 1] == Stmt::Instr(Op::Not) {
            Rewrite::To(
                ss.update(
                    i,
                    push_stmt(
                        if a == 0 {
                            1
                        } else {
                            0
                        },
                    ),
                ).remove(i + 1),
            )
        } else {
            Rewrite::To(ss.update(i + 1, push_stmt(a)))
        }
    } else if i + 2 < n && is_push(ss[i]) && push_value(ss[i]) == 0 && (ss[i + 1] == Stmt::Instr(Op::Add)
        || ss[i + 1] == Stmt::Instr(Op::Sub)) {
        Rewrite::To(ss.remove(i).remove(i))
    } else if i + 2 < n && is_push(ss[i]) && push_value(ss[i]) == 1 && (ss[i + 1] == Stmt::Instr(Op::Mul)
        || ss[i + 1] == Stmt::Instr(Op::Div)) {
        Rewrite::To(ss.remove(i).remove(i))
    } else if i + 3 < n && is_push(ss[i]) && is_push(ss[i + 1]) && ss[i + 2] == Stmt::Instr(Op::Roll)
        && push_value(ss[i]) != 0 && push_value(ss[i + 1]) % push_value(ss[i]) == 0 {
        Rewrite::To(ss.remove(i).remove(i).remove(i))
    } else if i + 3 < n && is_push(ss[i]) && is_push(ss[i + 1]) && (ss[i + 2] matches Stmt::Instr(op)
        && is_fold_op(op)) {
        match ss[i + 2] {
            Stmt::Instr(op) => match fold_value(op, push_value(ss[i]), push_value(ss[i + 1])) {
                None => Rewrite::Stuck,
                Some(v) => Rewrite::To(ss.remove(i).remove(i).update(i, push_stmt(v))),
            },
            _ => Rewrite::NoMatch,
        }
    } else if 4 <= i < n && ss[i] == Stmt::Instr(Op::Roll) && is_push(ss[i - 1]) && is_push(ss[i - 2])
        && push_value(ss[i - 2]) > 0 {
        let k = push_value(ss[i - 2]);
        if k > usize::MAX - 3 {
            Rewrite::Stuck
        } else if k + 3 <= i && all_pushes(ss.subrange(i - 2 - k, i - 2)) && push_value(ss[i - 1]) != 0 {
            let a = push_value(ss[i - 1]) % k;
            let t = ss.remove(i - 2).remove(i - 2).remove(i - 2);
            Rewrite::To(
                t.subrange(0, i - 2 - k) + rotate_right(t.subrange(i - 2 - k, i - 2), a) + t.subrange(
                    i - 2,
                    t.len() as int,
                ),
            )
        } else {
            Rewrite::NoMatch
        }
    } else {
        Rewrite::NoMatch
    }
}

/// A rewrite makes the statements shorter, or as long with fewer `dup`s.
pub proof fn lemma_rewrite_shrinks(ss: Seq<Stmt>, i: int)
    requires
        0 <= i < ss.len(),
    ensures
        rewrite_at(ss, i) matches Rewrite::To(t) ==> t.len() < ss.len() || (t.len() == ss.len() && dup_count(t)
            < dup_count(ss)),
{
    if i + 2 < ss.len() && is_push(ss[i]) && ss[i + 1] == Stmt::Instr(Op::Dup) {
        lemma_dup_count_update(ss, i + 1, push_stmt(push_value(ss[i])));
    }
}

/// Replacing a `dup` by a statement that is no `dup` removes one `dup`.
proof fn lemma_dup_count_update(ss: Seq<Stmt>, k: int, x: Stmt)
    requires
        0 <= k < ss.len(),
        ss[k] == Stmt::Instr(Op::Dup),
        x != Stmt::Instr(Op::Dup),
    ensures
        dup_count(ss.update(k, x)) + 1 == dup_count(ss),
    decreases ss.len(),
{
    let t = ss.update(k, x);
    if k == ss.len() - 1 {
        assert(t.drop_last() =~= ss.drop_last());
    } else {
        lemma_dup_count_update(ss.drop_last(), k, x);
        assert(t.drop_last() =~= ss.drop_last().update(k, x));
    }
}

/// The statements after trying the rules from position `i` on: whenever a
/// rule applies, it is applied and the search starts again at the front;
/// `None` when a rule gets stuck.
pub open spec fn peephole(ss: Seq<Stmt>, i: nat) -> Option<Seq<Stmt>>
    decreases ss.len(), dup_count(ss), ss.len() - i,
{
    if i >= ss.len() {
        Some(ss)
    } else {
        match rewrite_at(ss, i as int) {
            Rewrite::Stuck => None,
            Rewrite::NoMatch => peephole(ss, i + 1),
            Rewrite::To(t) => {
                proof {
                    lemma_rewrite_shrinks(ss, i as int);
                }
                peephole(t, 0)
            },
        }
    }
}

/// Repeated pushes of a value from position `i` down to the front, each
/// second one made a `dup` (not within the last two statements).
pub open spec fn refold(ss: Seq<Stmt>, i: int) -> Seq<Stmt>
    decreases i + 1,
{
    if i < 0 {
        ss
    } else {
        let s2 = if i + 2 < ss.len() && is_push(ss[i]) && is_push(ss[i + 1]) && push_value(ss[i]) == push_value(
            ss[i + 1],
        ) {
            ss.update(i + 1, Stmt::Instr(Op::Dup))
        } else {
            ss
        };
        refold(s2, i - 1)
    }
}

/// Dropping comments makes no block longer.
proof fn lemma_no_comments_len(ss: Seq<Stmt>)
    ensures
        no_comments(ss).len() <= ss.len(),
    decreases ss.len(),
{
    if ss.len() > 0 {
        lemma_no_comments_len(ss.drop_last());
    }
}

/// Applying the rules makes no block longer.
proof fn lemma_peephole_len(ss: Seq<Stmt>, i: nat)
    ensures
        peephole(ss, i) matches Some(t) ==> t.len() <= ss.len(),
    decreases ss.len(), dup_count(ss), ss.len() - i,
{
    if i < ss.len() {
        match rewrite_at(ss, i as int) {
            Rewrite::Stuck => {},
            Rewrite::NoMatch => {
                lemma_peephole_len(ss, i + 1);
            },
            Rewrite::To(t) => {
                lemma_rewrite_shrinks(ss, i as int);
                lemma_peephole_len(t, 0);
            },
        }
    }
}

/// Refolding keeps the length.
proof fn lemma_refold_len(ss: Seq<Stmt>, i: int)
    ensures
        refold(ss, i).len() == ss.len(),
    decreases i + 1,
{
    if i >= 0 {
        let s2 = if i + 2 < ss.len() && is_push(ss[i]) && is_push(ss[i + 1]) && push_value(ss[i]) == push_value(
            ss[i + 1],
        ) {
            ss.update(i + 1, Stmt::Instr(Op::Dup))
        } else {
            ss
        };
        lemma_refold_len(s2, i - 1);
    }
}

/// An optimized block is no longer than the block.
pub proof fn lemma_optimized_len(ss: Seq<Stmt>)
    ensures
        optimized_block(ss) matches Some(t) ==> t.len() <= ss.len(),
{
    lemma_no_comments_len(ss);
    lemma_peephole_len(no_comments(ss), 0);
    if let Some(t) = peephole(no_comments(ss), 0) {
        lemma_refold_len(t, t.len() - 1);
    }
}

/// A block after optimizing: comments dropped, the rules applied until
/// none applies, and repeated pushes refolded; `None` when a rule gets
/// stuck.
pub open spec fn optimized_block(ss: Seq<Stmt>) -> Option<Seq<Stmt>> {
    match peephole(no_comments(ss), 0) {
        None => None,
        Some(t) => Some(refold(t, t.len() - 1)),
    }
}

/// Whether no statement is a comment.
pub open spec fn comment_free(ss: Seq<Stmt>) -> bool {
    forall|j: int| 0 <= j < ss.len() ==> !(#[trigger] ss[j] is Comment)
}

/// Whether no rule applies at any position.
pub open spec fn settled(ss: Seq<Stmt>) -> bool {
    forall|j: int| 0 <= j < ss.len() ==> #[trigger] rewrite_at(ss, j) is NoMatch
}

/// Whether refolding makes position `p` of `t` a `dup`: it and the
/// statement before it push the same value, and a statement follows.
pub open spec fn folded_at(t: Seq<Stmt>, p: int) -> bool {
    1 <= p && p + 1 < t.len() && is_push(t[p - 1]) && is_push(t[p]) && push_value(t[p - 1]) == push_value(t[p])
}

/// `t` with every position that refolding changes made a `dup`.
pub open spec fn fold_all(t: Seq<Stmt>) -> Seq<Stmt> {
    Seq::new(t.len(), |p: int| if folded_at(t, p) { Stmt::Instr(Op::Dup) } else { t[p] })
}

/// The statements left without comments hold none.
proof fn lemma_no_comments_free(ss: Seq<Stmt>)
    ensures
        comment_free(no_comments(ss)),
    decreases ss.len(),
{
    if ss.len() > 0 {
        lemma_no_comments_free(ss.drop_last());
        let a = no_comments(ss.drop_last());
        assert forall|j: int| 0 <= j < no_comments(ss).len() implies !(#[trigger] no_comments(ss)[j] is Comment) by {
            if j < a.len() {
                assert(no_comments(ss)[j] == a[j]);
            }
        }
    }
}

/// Dropping comments from statements that hold none changes nothing.
proof fn lemma_no_comments_same(ss: Seq<Stmt>)
    requires
        comment_free(ss),
    ensures
        no_comments(ss) == ss,
    decreases ss.len(),
{
    if ss.len() > 0 {
        assert(comment_free(ss.drop_last())) by {
            assert forall|j: int| 0 <= j < ss.drop_last().len() implies !(#[trigger] ss.drop_last()[j] is Comment) by {
                assert(ss.drop_last()[j] == ss[j]);
            }
        }
        lemma_no_comments_same(ss.drop_last());
        assert(!(ss[ss.len() - 1] is Comment));
        assert(ss.drop_last() + seq![ss.last()] =~= ss);
    }
}

/// A rule brings in no comment.
proof fn lemma_rewrite_free(ss: Seq<Stmt>, i: int)
    requires
        comment_free(ss),
        0 <= i < ss.len(),
    ensures
        rewrite_at(ss, i) matches Rewrite::To(t) ==> comment_free(t),
{
    match rewrite_at(ss, i) {
        Rewrite::To(t) => {
            assert forall|j: int| 0 <= j < t.len() implies !(#[trigger] t[j] is Comment) by {
                if exists|q: int| 0 <= q < ss.len() && ss[q] == t[j] {
                    let q = choose|q: int| 0 <= q < ss.len() && ss[q] == t[j];
                    assert(!(ss[q] is Comment));
                }
            }
        },
        _ => {},
    }
}

/// Applying the rules brings in no comment.
proof fn lemma_peephole_free(ss: Seq<Stmt>, i: nat)
    requires
        comment_free(ss),
    ensures
        peephole(ss, i) matches Some(t) ==> comment_free(t),
    decreases ss.len(), dup_count(ss), ss.len() - i,
{
    if i < ss.len() {
        match rewrite_at(ss, i as int) {
            Rewrite::Stuck => {},
            Rewrite::NoMatch => {
                lemma_peephole_free(ss, i + 1);
            },
            Rewrite::To(t) => {
                lemma_rewrite_shrinks(ss, i as int);
                lemma_rewrite_free(ss, i as int);
                lemma_peephole_free(t, 0);
            },
        }
    }
}

/// What applying the rules gives is settled.
proof fn lemma_peephole_settled(ss: Seq<Stmt>, i: nat)
    requires
        forall|j: int| 0 <= j < i && j < ss.len() ==> #[trigger] rewrite_at(ss, j) is NoMatch,
    ensures
        peephole(ss, i) matches Some(t) ==> settled(t),
    decreases ss.len(), dup_count(ss), ss.len() - i,
{
    if i < ss.len() {
        match rewrite_at(ss, i as int) {
            Rewrite::Stuck => {},
            Rewrite::NoMatch => {
                lemma_peephole_settled(ss, i + 1);
            },
            Rewrite::To(t) => {
                lemma_rewrite_shrinks(ss, i as int);
                lemma_peephole_settled(t, 0);
            },
        }
    }
}

/// Settled statements are left as they are.
proof fn lemma_settled_stays(ss: Seq<Stmt>, i: nat)
    requires
        settled(ss),
    ensures
        peephole(ss, i) == Some(ss),
    decreases ss.len() - i,
{
    if i < ss.len() {
        assert(rewrite_at(ss, i as int) is NoMatch);
        lemma_settled_stays(ss, i + 1);
    }
}

/// Refolding makes a `dup` of exactly the positions `folded_at` names.
proof fn lemma_refold_all(t: Seq<Stmt>, ss: Seq<Stmt>, i: int)
    requires
        -1 <= i < t.len(),
        ss.len() == t.len(),
        forall|p: int|
            0 <= p < t.len() ==> #[trigger] ss[p] == if p >= i + 2 && folded_at(t, p) {
                Stmt::Instr(Op::Dup)
            } else {
                t[p]
            },
    ensures
        refold(ss, i) == fold_all(t),
    decreases i + 1,
{
    if i < 0 {
        assert(ss =~= fold_all(t));
    } else {
        let s2 = if i + 2 < ss.len() && is_push(ss[i]) && is_push(ss[i + 1]) && push_value(ss[i]) == push_value(
            ss[i + 1],
        ) {
            ss.update(i + 1, Stmt::Instr(Op::Dup))
        } else {
            ss
        };
        assert(ss[i] == t[i]);
        if i + 1 < t.len() {
            assert(ss[i + 1] == t[i + 1]);
        }
        assert forall|p: int| 0 <= p < t.len() implies #[trigger] s2[p] == if p >= i + 1 && folded_at(t, p) {
            Stmt::Instr(Op::Dup)
        } else {
            t[p]
        } by {
            assert(ss[p] == if p >= i + 2 && folded_at(t, p) { Stmt::Instr(Op::Dup) } else { t[p] });
        }
        lemma_refold_all(t, s2, i - 1);
    }
}

/// Where `v` agrees with settled `t` up to position `i + 1` and elsewhere
/// holds `t`'s statement or a `dup` in place of a push, no rule applies
/// at `i` in `v` either.
proof fn lemma_no_match_kept(t: Seq<Stmt>, v: Seq<Stmt>, i: int)
    requires
        0 <= i < t.len(),
        v.len() == t.len(),
        rewrite_at(t, i) is NoMatch,
        forall|j: int| 0 <= j <= i + 1 && j < t.len() ==> #[trigger] v[j] == t[j],
        forall|j: int| 0 <= j < t.len() ==> #[trigger] v[j] == t[j] || (v[j] == Stmt::Instr(Op::Dup) && is_push(t[j])),
    ensures
        rewrite_at(v, i) is NoMatch,
{
    if i + 2 < t.len() {
        assert(v[i + 2] == t[i + 2] || (v[i + 2] == Stmt::Instr(Op::Dup) && is_push(t[i + 2])));
    }
    if i >= 4 {
        let k = push_value(t[i - 2]);
        if 0 < k && k + 3 <= i {
            assert(v.subrange(i - 2 - k, i - 2) =~= t.subrange(i - 2 - k, i - 2));
        }
        assert(v[i - 1] == t[i - 1] && v[i - 2] == t[i - 2]);
    }
}

/// Undoing the `dup`s of refolded settled statements gives them back.
proof fn lemma_unfold(t: Seq<Stmt>, v: Seq<Stmt>, i: nat)
    requires
        settled(t),
        v.len() == t.len(),
        forall|j: int| 0 <= j <= i && j < t.len() ==> #[trigger] v[j] == t[j],
        forall|j: int| 0 <= j < t.len() ==> #[trigger] v[j] == t[j] || (v[j] == Stmt::Instr(Op::Dup) && folded_at(t, j)),
    ensures
        peephole(v, i) == Some(t),
    decreases dup_count(v), v.len() - i,
{
    if i >= v.len() {
        assert(v =~= t);
    } else {
        assert(rewrite_at(t, i as int) is NoMatch);
        let ii = i as int;
        if ii + 1 < v.len() && v[ii + 1] != t[ii + 1] {
            assert(folded_at(t, ii + 1));
            let a = push_value(v[ii]);
            let v2 = v.update(ii + 1, push_stmt(a));
            assert(t[ii + 1] == push_stmt(a));
            assert(rewrite_at(v, ii) == Rewrite::To(v2));
            lemma_rewrite_shrinks(v, ii);
            lemma_dup_count_update(v, ii + 1, push_stmt(a));
            lemma_unfold(t, v2, 0);
        } else {
            assert forall|j: int| 0 <= j < t.len() implies #[trigger] v[j] == t[j] || (v[j] == Stmt::Instr(Op::Dup)
                && is_push(t[j])) by {
                if v[j] != t[j] {
                    assert(folded_at(t, j));
                }
            }
            lemma_no_match_kept(t, v, i as int);
            lemma_unfold(t, v, i + 1);
        }
    }
}

/// Optimizing a block that optimizing gave changes nothing.
pub proof fn lemma_optimize_twice(ss: Seq<Stmt>)
    ensures
        optimized_block(ss) matches Some(u) ==> optimized_block(u) == Some(u),
{
    let nc = no_comments(ss);
    lemma_no_comments_free(ss);
    lemma_peephole_free(nc, 0);
    lemma_peephole_settled(nc, 0);
    if let Some(t) = peephole(nc, 0) {
        let u = refold(t, t.len() - 1);
        lemma_refold_all(t, t, t.len() - 1);
        assert(u == fold_all(t));
        assert(comment_free(u)) by {
            assert forall|j: int| 0 <= j < u.len() implies !(#[trigger] u[j] is Comment) by {
                assert(u[j] == fold_all(t)[j]);
            }
        }
        lemma_no_comments_same(u);
        lemma_unfold(t, u, 0);
    }
}

/// Folding agrees with running the commands: for every command the rules
/// fold, `fold_value` fails exactly on a division or remainder by zero, and
/// otherwise it is the value that executing `push a`, `push b` and the
/// command leaves on top of the stack below them (for a division, when the
/// dividend is not zero, which the machine refuses).
pub proof fn lemma_fold_matches_run(op: Op, a: int, b: int, s: Seq<int>, input: Seq<u8>)
    requires
        is_fold_op(op),
    ensures
        fold_value(op, a, b) is None <==> ((op is Div || op is Mod) && b == 0),
        fold_value(op, a, b) matches Some(v) ==> (op is Div && a == 0) || cmd_effect(
            op,
            s.push(a).push(b),
            input,
        ) == (s.push(v), input, Seq::<char>::empty(), true),
{
    let s2 = s.push(a).push(b);
    assert(s2.subrange(0, s2.len() - 2) =~= s);
    assert(s2[s2.len() - 2] == a && s2[s2.len() - 1] == b);
}

/// Two pushes followed by a command the rules fold, with a statement after
/// them, become one push of the folded value.
pub proof fn lemma_fold_pushes(op: Op, a: int, b: int, rest: Seq<Stmt>)
    requires
        is_fold_op(op),
        !((op is Div || op is Mod) && b == 0),
        rest.len() > 0,
    ensures
        fold_value(op, a, b) matches Some(v) && rewrite_at(
            seq![push_stmt(a), push_stmt(b), Stmt::Instr(op)] + rest,
            0,
        ) == Rewrite::To(seq![push_stmt(v)] + rest),
{
    let ss = seq![push_stmt(a), push_stmt(b), Stmt::Instr(op)] + rest;
    assert(ss[0] == push_stmt(a) && ss[1] == push_stmt(b) && ss[2] == Stmt::Instr(op));
    let v = fold_value(op, a, b).unwrap();
    assert(ss.remove(0).remove(0).update(0, push_stmt(v)) =~= seq![push_stmt(v)] + rest);
}

/// Whether a statement is a division, a remainder or a `roll`: the only
/// commands on which a rule can get stuck.
pub open spec fn may_stick(s: Stmt) -> bool {
    s == Stmt::Instr(Op::Div) || s == Stmt::Instr(Op::Mod) || s == Stmt::Instr(Op::Roll)
}

/// Whether no statement is a division, a remainder or a `roll`.
pub open spec fn never_stuck(ss: Seq<Stmt>) -> bool {
    forall|j: int| 0 <= j < ss.len() ==> !may_stick(#[trigger] ss[j])
}

/// Dropping comments keeps a block free of the commands that can stick.
proof fn lemma_no_comments_safe(ss: Seq<Stmt>)
    requires
        never_stuck(ss),
    ensures
        never_stuck(no_comments(ss)),
    decreases ss.len(),
{
    if ss.len() > 0 {
        assert(never_stuck(ss.drop_last())) by {
            assert forall|j: int| 0 <= j < ss.drop_last().len() implies !may_stick(#[trigger] ss.drop_last()[j]) by {
                assert(ss.drop_last()[j] == ss[j]);
            }
        }
        lemma_no_comments_safe(ss.drop_last());
        let a = no_comments(ss.drop_last());
        assert(!may_stick(ss[ss.len() - 1]));
        assert forall|j: int| 0 <= j < no_comments(ss).len() implies !may_stick(#[trigger] no_comments(ss)[j]) by {
            if j < a.len() {
                assert(no_comments(ss)[j] == a[j]);
            }
        }
    }
}

/// On a block free of the commands that can stick, no rule gets stuck, and
/// what a rule makes of it is free of them too.
proof fn lemma_rewrite_safe(ss: Seq<Stmt>, i: int)
    requires
        never_stuck(ss),
        0 <= i < ss.len(),
    ensures
        !(rewrite_at(ss, i) is Stuck),
        rewrite_at(ss, i) matches Rewrite::To(t) ==> never_stuck(t),
{
    assert(!may_stick(ss[i]));
    if i + 2 < ss.len() {
        assert(!may_stick(ss[i + 2]));
    }
    match rewrite_at(ss, i) {
        Rewrite::To(t) => {
            assert forall|j: int| 0 <= j < t.len() implies !may_stick(#[trigger] t[j]) by {
                if exists|q: int| 0 <= q < ss.len() && ss[q] == t[j] {
                    let q = choose|q: int| 0 <= q < ss.len() && ss[q] == t[j];
                    assert(!may_stick(ss[q]));
                }
            }
        },
        _ => {},
    }
}

/// Applying the rules to a block free of the commands that can stick never
/// gets stuck.
proof fn lemma_peephole_safe(ss: Seq<Stmt>, i: nat)
    requires
        never_stuck(ss),
    ensures
        peephole(ss, i) is Some,
    decreases ss.len(), dup_count(ss), ss.len() - i,
{
    if i < ss.len() {
        lemma_rewrite_safe(ss, i as int);
        match rewrite_at(ss, i as int) {
            Rewrite::Stuck => {},
            Rewrite::NoMatch => {
                lemma_peephole_safe(ss, i + 1);
            },
            Rewrite::To(t) => {
                lemma_rewrite_shrinks(ss, i as int);
                lemma_peephole_safe(t, 0);
            },
        }
    }
}

/// A block with no division, remainder or `roll` always optimizes: only
/// those commands can make a rule get stuck.
pub proof fn lemma_optimize_succeeds(ss: Seq<Stmt>)
    requires
        never_stuck(ss),
    ensures
        optimized_block(ss) is Some,
{
    lemma_no_comments_safe(ss);
    lemma_peephole_safe(no_comments(ss), 0);
}

/// The value pushed by a push statement.
fn pushed(e: &Expr) -> (r: Option<Integer>)
    ensures
        r is Some <==> is_push(e@),
        r matches Some(v) ==> v@ == push_value(e@),
{
    match e {
        Expr::Instr(CMD::Push(v)) => Some(v.copy()),
        _ => None,
    }
}

/// Appends copies of `v[from..to]`.
fn copy_range(out: &mut Vec<Expr>, v: &Vec<Expr>, from: usize, to: usize)
    requires
        from <= to <= v@.len(),
    ensures
        stmts(final(out)@) == stmts(old(out)@) + stmts(v@).subrange(from as int, to as int),
{
    let mut k = from;
    while k < to
        invariant
            from <= k <= to,
            to <= v@.len(),
            stmts(out@) == stmts(old(out)@) + stmts(v@).subrange(from as int, k as int),
        decreases to - k,
    {
        let ghost o0 = stmts(out@);
        let e = v[k].copy();
        out.push(e);
        assert(stmts(out@) =~= o0.push(e@));
        k = k + 1;
        assert(stmts(out@) =~= stmts(old(out)@) + stmts(v@).subrange(from as int, k as int));
    }
}

/// The statements with `v[lo..hi]` rotated right by `a`.
fn rotate_segment(v: &Vec<Expr>, lo: usize, hi: usize, a: usize) -> (r: Vec<Expr>)
    requires
        lo <= hi <= v@.len(),
        a <= hi - lo,
    ensures
        stmts(r@) == stmts(v@).subrange(0, lo as int) + rotate_right(stmts(v@).subrange(lo as int, hi as int), a as int)
            + stmts(v@).subrange(hi as int, v@.len() as int),
{
    let ghost s = stmts(v@);
    let mut r: Vec<Expr> = Vec::new();
    assert(stmts(r@) =~= Seq::<Stmt>::empty());
    copy_range(&mut r, v, 0, lo);
    copy_range(&mut r, v, hi - a, hi);
    copy_range(&mut r, v, lo, hi - a);
    copy_range(&mut r, v, hi, v.len());
    let ghost seg = s.subrange(lo as int, hi as int);
    assert(seg.subrange(seg.len() - a, seg.len() as int) =~= s.subrange(hi - a, hi as int));
    assert(seg.subrange(0, seg.len() - a) =~= s.subrange(lo as int, hi - a));
    assert(stmts(r@) =~= s.subrange(0, lo as int) + rotate_right(seg, a as int) + s.subrange(hi as int, s.len() as int));
    r
}

/// Removes the statement at `i`.
fn remove_at(nb: &mut Vec<Expr>, i: usize)
    requires
        i < old(nb)@.len(),
    ensures
        stmts(final(nb)@) == stmts(old(nb)@).remove(i as int),
        final(nb)@.len() == old(nb)@.len() - 1,
{
    nb.remove(i);
    assert(stmts(nb@) =~= stmts(old(nb)@).remove(i as int));
}

/// Replaces the statement at `i`.
fn set_at(nb: &mut Vec<Expr>, i: usize, e: Expr)
    requires
        i < old(nb)@.len(),
    ensures
        stmts(final(nb)@) == stmts(old(nb)@).update(i as int, e@),
        final(nb)@.len() == old(nb)@.len(),
{
    let ghost ev = e@;
    nb.set(i, e);
    assert(stmts(nb@) =~= stmts(old(nb)@).update(i as int, ev));
}

/// Applies the first rule that applies at position `i`: 1 when one was
/// applied, 0 when none applies, 2 when a rule gets stuck.
#[verifier::spinoff_prover]
#[verifier::rlimit(60)]
fn rewrite_exec(nb: &mut Vec<Expr>, i: usize) -> (r: u8)
    requires
        i < old(nb)@.len(),
    ensures
        match rewrite_at(stmts(old(nb)@), i as int) {
            Rewrite::NoMatch => r == 0 && final(nb)@ == old(nb)@,
            Rewrite::Stuck => r == 2,
            Rewrite::To(t) => r == 1 && stmts(final(nb)@) == t,
        },
{
    let n = nb.len();
    let ghost ss = stmts(nb@);
    let zero = Integer::from_i64(0);
    let one = Integer::from_i64(1);
    if n >= 3 && i < n - 2 {
        let first = pushed(&nb[i]);
        let second = nb[i + 1].copy();
        match first {
            Some(a) => {
                assert(ss[i + 1] == second@);
                match second {
                    Expr::Instr(CMD::Pop) => {
                        remove_at(nb, i);
                        remove_at(nb, i);
                        return 1;
                    },
                    Expr::Instr(CMD::Not) => {
                        let v = if a.equals(&zero) {
                            Integer::from_i64(1)
                        } else {
                            Integer::from_i64(0)
                        };
                        set_at(nb, i, Expr::Instr(CMD::Push(v)));
                        remove_at(nb, i + 1);
                        return 1;
                    },
                    Expr::Instr(CMD::Dup) => {
                        set_at(nb, i + 1, Expr::Instr(CMD::Push(a)));
                        return 1;
                    },
                    Expr::Instr(CMD::Add) | Expr::Instr(CMD::Sub) => {
                        if a.equals(&zero) {
                            remove_at(nb, i);
                            remove_at(nb, i);
                            return 1;
                        }
                    },
                    Expr::Instr(CMD::Mul) | Expr::Instr(CMD::Div) => {
                        if a.equals(&one) {
                            remove_at(nb, i);
                            remove_at(nb, i);
                            return 1;
                        }
                    },
                    _ => {},
                }
            },
            None => {},
        }
    }
    if n >= 4 && i < n - 3 {
        let first = pushed(&nb[i]);
        let second = pushed(&nb[i + 1]);
        let third = nb[i + 2].copy();
        assert(ss[i + 2] == third@);
        match (first, second) {
            (Some(b), Some(a)) => {
                match third {
                    Expr::Instr(CMD::Roll) => {
                        if !b.equals(&zero) && a.rem_euclid(&b).equals(&zero) {
                            remove_at(nb, i);
                            remove_at(nb, i);
                            remove_at(nb, i);
                            return 1;
                        }
                    },
                    Expr::Instr(CMD::Add) => {
                        remove_at(nb, i);
                        remove_at(nb, i);
                        set_at(nb, i, Expr::Instr(CMD::Push(b.add(&a))));
                        return 1;
                    },
                    Expr::Instr(CMD::Mul) => {
                        remove_at(nb, i);
                        remove_at(nb, i);
                        set_at(nb, i, Expr::Instr(CMD::Push(b.mul(&a))));
                        return 1;
                    },
                    Expr::Instr(CMD::Sub) => {
                        remove_at(nb, i);
                        remove_at(nb, i);
                        set_at(nb, i, Expr::Instr(CMD::Push(b.sub(&a))));
                        return 1;
                    },
                    Expr::Instr(CMD::Greater) => {
                        let v = if a.less_than(&b) {
                            Integer::from_i64(1)
                        } else {
                            Integer::from_i64(0)
                        };
                        remove_at(nb, i);
                        remove_at(nb, i);
                        set_at(nb, i, Expr::Instr(CMD::Push(v)));
                        return 1;
                    },
                    Expr::Instr(CMD::Mod) => {
                        if a.equals(&zero) {
                            return 2;
                        }
                        remove_at(nb, i);
                        remove_at(nb, i);
                        set_at(nb, i, Expr::Instr(CMD::Push(b.rem_euclid(&a))));
                        return 1;
                    },
                    Expr::Instr(CMD::Div) => {
                        if a.equals(&zero) {
                            return 2;
                        }
                        remove_at(nb, i);
                        remove_at(nb, i);
                        set_at(nb, i, Expr::Instr(CMD::Push(b.div_trunc(&a))));
                        return 1;
                    },
                    _ => {},
                }
            },
            _ => {},
        }
    }
    if i >= 4 {
        let is_roll = match &nb[i] {
            Expr::Instr(CMD::Roll) => true,
            _ => false,
        };
        let amount = pushed(&nb[i - 1]);
        let depth = pushed(&nb[i - 2]);
        match (amount, depth) {
            (Some(a), Some(k)) => {
                if is_roll && zero.less_than(&k) {
                    let ku = match k.to_usize() {
                        Some(ku) => ku,
                        None => {
                            return 2;
                        },
                    };
                    if ku > usize::MAX - 3 {
                        return 2;
                    }
                    if ku + 3 <= i && !a.equals(&zero) {
                        let mut all = true;
                        let mut j = i - 2 - ku;
                        while j < i - 2
                            invariant
                                i - 2 - ku <= j <= i - 2,
                                i >= 2 + ku,
                                i < nb@.len(),
                                ss.len() == nb@.len(),
                                ss == stmts(nb@),
                                all == (forall|q: int| i - 2 - ku <= q < j ==> is_push(#[trigger] ss[q])),
                            decreases i - 2 - j,
                        {
                            let p = pushed(&nb[j]);
                            assert(ss[j as int] == nb@[j as int]@);
                            if p.is_none() {
                                all = false;
                            }
                            j = j + 1;
                        }
                        proof {
                            let seg = ss.subrange(i - 2 - ku, i - 2);
                            if all {
                                assert forall|q: int| 0 <= q < seg.len() implies is_push(#[trigger] seg[q]) by {
                                    assert(seg[q] == ss[i - 2 - ku + q]);
                                }
                            } else {
                                let q = choose|q: int| i - 2 - ku <= q < i - 2 && !is_push(#[trigger] ss[q]);
                                assert(seg[q - (i - 2 - ku)] == ss[q]);
                            }
                        }
                        if all {
                            let am = a.rem_euclid(&k);
                            let amu = am.to_usize().unwrap();
                            remove_at(nb, i - 2);
                            remove_at(nb, i - 2);
                            remove_at(nb, i - 2);
                            let rotated = rotate_segment(nb, i - 2 - ku, i - 2, amu);
                            *nb = rotated;
                            return 1;
                        }
                    }
                }
            },
            _ => {},
        }
    }
    0
}

/// Optimizes one block: `None` when a rule gets stuck.
fn optimize_body(block: &Vec<Expr>) -> (r: Option<Vec<Expr>>)
    ensures
        match optimized_block(stmts(block@)) {
            None => r is None,
            Some(t) => r matches Some(v) && stmts(v@) == t,
        },
{
    let ghost src = stmts(block@);
    let mut nb: Vec<Expr> = Vec::new();
    let mut k: usize = 0;
    assert(stmts(nb@) =~= no_comments(src.take(0)));
    while k < block.len()
        invariant
            src == stmts(block@),
            k <= block@.len(),
            stmts(nb@) == no_comments(src.take(k as int)),
        decreases block@.len() - k,
    {
        let ghost n0 = stmts(nb@);
        proof {
            assert(src.take(k + 1).drop_last() =~= src.take(k as int));
            assert(src.take(k + 1).last() == block@[k as int]@);
        }
        match &block[k] {
            Expr::Comment(_) => {
                assert(n0 + Seq::<Stmt>::empty() =~= n0);
            },
            e => {
                let c = e.copy();
                nb.push(c);
                assert(stmts(nb@) =~= n0 + seq![c@]);
            },
        }
        k = k + 1;
    }
    assert(src.take(k as int) =~= src);
    let ghost start = stmts(nb@);
    let mut i: usize = 0;
    while i < nb.len()
        invariant
            src == stmts(block@),
            start == no_comments(src),
            peephole(stmts(nb@), i as nat) == peephole(start, 0),
        decreases nb@.len(), dup_count(stmts(nb@)), nb@.len() - i,
    {
        let ghost before = stmts(nb@);
        proof {
            lemma_rewrite_shrinks(before, i as int);
        }
        let r = rewrite_exec(&mut nb, i);
        if r == 2 {
            return None;
        }
        if r == 1 {
            i = 0;
        } else {
            i = i + 1;
        }
    }
    let ghost t = stmts(nb@);
    let n = nb.len();
    let mut j: usize = 0;
    while j < n
        invariant
            src == stmts(block@),
            Some(t) == peephole(no_comments(src), 0),
            n == nb@.len(),
            n == t.len(),
            j <= n,
            refold(stmts(nb@), n - 1 - j) == refold(t, t.len() - 1),
        decreases n - j,
    {
        let i = n - 1 - j;
        let ghost before = stmts(nb@);
        if n >= 2 && i < n - 2 {
            let a = pushed(&nb[i]);
            let b = pushed(&nb[i + 1]);
            match (a, b) {
                (Some(x), Some(y)) => {
                    if x.equals(&y) {
                        set_at(&mut nb, i + 1, Expr::Instr(CMD::Dup));
                    }
                },
                _ => {},
            }
        }
        j = j + 1;
    }
    Some(nb)
}

impl PietStackExecutor {
    /// Optimizes every block as `optimized_block` says, and tells whether it
    /// could: when a rule gets stuck in some block, nothing is changed and
    /// the result is `false`.
    pub fn optimize(&mut self) -> (r: bool)
        requires
            old(self).wf(),
        ensures
            final(self).wf(),
            final(self).block_index == old(self).block_index,
            final(self).stack == old(self).stack,
            final(self).label == old(self).label,
            forall|k: int|
                0 <= k < final(self).blocks.entries().len() ==> stmts(
                    #[trigger] final(self).blocks.entries()[k].1@,
                ).len() <= stmts(old(self).blocks.entries()[k].1@).len(),
            r == (forall|k: int|
                0 <= k < old(self).blocks.entries().len() ==> (#[trigger] optimized_block(
                    stmts(old(self).blocks.entries()[k].1@),
                )) is Some),
            (forall|k: int|
                0 <= k < old(self).blocks.entries().len() ==> never_stuck(
                    stmts(#[trigger] old(self).blocks.entries()[k].1@),
                )) ==> r,
            !r ==> final(self).blocks == old(self).blocks,
            r ==> final(self).blocks.entries().len() == old(self).blocks.entries().len() && forall|k: int|
                0 <= k < old(self).blocks.entries().len() ==> #[trigger] final(self).blocks.entries()[k].0
                    == old(self).blocks.entries()[k].0 && Some(stmts(final(self).blocks.entries()[k].1@))
                    == optimized_block(stmts(old(self).blocks.entries()[k].1@)),
    {
        let ghost es = self.blocks.entries();
        let mut bodies: Vec<Vec<Expr>> = Vec::new();
        let mut k: usize = 0;
        while k < self.blocks.len()
            invariant
                es == self.blocks.entries(),
                es == old(self).blocks.entries(),
                *self == *old(self),
                self.wf(),
                k <= es.len(),
                bodies@.len() == k,
                forall|q: int| 0 <= q < k ==> Some(stmts(#[trigger] bodies@[q]@)) == optimized_block(stmts(es[q].1@)),
            decreases es.len() - k,
        {
            match optimize_body(self.blocks.value_at(k)) {
                Some(b) => {
                    bodies.push(b);
                },
                None => {
                    assert(optimized_block(stmts(es[k as int].1@)) is None);
                    proof {
                        if never_stuck(stmts(es[k as int].1@)) {
                            lemma_optimize_succeeds(stmts(es[k as int].1@));
                        }
                    }
                    return false;
                },
            }
            k = k + 1;
        }
        let mut bodies = bodies;
        let mut m: usize = bodies.len();
        while m > 0
            invariant
                self.wf(),
                self.block_index == old(self).block_index,
                self.stack == old(self).stack,
                self.label == old(self).label,
                es == old(self).blocks.entries(),
                m == bodies@.len(),
                bodies@.len() <= es.len(),
                self.blocks.entries().len() == es.len(),
                forall|q: int| 0 <= q < es.len() ==> #[trigger] self.blocks.entries()[q].0 == es[q].0,
                forall|q: int| 0 <= q < m ==> Some(stmts(#[trigger] bodies@[q]@)) == optimized_block(stmts(es[q].1@)),
                forall|q: int| m <= q < es.len() ==> Some(stmts(#[trigger] self.blocks.entries()[q].1@)) == optimized_block(stmts(es[q].1@)),
            decreases m,
        {
            let ghost b0 = bodies@;
            let b = bodies.pop().unwrap();
            m = m - 1;
            assert(b == b0[m as int]);
            assert(bodies@ =~= b0.drop_last());
            let ghost e0 = self.blocks.entries();
            self.blocks.set_value_at(m, b);
            assert forall|q: int| 0 <= q < es.len() implies #[trigger] self.blocks.entries()[q].0 == es[q].0 by {
                assert(self.blocks.entries()[q].0 == e0[q].0);
            }
            assert forall|q: int| m <= q < es.len() implies Some(stmts(#[trigger] self.blocks.entries()[q].1@)) == optimized_block(stmts(es[q].1@)) by {
                if q > m {
                    assert(self.blocks.entries()[q] == e0[q]);
                }
            }
            assert forall|q: int| 0 <= q < m implies Some(stmts(#[trigger] bodies@[q]@)) == optimized_block(stmts(es[q].1@)) by {
                assert(bodies@[q] == b0[q]);
            }
        }
        assert forall|k: int| 0 <= k < old(self).blocks.entries().len() implies (#[trigger] optimized_block(
            stmts(old(self).blocks.entries()[k].1@),
        )) is Some by {
            assert(Some(stmts(self.blocks.entries()[k].1@)) == optimized_block(stmts(es[k].1@)));
        }
        assert forall|k: int| 0 <= k < self.blocks.entries().len() implies stmts(
            #[trigger] self.blocks.entries()[k].1@,
        ).len() <= stmts(old(self).blocks.entries()[k].1@).len() by {
            assert(Some(stmts(self.blocks.entries()[k].1@)) == optimized_block(stmts(es[k].1@)));
            lemma_optimized_len(stmts(es[k].1@));
        }
        true
    }
}

} // verus!
