//! Short command sequences that push a given number onto the stack: a
//! cheapest-first search over the stacks that short sequences reach.

use crate::integer::{low_part, Integer};
use std::collections::HashMap;
use crate::io::ByteInput;
use crate::piet_interpreter::{cmd_crashes, cmd_effect, values, Op, CMD};
use vstd::prelude::*;

verus! {

broadcast use vstd::std_specs::hash::group_hash_axioms;

/// `b` to the power `e`.
pub open spec fn power(b: int, e: nat) -> int
    decreases e,
{
    if e == 0 {
        1
    } else {
        b * power(b, (e - 1) as nat)
    }
}

/// Powers of a natural number are natural.
pub proof fn lemma_power_nonneg(b: int, e: nat)
    requires
        b >= 0,
    ensures
        power(b, e) >= 0,
    decreases e,
{
    if e > 0 {
        lemma_power_nonneg(b, (e - 1) as nat);
        let p = power(b, (e - 1) as nat);
        assert(b * p >= 0) by (nonlinear_arith)
            requires
                b >= 0,
                p >= 0,
        ;
    }
}

/// A positive base to a positive power is at least the base.
pub proof fn lemma_power_at_least_base(b: int, e: nat)
    requires
        b >= 1,
        e >= 1,
    ensures
        power(b, e) >= b,
    decreases e,
{
    if e > 1 {
        lemma_power_at_least_base(b, (e - 1) as nat);
        let p = power(b, (e - 1) as nat);
        assert(b * p >= b) by (nonlinear_arith)
            requires
                b >= 1,
                p >= b,
        ;
    } else {
        assert(power(b, 0) == 1);
    }
}

/// One to any power is one.
pub proof fn lemma_power_one(e: nat)
    ensures
        power(1, e) == 1,
    decreases e,
{
    if e > 0 {
        lemma_power_one((e - 1) as nat);
    }
}

/// Zero to a positive power is zero.
pub proof fn lemma_power_zero(e: nat)
    requires
        e >= 1,
    ensures
        power(0, e) == 0,
{
}

/// For a positive base, a larger exponent gives a power at least as large.
pub proof fn lemma_power_exponent_monotone(b: int, e1: nat, e2: nat)
    requires
        b >= 1,
        e1 <= e2,
    ensures
        power(b, e1) <= power(b, e2),
    decreases e2,
{
    if e1 < e2 {
        lemma_power_exponent_monotone(b, e1, (e2 - 1) as nat);
        lemma_power_nonneg(b, (e2 - 1) as nat);
        let p = power(b, (e2 - 1) as nat);
        assert(b * p >= p) by (nonlinear_arith)
            requires
                b >= 1,
                p >= 0,
        ;
    }
}

/// A larger natural base gives a power at least as large.
pub proof fn lemma_power_base_monotone(a: int, b: int, e: nat)
    requires
        0 <= a <= b,
    ensures
        power(a, e) <= power(b, e),
    decreases e,
{
    if e > 0 {
        lemma_power_base_monotone(a, b, (e - 1) as nat);
        lemma_power_nonneg(a, (e - 1) as nat);
        let pa = power(a, (e - 1) as nat);
        let pb = power(b, (e - 1) as nat);
        assert(a * pa <= b * pb) by (nonlinear_arith)
            requires
                0 <= a <= b,
                0 <= pa <= pb,
        ;
    }
}

/// A larger natural base gives a larger positive power.
pub proof fn lemma_power_base_strict(a: int, b: int, e: nat)
    requires
        0 <= a < b,
        e >= 1,
    ensures
        power(a, e) < power(b, e),
    decreases e,
{
    if e > 1 {
        lemma_power_base_strict(a, b, (e - 1) as nat);
        lemma_power_nonneg(a, (e - 1) as nat);
        let pa = power(a, (e - 1) as nat);
        let pb = power(b, (e - 1) as nat);
        assert(a * pa < b * pb) by (nonlinear_arith)
            requires
                0 <= a < b,
                0 <= pa < pb,
        ;
    } else {
        assert(power(a, 0) == 1 && power(b, 0) == 1);
    }
}

/// `m` to the power `n`, or `None` when that exceeds `usize::MAX`.
fn checked_power(m: usize, n: u32) -> (r: Option<usize>)
    ensures
        r matches Some(v) ==> v == power(m as int, n as nat),
        r is None ==> power(m as int, n as nat) > usize::MAX,
{
    let mut acc: usize = 1;
    let mut i: u32 = 0;
    while i < n
        invariant
            i <= n,
            acc == power(m as int, i as nat),
        decreases n - i,
    {
        assert(power(m as int, (i + 1) as nat) == m * acc);
        assert(m * acc == acc * m) by (nonlinear_arith);
        match acc.checked_mul(m) {
            Some(v) => {
                acc = v;
            },
            None => {
                proof {
                    if m == 0 {
                        assert(acc * m == 0) by (nonlinear_arith)
                            requires
                                m == 0,
                        ;
                    }
                    lemma_power_exponent_monotone(m as int, (i + 1) as nat, n as nat);
                }
                return None;
            },
        }
        i = i + 1;
    }
    Some(acc)
}

/// The integer `n`-th root of `x`, rounded down: the `r` with
/// `r^n <= x < (r+1)^n`. For `x == 0` or `n <= 1` it is `x` itself.
pub fn int_root(x: usize, n: u32) -> (r: usize)
    ensures
        (x == 0 || n <= 1) ==> r == x,
        (x > 0 && n > 1) ==> power(r as int, n as nat) <= x < power(r + 1, n as nat),
{
    if x == 0 || n <= 1 {
        return x;
    }
    proof {
        lemma_power_at_least_base(x + 1, n as nat);
    }
    let mut l: usize = 0;
    let mut r: usize = x;
    while l <= r
        invariant
            x > 0,
            n > 1,
            l <= r + 1,
            r <= x,
            l == 0 || power(l - 1, n as nat) < x,
            power(r + 1, n as nat) > x,
        decreases r + 1 - l,
    {
        let m = l + (r - l) / 2;
        match checked_power(m, n) {
            Some(p) => {
                if p < x {
                    proof {
                        if m >= 1 {
                            lemma_power_at_least_base(m as int, n as nat);
                        }
                    }
                    l = m + 1;
                } else if p == x {
                    proof {
                        lemma_power_base_strict(m as int, m + 1, n as nat);
                    }
                    return m;
                } else {
                    proof {
                        if m == 0 {
                            lemma_power_zero(n as nat);
                        }
                    }
                    r = m - 1;
                }
            },
            None => {
                proof {
                    if m == 0 {
                        lemma_power_zero(n as nat);
                    }
                }
                r = m - 1;
            },
        }
    }
    r
}

/// The commands of a sequence as views.
pub open spec fn ops(cs: Seq<CMD>) -> Seq<Op> {
    cs.map_values(|c: CMD| c@)
}

/// Whether a command only works on the stack (no input, output or
/// direction change).
pub open spec fn is_stack_op(op: Op) -> bool {
    match op {
        Op::InN | Op::InC | Op::OutN | Op::OutC | Op::Pointer | Op::Switch => false,
        _ => true,
    }
}

/// How many values a command takes from the stack.
pub open spec fn needed(op: Op) -> nat {
    match op {
        Op::Nop | Op::Push(_) | Op::InN | Op::InC => 0,
        Op::Pop | Op::Not | Op::Dup | Op::OutN | Op::OutC => 1,
        _ => 2,
    }
}

/// The stack after one command run without input.
pub open spec fn step(op: Op, s: Seq<int>) -> Seq<int> {
    cmd_effect(op, s, seq![]).0
}

/// The stack after running the commands in order from `s`.
pub open spec fn run_ops(os: Seq<Op>, s: Seq<int>) -> Seq<int>
    decreases os.len(),
{
    if os.len() == 0 {
        s
    } else {
        step(os.last(), run_ops(os.drop_last(), s))
    }
}

/// Whether, run from `s`, every command only works on the stack, finds the
/// values it takes, and does not abort the machine.
pub open spec fn runs_cleanly(os: Seq<Op>, s: Seq<int>) -> bool
    decreases os.len(),
{
    if os.len() == 0 {
        true
    } else {
        let t = run_ops(os.drop_last(), s);
        runs_cleanly(os.drop_last(), s) && is_stack_op(os.last()) && needed(os.last()) <= t.len()
            && !cmd_crashes(os.last(), t, seq![])
    }
}

/// A command that finds its values acts the same on top of any deeper
/// stack.
pub proof fn lemma_step_frame(op: Op, base: Seq<int>, s: Seq<int>)
    requires
        is_stack_op(op),
        needed(op) <= s.len(),
        !cmd_crashes(op, s, seq![]),
    ensures
        !cmd_crashes(op, base + s, seq![]),
        step(op, base + s) == base + step(op, s),
{
    let t = base + s;
    let n = s.len() as int;
    let m = t.len() as int;
    assert(m == base.len() + n);
    if needed(op) >= 1 {
        assert(t[m - 1] == s[n - 1]);
    }
    if needed(op) >= 2 {
        assert(t[m - 2] == s[n - 2]);
        assert(t.subrange(0, m - 2) =~= base + s.subrange(0, n - 2));
    }
    match op {
        Op::Push(v) => {
            assert(t.push(v) =~= base + s.push(v));
        },
        Op::Pop => {
            assert(t.drop_last() =~= base + s.drop_last());
        },
        Op::Not => {
            let v = if s[n - 1] == 0 { 1int } else { 0int };
            assert(t.drop_last().push(v) =~= base + s.drop_last().push(v));
        },
        Op::Dup => {
            assert(t.push(t[m - 1]) =~= base + s.push(s[n - 1]));
        },
        Op::Roll => {
            if s[n - 2] >= 0 {
                let b = s[n - 2];
                let k = s[n - 1] % b;
                let rest = s.subrange(0, n - 2);
                let rest2 = t.subrange(0, m - 2);
                if k != 0 {
                    assert(b <= rest.len());
                    assert(rest2.subrange(0, rest2.len() - b) =~= base + rest.subrange(0, rest.len() - b));
                    assert(rest2.subrange(rest2.len() - b, rest2.len() as int) =~= rest.subrange(
                        rest.len() - b,
                        rest.len() as int,
                    ));
                    assert((base + rest.subrange(0, rest.len() - b)) + crate::piet_interpreter::rotate_right(
                        rest.subrange(rest.len() - b, rest.len() as int),
                        k,
                    ) =~= base + (rest.subrange(0, rest.len() - b) + crate::piet_interpreter::rotate_right(
                        rest.subrange(rest.len() - b, rest.len() as int),
                        k,
                    )));
                }
            }
        },
        _ => {
            if needed(op) >= 2 {
                assert(forall|v: int| #[trigger] t.subrange(0, m - 2).push(v) =~= base + s.subrange(0, n - 2).push(v));
            }
        },
    }
}

/// Running one sequence after another is running their concatenation.
pub proof fn lemma_run_concat(a: Seq<Op>, b: Seq<Op>, s: Seq<int>)
    ensures
        run_ops(a + b, s) == run_ops(b, run_ops(a, s)),
        runs_cleanly(a + b, s) == (runs_cleanly(a, s) && runs_cleanly(b, run_ops(a, s))),
    decreases b.len(),
{
    if b.len() == 0 {
        assert(a + b =~= a);
    } else {
        lemma_run_concat(a, b.drop_last(), s);
        assert((a + b).drop_last() =~= a + b.drop_last());
        assert((a + b).last() == b.last());
    }
}

/// A sequence that runs cleanly acts the same on top of any deeper stack.
pub proof fn lemma_run_frame(os: Seq<Op>, base: Seq<int>, s: Seq<int>)
    requires
        runs_cleanly(os, s),
    ensures
        runs_cleanly(os, base + s),
        run_ops(os, base + s) == base + run_ops(os, s),
    decreases os.len(),
{
    if os.len() > 0 {
        lemma_run_frame(os.drop_last(), base, s);
        lemma_step_frame(os.last(), base, run_ops(os.drop_last(), s));
    }
}

/// A command sequence waiting to be tried: its cost, its last command, the
/// stack before that command, and the whole sequence.
struct Candidate {
    weight: usize,
    instr: CMD,
    stack: Vec<Integer>,
    total: Vec<CMD>,
}

/// Whether `s` is among the stacks of `results`.
pub open spec fn reached(results: Seq<(Vec<Integer>, usize, Vec<CMD>)>, s: Seq<int>) -> bool {
    exists|i: int| 0 <= i < results.len() && values(#[trigger] results[i].0@) == s
}

/// Whether `os` is the sequence of an entry of `results` for stack `s`.
pub open spec fn recorded_in(results: Seq<(Vec<Integer>, usize, Vec<CMD>)>, s: Seq<int>, os: Seq<Op>) -> bool {
    exists|i: int| 0 <= i < results.len() && values(#[trigger] results[i].0@) == s && ops(results[i].2@) == os
}

/// Results that only grew keep what they recorded, and record nothing new
/// for a stack that was already found, when no stack is recorded twice.
proof fn lemma_results_grow(a: Seq<(Vec<Integer>, usize, Vec<CMD>)>, b: Seq<(Vec<Integer>, usize, Vec<CMD>)>)
    requires
        a.len() <= b.len(),
        forall|i: int| 0 <= i < a.len() ==> #[trigger] b[i] == a[i],
        forall|i: int, j: int| 0 <= i < j < b.len() ==> values(#[trigger] b[i].0@) != values(#[trigger] b[j].0@),
    ensures
        forall|s: Seq<int>, os: Seq<Op>| #[trigger] recorded_in(a, s, os) ==> recorded_in(b, s, os),
        forall|s: Seq<int>, os: Seq<Op>| reached(a, s) && #[trigger] recorded_in(b, s, os) ==> recorded_in(a, s, os),
        forall|s: Seq<int>| #[trigger] reached(a, s) ==> reached(b, s),
{
    assert forall|s: Seq<int>, os: Seq<Op>| #[trigger] recorded_in(a, s, os) implies recorded_in(b, s, os) by {
        let i = choose|i: int| 0 <= i < a.len() && values(#[trigger] a[i].0@) == s && ops(a[i].2@) == os;
        assert(b[i] == a[i]);
    }
    assert forall|s: Seq<int>, os: Seq<Op>| reached(a, s) && #[trigger] recorded_in(b, s, os) implies recorded_in(
        a,
        s,
        os,
    ) by {
        let i = choose|i: int| 0 <= i < a.len() && values(#[trigger] a[i].0@) == s;
        let j = choose|j: int| 0 <= j < b.len() && values(#[trigger] b[j].0@) == s && ops(b[j].2@) == os;
        assert(b[i] == a[i]);
        if i < j {
            assert(values(b[i].0@) != values(b[j].0@));
        } else if j < i {
            assert(values(b[j].0@) != values(b[i].0@));
        }
    }
    assert forall|s: Seq<int>| #[trigger] reached(a, s) implies reached(b, s) by {
        let i = choose|i: int| 0 <= i < a.len() && values(#[trigger] a[i].0@) == s;
        assert(b[i] == a[i]);
    }
}

/// Whether every push of the commands pushes a value from 1 to 5.
pub open spec fn small_pushes(os: Seq<Op>) -> bool {
    forall|i: int| 0 <= i < os.len() ==> (#[trigger] os[i] matches Op::Push(v) ==> 1 <= v <= 5)
}

/// Small pushes stay small when sequences are joined.
pub proof fn lemma_small_pushes_concat(a: Seq<Op>, b: Seq<Op>)
    requires
        small_pushes(a),
        small_pushes(b),
    ensures
        small_pushes(a + b),
{
    assert forall|i: int| 0 <= i < (a + b).len() implies (#[trigger] (a + b)[i] matches Op::Push(v) ==> 1 <= v
        <= 5) by {
        if i < a.len() {
            assert((a + b)[i] == a[i]);
        } else {
            assert((a + b)[i] == b[i - a.len()]);
        }
    }
}

/// A found sequence reaches its stack from the empty stack.
spec fn result_ok(r: (Vec<Integer>, usize, Vec<CMD>)) -> bool {
    runs_cleanly(ops(r.2@), seq![]) && run_ops(ops(r.2@), seq![]) == values(r.0@) && small_pushes(ops(r.2@))
}

/// A waiting sequence reaches its stack before its last command, which can
/// run there; unless it is a push, that stack was reached already.
spec fn candidate_ok(c: Candidate, results: Seq<(Vec<Integer>, usize, Vec<CMD>)>) -> bool {
    &&& c.total@.len() >= 1
    &&& c.total@.last()@ == c.instr@
    &&& runs_cleanly(ops(c.total@.drop_last()), seq![])
    &&& run_ops(ops(c.total@.drop_last()), seq![]) == values(c.stack@)
    &&& small_pushes(ops(c.total@))
    &&& is_stack_op(c.instr@)
    &&& !cmd_crashes(c.instr@, values(c.stack@), seq![])
    &&& (c.instr@ is Push || reached(results, values(c.stack@)))
}

/// The search for short push sequences.
pub struct StackOptimizer {
    /// Each stack reached, with the cost and the sequence that reached it
    /// first.
    results: Vec<(Vec<Integer>, usize, Vec<CMD>)>,
    /// The positions in `results` of the stacks with each key.
    buckets: HashMap<u64, Vec<usize>>,
    /// Every sequence made to be tried.
    arena: Vec<Candidate>,
    /// The positions in `arena` of the sequences still waiting, as a binary
    /// heap that puts the one that comes first at the front.
    heap: Vec<usize>,
    /// How many waiting sequences have been taken out and tried.
    tried: Ghost<nat>,
}

/// A key for a stack, from the low digits of its values.
pub open spec fn stack_key(s: Seq<int>) -> u64
    decreases s.len(),
{
    if s.len() == 0 {
        0
    } else {
        ((stack_key(s.drop_last()) as int * 31 + low_part(s.last())) % 1000003) as u64
    }
}

/// Every result is listed under its stack's key, and the lists only hold
/// positions of results.
spec fn buckets_ok(b: Map<u64, Vec<usize>>, results: Seq<(Vec<Integer>, usize, Vec<CMD>)>) -> bool {
    &&& forall|i: int|
        0 <= i < results.len() ==> b.contains_key(stack_key(values(#[trigger] results[i].0@))) && b[stack_key(
            values(results[i].0@),
        )]@.contains(i as usize)
    &&& forall|k: u64, j: int| b.contains_key(k) && 0 <= j < b[k]@.len() ==> #[trigger] b[k]@[j] < results.len()
}

/// The key of a stack.
fn key_of(s: &Vec<Integer>) -> (r: u64)
    ensures
        r == stack_key(values(s@)),
{
    let mut h: u64 = 0;
    let mut i: usize = 0;
    assert(values(s@).take(0) =~= Seq::<int>::empty());
    while i < s.len()
        invariant
            i <= s@.len(),
            h < 1000003,
            h == stack_key(values(s@).take(i as int)),
        decreases s@.len() - i,
    {
        let d = s[i].low_digit();
        proof {
            let t = values(s@).take(i + 1);
            assert(t.drop_last() =~= values(s@).take(i as int));
            assert(t.last() == s@[i as int]@);
        }
        h = (h * 31 + d as u64) % 1000003;
        i = i + 1;
    }
    assert(values(s@).take(i as int) =~= values(s@));
    h
}

/// A copy of a stack.
fn copy_stack(v: &Vec<Integer>) -> (r: Vec<Integer>)
    ensures
        values(r@) == values(v@),
{
    let mut r: Vec<Integer> = Vec::new();
    let mut i: usize = 0;
    while i < v.len()
        invariant
            i <= v@.len(),
            values(r@) == values(v@).take(i as int),
        decreases v@.len() - i,
    {
        let ghost r0 = r@;
        let x = v[i].copy();
        r.push(x);
        assert(values(r@) =~= values(r0).push(x@));
        i = i + 1;
        assert(values(r@) =~= values(v@).take(i as int));
    }
    assert(values(v@).take(i as int) =~= values(v@));
    r
}

/// A copy of a command sequence.
fn copy_cmds(v: &Vec<CMD>) -> (r: Vec<CMD>)
    ensures
        ops(r@) == ops(v@),
{
    let mut r: Vec<CMD> = Vec::new();
    let mut i: usize = 0;
    while i < v.len()
        invariant
            i <= v@.len(),
            ops(r@) == ops(v@).take(i as int),
        decreases v@.len() - i,
    {
        let ghost r0 = r@;
        let x = v[i].copy();
        r.push(x);
        assert(ops(r@) =~= ops(r0).push(x@));
        i = i + 1;
        assert(ops(r@) =~= ops(v@).take(i as int));
    }
    assert(ops(v@).take(i as int) =~= ops(v@));
    r
}

/// Commands that push `v` (at least 0) with pushes of 1 to 5 only: `0` as
/// `1, not`, 4 as `2, dup, add`, 1 to 5 otherwise pushed, and a larger
/// value as its half doubled by `dup, add`, plus `1, add` when odd.
pub open spec fn plain_ops(v: int) -> Seq<Op>
    decreases v,
{
    if v <= 0 {
        seq![Op::Push(1), Op::Not]
    } else if v == 4 {
        seq![Op::Push(2), Op::Dup, Op::Add]
    } else if v < 6 {
        seq![Op::Push(v)]
    } else {
        plain_ops(v / 2) + seq![Op::Dup, Op::Add] + if v % 2 == 1 {
            seq![Op::Push(1), Op::Add]
        } else {
            Seq::empty()
        }
    }
}

/// Commands that push `v`: for a negative value, 0 minus its magnitude.
pub open spec fn value_ops(v: int) -> Seq<Op> {
    if v >= 0 {
        plain_ops(v)
    } else {
        seq![Op::Push(1), Op::Not] + plain_ops(-v) + seq![Op::Sub]
    }
}

/// Commands that push the values of `s` in order, each by `value_ops`.
pub open spec fn stack_ops(s: Seq<int>) -> Seq<Op>
    decreases s.len(),
{
    if s.len() == 0 {
        Seq::empty()
    } else {
        stack_ops(s.drop_last()) + value_ops(s.last())
    }
}

/// Commands that leave exactly `s` on an empty stack, with pushes of 1 to
/// 5 only.
pub open spec fn builds(os: Seq<Op>, s: Seq<int>) -> bool {
    runs_cleanly(os, seq![]) && run_ops(os, seq![]) == s && small_pushes(os)
}

/// Appending commands that run cleanly on their own keeps what is below.
#[verifier::spinoff_prover]
#[verifier::rlimit(40)]
proof fn lemma_builds_concat(a: Seq<Op>, sa: Seq<int>, b: Seq<Op>, sb: Seq<int>)
    requires
        builds(a, sa),
        builds(b, sb),
    ensures
        builds(a + b, sa + sb),
{
    lemma_run_concat(a, b, seq![]);
    lemma_run_frame(b, sa, seq![]);
    assert(sa + Seq::<int>::empty() =~= sa);
    lemma_small_pushes_concat(a, b);
}

/// One command after commands that leave `s`.
#[verifier::spinoff_prover]
#[verifier::rlimit(40)]
proof fn lemma_builds_step(a: Seq<Op>, s: Seq<int>, op: Op)
    requires
        builds(a, s),
        is_stack_op(op),
        needed(op) <= s.len(),
        !cmd_crashes(op, s, seq![]),
        op matches Op::Push(v) ==> 1 <= v <= 5,
    ensures
        builds(a.push(op), step(op, s)),
{
    assert(a.push(op).drop_last() =~= a);
    assert forall|i: int| 0 <= i < a.push(op).len() implies (#[trigger] a.push(op)[i] matches Op::Push(v) ==> 1 <= v
        <= 5) by {
        if i < a.len() {
            assert(a.push(op)[i] == a[i]);
        }
    }
}

/// Pushes, then commands, step by step from the empty stack.
#[verifier::spinoff_prover]
#[verifier::rlimit(40)]
proof fn lemma_builds_two(o1: Op, o2: Op, s1: Seq<int>, s2: Seq<int>)
    requires
        builds(seq![o1], s1),
        is_stack_op(o2),
        needed(o2) <= s1.len(),
        !cmd_crashes(o2, s1, seq![]),
        o2 matches Op::Push(v) ==> 1 <= v <= 5,
        step(o2, s1) == s2,
    ensures
        builds(seq![o1, o2], s2),
{
    lemma_builds_step(seq![o1], s1, o2);
    assert(seq![o1].push(o2) =~= seq![o1, o2]);
}

/// `plain_ops` pushes a value from 0 to 5.
#[verifier::spinoff_prover]
#[verifier::rlimit(40)]
proof fn lemma_plain_ops_small(v: int)
    requires
        0 <= v < 6,
    ensures
        builds(plain_ops(v), seq![v]),
{
    let e = Seq::<Op>::empty();
    let z = Seq::<int>::empty();
    assert(runs_cleanly(e, z) && run_ops(e, z) == z && small_pushes(e));
    if v == 0 {
        lemma_builds_step(e, z, Op::Push(1));
        assert(e.push(Op::Push(1)) =~= seq![Op::Push(1)]);
        assert(z.push(1) =~= seq![1int]);
        assert(step(Op::Not, seq![1int]) =~= seq![0int]);
        lemma_builds_two(Op::Push(1), Op::Not, seq![1int], seq![0int]);
    } else if v == 4 {
        lemma_builds_step(e, z, Op::Push(2));
        assert(e.push(Op::Push(2)) =~= seq![Op::Push(2)]);
        assert(z.push(2) =~= seq![2int]);
        assert(step(Op::Dup, seq![2int]) =~= seq![2int, 2int]);
        lemma_builds_two(Op::Push(2), Op::Dup, seq![2int], seq![2int, 2int]);
        assert(step(Op::Add, seq![2int, 2int]) =~= seq![4int]);
        lemma_builds_step(seq![Op::Push(2), Op::Dup], seq![2int, 2int], Op::Add);
        assert(seq![Op::Push(2), Op::Dup].push(Op::Add) =~= plain_ops(v));
    } else {
        lemma_builds_step(e, z, Op::Push(v));
        assert(e.push(Op::Push(v)) =~= plain_ops(v));
        assert(z.push(v) =~= seq![v]);
    }
}

/// `plain_ops` pushes its value.
#[verifier::spinoff_prover]
#[verifier::rlimit(40)]
proof fn lemma_plain_ops(v: int)
    requires
        v >= 0,
    ensures
        builds(plain_ops(v), seq![v]),
    decreases v,
{
    if v < 6 {
        lemma_plain_ops_small(v);
    } else {
        let h = v / 2;
        lemma_plain_ops(h);
        let a = plain_ops(h);
        assert(step(Op::Dup, seq![h]) =~= seq![h, h]);
        lemma_builds_step(a, seq![h], Op::Dup);
        assert(step(Op::Add, seq![h, h]) =~= seq![h + h]);
        lemma_builds_step(a.push(Op::Dup), seq![h, h], Op::Add);
        let d = a.push(Op::Dup).push(Op::Add);
        assert(d =~= a + seq![Op::Dup, Op::Add]);
        if v % 2 == 1 {
            assert(step(Op::Push(1), seq![h + h]) =~= seq![h + h, 1]);
            lemma_builds_step(d, seq![h + h], Op::Push(1));
            assert(step(Op::Add, seq![h + h, 1]) =~= seq![v]);
            lemma_builds_step(d.push(Op::Push(1)), seq![h + h, 1], Op::Add);
            assert(d.push(Op::Push(1)).push(Op::Add) =~= plain_ops(v));
        } else {
            assert(d + Seq::<Op>::empty() =~= plain_ops(v));
            assert(d =~= plain_ops(v));
        }
    }
}

/// `value_ops` pushes its value.
#[verifier::spinoff_prover]
#[verifier::rlimit(40)]
proof fn lemma_value_ops(v: int)
    ensures
        builds(value_ops(v), seq![v]),
{
    if v >= 0 {
        lemma_plain_ops(v);
    } else {
        lemma_plain_ops(0);
        lemma_plain_ops(-v);
        lemma_builds_concat(plain_ops(0), seq![0int], plain_ops(-v), seq![-v]);
        let a = plain_ops(0) + plain_ops(-v);
        assert(seq![0int] + seq![-v] =~= seq![0int, -v]);
        lemma_builds_step(a, seq![0int, -v], Op::Sub);
        assert(step(Op::Sub, seq![0int, -v]) =~= seq![v]);
        assert(a.push(Op::Sub) =~= value_ops(v));
    }
}

/// `stack_ops` leaves its stack.
#[verifier::spinoff_prover]
#[verifier::rlimit(40)]
proof fn lemma_stack_ops(s: Seq<int>)
    ensures
        builds(stack_ops(s), s),
    decreases s.len(),
{
    if s.len() == 0 {
        assert(stack_ops(s) =~= Seq::<Op>::empty());
        assert(s =~= Seq::<int>::empty());
    } else {
        lemma_stack_ops(s.drop_last());
        lemma_value_ops(s.last());
        lemma_builds_concat(stack_ops(s.drop_last()), s.drop_last(), value_ops(s.last()), seq![s.last()]);
        assert(s.drop_last() + seq![s.last()] =~= s);
    }
}

/// The commands of `plain_ops` for a value of at least 0.
fn plain_value(v: &Integer) -> (r: Vec<CMD>)
    requires
        v@ >= 0,
    ensures
        ops(r@) == plain_ops(v@),
    decreases v@,
{
    let six = Integer::from_i64(6);
    let mut c: Vec<CMD> = Vec::new();
    if v.less_than(&six) {
        if v.equals(&Integer::from_i64(0)) {
            c.push(CMD::Push(Integer::from_i64(1)));
            c.push(CMD::Not);
        } else if v.equals(&Integer::from_i64(4)) {
            c.push(CMD::Push(Integer::from_i64(2)));
            c.push(CMD::Dup);
            c.push(CMD::Add);
        } else {
            c.push(CMD::Push(v.copy()));
        }
        assert(ops(c@) =~= plain_ops(v@));
        c
    } else {
        let two = Integer::from_i64(2);
        let half = v.div_trunc(&two);
        assert(half@ == v@ / 2);
        let mut c = plain_value(&half);
        let ghost a = ops(c@);
        c.push(CMD::Dup);
        c.push(CMD::Add);
        let bit = v.rem_euclid(&two);
        if bit.equals(&Integer::from_i64(1)) {
            c.push(CMD::Push(Integer::from_i64(1)));
            c.push(CMD::Add);
            assert(ops(c@) =~= a + seq![Op::Dup, Op::Add] + seq![Op::Push(1), Op::Add]);
        } else {
            assert(ops(c@) =~= a + seq![Op::Dup, Op::Add] + Seq::<Op>::empty());
        }
        c
    }
}

/// The commands of `stack_ops` for the values of `s`.
fn plain_stack(s: &Vec<Integer>) -> (r: Vec<CMD>)
    ensures
        ops(r@) == stack_ops(values(s@)),
{
    let mut c: Vec<CMD> = Vec::new();
    let mut i: usize = 0;
    assert(values(s@).take(0) =~= Seq::<int>::empty());
    assert(ops(c@) =~= stack_ops(values(s@).take(0)));
    while i < s.len()
        invariant
            i <= s@.len(),
            ops(c@) == stack_ops(values(s@).take(i as int)),
        decreases s@.len() - i,
    {
        let ghost before = ops(c@);
        let zero = Integer::from_i64(0);
        let piece = if s[i].less_than(&zero) {
            let mut p: Vec<CMD> = Vec::new();
            p.push(CMD::Push(Integer::from_i64(1)));
            p.push(CMD::Not);
            let m = zero.sub(&s[i]);
            let mut q = plain_value(&m);
            let ghost qo = ops(q@);
            p.append(&mut q);
            p.push(CMD::Sub);
            assert(ops(p@) =~= seq![Op::Push(1), Op::Not] + qo + seq![Op::Sub]);
            assert(plain_ops(0) == seq![Op::Push(1), Op::Not]);
            p
        } else {
            plain_value(&s[i])
        };
        let ghost po = ops(piece@);
        let mut k: usize = 0;
        while k < piece.len()
            invariant
                k <= piece@.len(),
                ops(c@) == before + ops(piece@).take(k as int),
            decreases piece@.len() - k,
        {
            let ghost c0 = ops(c@);
            c.push(piece[k].copy());
            assert(ops(c@) =~= c0.push(piece@[k as int]@));
            k = k + 1;
            assert(ops(c@) =~= before + ops(piece@).take(k as int));
        }
        assert(ops(piece@).take(k as int) =~= ops(piece@));
        let ghost vs = values(s@);
        assert(vs.take(i + 1).drop_last() =~= vs.take(i as int));
        assert(vs.take(i + 1).last() == s@[i as int]@);
        assert(po == value_ops(s@[i as int]@));
        i = i + 1;
    }
    assert(values(s@).take(i as int) =~= values(s@));
    c
}

/// Whether two stacks hold the same values.
fn stacks_equal(a: &Vec<Integer>, b: &Vec<Integer>) -> (r: bool)
    ensures
        r == (values(a@) == values(b@)),
{
    if a.len() != b.len() {
        assert(values(a@).len() != values(b@).len());
        return false;
    }
    let mut i: usize = 0;
    while i < a.len()
        invariant
            a@.len() == b@.len(),
            i <= a@.len(),
            forall|k: int| 0 <= k < i ==> values(a@)[k] == values(b@)[k],
        decreases a@.len() - i,
    {
        if !a[i].equals(&b[i]) {
            assert(values(a@)[i as int] != values(b@)[i as int]);
            return false;
        }
        i = i + 1;
    }
    assert(values(a@) =~= values(b@));
    true
}

/// The position of a command's variant in the order `CMD` declares them.
pub open spec fn op_rank(o: Op) -> int {
    match o {
        Op::Nop => 0,
        Op::Push(_) => 1,
        Op::Pop => 2,
        Op::Add => 3,
        Op::Sub => 4,
        Op::Mul => 5,
        Op::Div => 6,
        Op::Mod => 7,
        Op::Not => 8,
        Op::Greater => 9,
        Op::Dup => 10,
        Op::Roll => 11,
        Op::InN => 12,
        Op::InC => 13,
        Op::OutN => 14,
        Op::OutC => 15,
        Op::Pointer => 16,
        Op::Switch => 17,
    }
}

/// -1, 0 or 1 as `x` is less than, equal to or greater than `y`.
pub open spec fn int_order(x: int, y: int) -> int {
    if x < y {
        -1
    } else if y < x {
        1
    } else {
        0
    }
}

/// Commands ordered by variant, then by pushed value: -1, 0 or 1.
pub open spec fn op_order(a: Op, b: Op) -> int {
    if op_rank(a) != op_rank(b) {
        int_order(op_rank(a), op_rank(b))
    } else {
        match (a, b) {
            (Op::Push(x), Op::Push(y)) => int_order(x, y),
            _ => 0,
        }
    }
}

/// Sequences ordered lexicographically by `ord`, a shorter prefix first:
/// -1, 0 or 1.
pub open spec fn lex_order<T>(a: Seq<T>, b: Seq<T>, ord: spec_fn(T, T) -> int) -> int
    decreases a.len(),
{
    if a.len() == 0 || b.len() == 0 {
        int_order(a.len() as int, b.len() as int)
    } else if ord(a[0], b[0]) != 0 {
        ord(a[0], b[0])
    } else {
        lex_order(a.drop_first(), b.drop_first(), ord)
    }
}

/// Past an equal position, the order is that of the rest.
proof fn lemma_lex_order_step<T>(a: Seq<T>, b: Seq<T>, ord: spec_fn(T, T) -> int, i: int)
    requires
        0 <= i < a.len(),
        i < b.len(),
        ord(a[i], b[i]) == 0,
    ensures
        lex_order(a.skip(i), b.skip(i), ord) == lex_order(a.skip(i + 1), b.skip(i + 1), ord),
{
    assert(a.skip(i)[0] == a[i]);
    assert(b.skip(i)[0] == b[i]);
    assert(a.skip(i).drop_first() =~= a.skip(i + 1));
    assert(b.skip(i).drop_first() =~= b.skip(i + 1));
}

/// Past a differing position, the order is decided there.
proof fn lemma_lex_order_differ<T>(a: Seq<T>, b: Seq<T>, ord: spec_fn(T, T) -> int, i: int)
    requires
        0 <= i < a.len(),
        i < b.len(),
        ord(a[i], b[i]) != 0,
    ensures
        lex_order(a.skip(i), b.skip(i), ord) == ord(a[i], b[i]),
{
    assert(a.skip(i)[0] == a[i]);
    assert(b.skip(i)[0] == b[i]);
}

/// Where one sequence is used up, the shorter comes first.
proof fn lemma_lex_order_end<T>(a: Seq<T>, b: Seq<T>, ord: spec_fn(T, T) -> int, i: int)
    requires
        0 <= i <= a.len(),
        i <= b.len(),
        i == a.len() || i == b.len(),
    ensures
        lex_order(a.skip(i), b.skip(i), ord) == int_order(a.len() as int, b.len() as int),
{
}

/// The order of stacks: lexicographic by value.
pub open spec fn stack_order(a: Seq<int>, b: Seq<int>) -> int {
    lex_order(a, b, |x: int, y: int| int_order(x, y))
}

/// The order of command sequences: lexicographic by `op_order`.
pub open spec fn cmds_order(a: Seq<Op>, b: Seq<Op>) -> int {
    lex_order(a, b, |x: Op, y: Op| op_order(x, y))
}

/// The position of a command's variant, as `CMD` declares them.
fn cmd_rank(c: &CMD) -> (r: u8)
    ensures
        r as int == op_rank(c@),
{
    match c {
        CMD::Nop => 0,
        CMD::Push(_) => 1,
        CMD::Pop => 2,
        CMD::Add => 3,
        CMD::Sub => 4,
        CMD::Mul => 5,
        CMD::Div => 6,
        CMD::Mod => 7,
        CMD::Not => 8,
        CMD::Greater => 9,
        CMD::Dup => 10,
        CMD::Roll => 11,
        CMD::InN => 12,
        CMD::InC => 13,
        CMD::OutN => 14,
        CMD::OutC => 15,
        CMD::Pointer => 16,
        CMD::Switch => 17,
    }
}

/// Compares two commands: by variant, then by pushed value. The result is
/// -1, 0 or 1.
fn cmd_compare(a: &CMD, b: &CMD) -> (r: i8)
    ensures
        r as int == op_order(a@, b@),
{
    let ra = cmd_rank(a);
    let rb = cmd_rank(b);
    if ra < rb {
        -1
    } else if rb < ra {
        1
    } else {
        match (a, b) {
            (CMD::Push(x), CMD::Push(y)) => {
                if x.less_than(y) {
                    -1
                } else if y.less_than(x) {
                    1
                } else {
                    0
                }
            },
            _ => {
                assert(!(a@ is Push) || !(b@ is Push));
                0
            },
        }
    }
}

/// Compares two stacks lexicographically. The result is -1, 0 or 1.
fn stack_compare(a: &Vec<Integer>, b: &Vec<Integer>) -> (r: i8)
    ensures
        r as int == stack_order(values(a@), values(b@)),
{
    let ghost va = values(a@);
    let ghost vb = values(b@);
    let ghost ord = |x: int, y: int| int_order(x, y);
    let mut i: usize = 0;
    assert(va.skip(0) =~= va && vb.skip(0) =~= vb);
    while i < a.len() && i < b.len()
        invariant
            i <= a@.len(),
            i <= b@.len(),
            va == values(a@),
            vb == values(b@),
            ord == (|x: int, y: int| int_order(x, y)),
            stack_order(va, vb) == lex_order(va.skip(i as int), vb.skip(i as int), ord),
        decreases a@.len() - i,
    {
        if a[i].less_than(&b[i]) {
            proof {
                lemma_lex_order_differ(va, vb, ord, i as int);
            }
            return -1;
        }
        if b[i].less_than(&a[i]) {
            proof {
                lemma_lex_order_differ(va, vb, ord, i as int);
            }
            return 1;
        }
        proof {
            lemma_lex_order_step(va, vb, ord, i as int);
        }
        i = i + 1;
    }
    proof {
        lemma_lex_order_end(va, vb, ord, i as int);
    }
    if a.len() < b.len() {
        -1
    } else if b.len() < a.len() {
        1
    } else {
        0
    }
}

/// Compares two command sequences lexicographically. The result is -1, 0
/// or 1.
fn cmds_compare(a: &Vec<CMD>, b: &Vec<CMD>) -> (r: i8)
    ensures
        r as int == cmds_order(ops(a@), ops(b@)),
{
    let ghost oa = ops(a@);
    let ghost ob = ops(b@);
    let ghost ord = |x: Op, y: Op| op_order(x, y);
    let mut i: usize = 0;
    assert(oa.skip(0) =~= oa && ob.skip(0) =~= ob);
    while i < a.len() && i < b.len()
        invariant
            i <= a@.len(),
            i <= b@.len(),
            oa == ops(a@),
            ob == ops(b@),
            ord == (|x: Op, y: Op| op_order(x, y)),
            cmds_order(oa, ob) == lex_order(oa.skip(i as int), ob.skip(i as int), ord),
        decreases a@.len() - i,
    {
        let c = cmd_compare(&a[i], &b[i]);
        assert(oa[i as int] == a@[i as int]@ && ob[i as int] == b@[i as int]@);
        if c != 0 {
            proof {
                lemma_lex_order_differ(oa, ob, ord, i as int);
            }
            return c;
        }
        proof {
            lemma_lex_order_step(oa, ob, ord, i as int);
        }
        i = i + 1;
    }
    proof {
        lemma_lex_order_end(oa, ob, ord, i as int);
    }
    if a.len() < b.len() {
        -1
    } else if b.len() < a.len() {
        1
    } else {
        0
    }
}

/// Whether candidate `a` comes before `b`: by cost, then last command,
/// then stack, then sequence.
spec fn candidate_before(a: Candidate, b: Candidate) -> bool {
    if a.weight != b.weight {
        a.weight < b.weight
    } else if op_order(a.instr@, b.instr@) != 0 {
        op_order(a.instr@, b.instr@) < 0
    } else if stack_order(values(a.stack@), values(b.stack@)) != 0 {
        stack_order(values(a.stack@), values(b.stack@)) < 0
    } else {
        cmds_order(ops(a.total@), ops(b.total@)) < 0
    }
}

/// Whether `a` comes before `b`: by cost, then last command, then stack,
/// then sequence.
fn candidate_less(a: &Candidate, b: &Candidate) -> (r: bool)
    ensures
        r == candidate_before(*a, *b),
{
    if a.weight != b.weight {
        return a.weight < b.weight;
    }
    let c = cmd_compare(&a.instr, &b.instr);
    if c != 0 {
        return c < 0;
    }
    let c = stack_compare(&a.stack, &b.stack);
    if c != 0 {
        return c < 0;
    }
    cmds_compare(&a.total, &b.total) < 0
}

/// `w + k`, or the largest `usize` when that is larger.
pub open spec fn sat_add(w: int, k: int) -> int {
    if w + k > usize::MAX {
        usize::MAX as int
    } else {
        w + k
    }
}

/// The `k` positions from `start` on.
pub open spec fn positions(start: int, k: int) -> Seq<usize> {
    Seq::new(k as nat, |j: int| (start + j) as usize)
}

/// The commands tried after reaching stack `s`, each with its cost: pushes
/// of 1, 2, 3 and 5, `pop`, the arithmetic commands and `dup`, and `roll`
/// when the value below the top is a positive depth no larger than the
/// values beneath it.
pub open spec fn neighbor_moves(s: Seq<int>) -> Seq<(int, Op)> {
    seq![
        (1int, Op::Push(1)),
        (2int, Op::Push(2)),
        (3int, Op::Push(3)),
        (5int, Op::Push(5)),
        (1int, Op::Pop),
        (1int, Op::Add),
        (1int, Op::Sub),
        (1int, Op::Mul),
        (1int, Op::Div),
        (1int, Op::Mod),
        (1int, Op::Dup),
    ] + if s.len() >= 2 && 0 < s[s.len() - 2] <= s.len() - 2 {
        seq![(1int, Op::Roll)]
    } else {
        Seq::empty()
    }
}

/// The stack after `cmd`, run without input.
fn evaluate(cmd: CMD, stack: &mut Vec<Integer>)
    requires
        !cmd_crashes(cmd@, values(old(stack)@), seq![]),
    ensures
        values(final(stack)@) == step(cmd@, values(old(stack)@)),
{
    let mut input = ByteInput::new(Vec::new());
    let mut output: Vec<char> = Vec::new();
    cmd.interpret(stack, &mut input, &mut output);
}

/// What a search for stack `s` with `fuel` steps gives, seen from the
/// optimizer before it (`a`) and after it (`b`): the sequence recorded for
/// `s` when `s` has been found; otherwise the sequence `stack_ops` builds,
/// and then the search gave up, having tried `fuel` sequences or run out of
/// sequences to try.
pub open spec fn searched(a: StackOptimizer, b: StackOptimizer, s: Seq<int>, fuel: nat, os: Seq<Op>) -> bool {
    if b.found(s) {
        b.recorded(s, os)
    } else {
        os == stack_ops(s) && (b.tried() == a.tried() + fuel || b.waiting() == 0)
    }
}

/// The integer `k`-th root of `n`: the `r` with `r^k <= n < (r + 1)^k`.
pub open spec fn root_of(n: nat, k: nat) -> nat {
    choose|r: nat| #[trigger] power(r as int, k) <= n && n < power(r + 1int, k)
}

/// The least exponent from `k` on, and at most 9, for which the root of
/// `n` is at most 173.
pub open spec fn root_exponent(n: nat, k: nat) -> nat
    decreases 9 - k,
{
    if k >= 9 || root_of(n, k) <= 173 {
        k
    } else {
        root_exponent(n, k + 1)
    }
}

/// `k - 1` `dup`s, then `k - 1` `mul`s: raises a pushed value to the `k`-th
/// power.
pub open spec fn raise_ops(k: nat) -> Seq<Op> {
    Seq::new((k - 1) as nat, |i: int| Op::Dup) + Seq::new((k - 1) as nat, |i: int| Op::Mul)
}

/// `os` is the code `optimize_number` gives for `n` with `fuel` steps per
/// search, the optimizer going from `a` to `b`: with `k` the exponent
/// `root_exponent(n, 1)` and `r` the `k`-th root of `n`, what a search for
/// `r` gives (see `searched`), then `raise_ops(k)`; and when `n` is more
/// than `r^k`, then the code for `n - r^k` from the optimizer that search
/// left (an optimizer that has tried no fewer sequences than `a` and no
/// more than `b`), and `add`.
pub open spec fn number_code(a: StackOptimizer, b: StackOptimizer, n: nat, fuel: nat, os: Seq<Op>) -> bool
    decreases n,
{
    let k = root_exponent(n, 1);
    let r = root_of(n, k);
    let p = power(r as int, k);
    if 1 <= p < n {
        exists|m: StackOptimizer, c1: Seq<Op>, c2: Seq<Op>|
            a.tried() <= m.tried() <= b.tried() && searched(a, m, seq![r as int], fuel, c1) && number_code(
                m,
                b,
                (n - p) as nat,
                fuel,
                c2,
            ) && os == c1 + raise_ops(k) + c2 + seq![Op::Add]
    } else {
        exists|c1: Seq<Op>| searched(a, b, seq![r as int], fuel, c1) && os == c1 + raise_ops(k)
    }
}

/// The root `int_root` gives is the root of `n`.
proof fn lemma_root_is(n: nat, k: nat, r: nat)
    requires
        k >= 1,
        (n == 0 || k <= 1) ==> r == n,
        (n > 0 && k > 1) ==> power(r as int, k) <= n < power(r + 1int, k),
    ensures
        power(r as int, k) <= n < power(r + 1int, k),
        root_of(n, k) == r,
{
    if k <= 1 {
        assert(power(r as int, 1) == r * power(r as int, 0));
        assert(power(r + 1int, 1) == (r + 1) * power(r + 1int, 0));
    } else if n == 0 {
        lemma_power_zero(k);
        lemma_power_one(k);
    }
    let c = root_of(n, k);
    assert(power(c as int, k) <= n && n < power(c + 1int, k));
    if c < r {
        lemma_power_base_monotone(c + 1int, r as int, k);
    } else if c > r {
        lemma_power_base_monotone(r + 1int, c as int, k);
    }
}

/// The exponent and root `optimize_number` works with for `n`.
fn choose_root(n: usize) -> (res: (u32, usize))
    ensures
        1 <= res.0 <= 9,
        res.1 <= 173,
        n <= 173 ==> res.0 == 1,
        (n == 0 || res.0 <= 1) ==> res.1 == n,
        (n > 0 && res.0 > 1) ==> power(res.1 as int, res.0 as nat) <= n < power(res.1 + 1, res.0 as nat),
        res.0 == root_exponent(n as nat, 1),
        res.1 == root_of(n as nat, res.0 as nat),
{
    let mut root: u32 = 1;
    let mut r = int_root(n, root);
    proof {
        lemma_root_is(n as nat, 1, r as nat);
    }
    while r > 173
        invariant
            1 <= root <= 9,
            n <= 173 ==> root == 1,
            (n == 0 || root <= 1) ==> r == n,
            (n > 0 && root > 1) ==> power(r as int, root as nat) <= n < power(r + 1, root as nat),
            root_exponent(n as nat, 1) == root_exponent(n as nat, root as nat),
            r == root_of(n as nat, root as nat),
        decreases 9 - root,
    {
        proof {
            if root >= 9 {
                lemma_power_base_monotone(174, r as int, root as nat);
                lemma_power_exponent_monotone(174, 9, root as nat);
                assert(power(174, 9) == 146198606972431117824) by {
                    reveal_with_fuel(power, 10);
                }
            }
            assert(root_exponent(n as nat, root as nat) == root_exponent(n as nat, (root + 1) as nat));
        }
        root = root + 1;
        r = int_root(n, root);
        proof {
            lemma_root_is(n as nat, root as nat, r as nat);
        }
    }
    (root, r)
}

/// Appends `raise_ops(root)` to code that pushes `r`, so that it pushes
/// `r^root`.
fn append_raise(instrs: &mut Vec<CMD>, r: usize, root: u32)
    requires
        root >= 1,
        runs_cleanly(ops(old(instrs)@), seq![]),
        run_ops(ops(old(instrs)@), seq![]) == seq![r as int],
        small_pushes(ops(old(instrs)@)),
    ensures
        ops(final(instrs)@) == ops(old(instrs)@) + raise_ops(root as nat),
        runs_cleanly(ops(final(instrs)@), seq![]),
        run_ops(ops(final(instrs)@), seq![]) == seq![power(r as int, root as nat)],
        small_pushes(ops(final(instrs)@)),
{
    let ghost first = ops(instrs@);
    let mut i: u32 = 0;
    assert(first + Seq::new(0, |q: int| Op::Dup) =~= first);
    assert(Seq::new(1, |k: int| r as int) =~= seq![r as int]);
    while i < root - 1
        invariant
            root >= 1,
            i <= root - 1,
            runs_cleanly(ops(instrs@), seq![]),
            small_pushes(ops(instrs@)),
            run_ops(ops(instrs@), seq![]) == Seq::new((i + 1) as nat, |k: int| r as int),
            ops(instrs@) == first + Seq::new(i as nat, |q: int| Op::Dup),
        decreases root - 1 - i,
    {
        let ghost before = ops(instrs@);
        instrs.push(CMD::Dup);
        proof {
            assert(ops(instrs@) =~= before + seq![Op::Dup]);
            lemma_small_pushes_concat(before, seq![Op::Dup]);
            assert(ops(instrs@).drop_last() =~= before);
            assert(ops(instrs@).last() == Op::Dup);
            let t = run_ops(before, seq![]);
            assert(t.last() == r as int);
            assert(step(Op::Dup, t) =~= Seq::new((i + 2) as nat, |k: int| r as int));
            assert(ops(instrs@) =~= first + Seq::new((i + 1) as nat, |q: int| Op::Dup));
        }
        i = i + 1;
    }
    let ghost dups = ops(instrs@);
    proof {
        assert(power(r as int, 1) == r * power(r as int, 0));
        assert(Seq::new(root as nat, |k: int| r as int) =~= Seq::new((root - 1) as nat, |k: int| r as int).push(
            power(r as int, 1),
        ));
        assert(dups + Seq::new(0, |q: int| Op::Mul) =~= dups);
    }
    let mut j: u32 = 0;
    while j < root - 1
        invariant
            root >= 1,
            j <= root - 1,
            runs_cleanly(ops(instrs@), seq![]),
            small_pushes(ops(instrs@)),
            run_ops(ops(instrs@), seq![]) == Seq::new((root - 1 - j) as nat, |k: int| r as int).push(
                power(r as int, (j + 1) as nat),
            ),
            dups == first + Seq::new((root - 1) as nat, |q: int| Op::Dup),
            ops(instrs@) == dups + Seq::new(j as nat, |q: int| Op::Mul),
        decreases root - 1 - j,
    {
        let ghost before = ops(instrs@);
        instrs.push(CMD::Mul);
        proof {
            assert(ops(instrs@) =~= before + seq![Op::Mul]);
            lemma_small_pushes_concat(before, seq![Op::Mul]);
            assert(ops(instrs@).drop_last() =~= before);
            assert(ops(instrs@).last() == Op::Mul);
            let t = run_ops(before, seq![]);
            let m = t.len() as int;
            assert(t[m - 2] == r as int);
            assert(t[m - 1] == power(r as int, (j + 1) as nat));
            assert(power(r as int, (j + 2) as nat) == r * power(r as int, (j + 1) as nat));
            assert(step(Op::Mul, t) =~= Seq::new((root - 2 - j) as nat, |k: int| r as int).push(
                power(r as int, (j + 2) as nat),
            ));
            assert(ops(instrs@) =~= dups + Seq::new((j + 1) as nat, |q: int| Op::Mul));
        }
        j = j + 1;
    }
    proof {
        assert(run_ops(ops(instrs@), seq![]) =~= seq![power(r as int, root as nat)]);
        assert(ops(instrs@) =~= first + raise_ops(root as nat));
    }
}

impl StackOptimizer {
    /// Every found sequence reaches its stack, and every waiting sequence
    /// can be tried.
    pub closed spec fn wf(&self) -> bool {
        &&& forall|i: int| 0 <= i < self.results@.len() ==> result_ok(#[trigger] self.results@[i])
        &&& forall|i: int| 0 <= i < self.arena@.len() ==> candidate_ok(#[trigger] self.arena@[i], self.results@)
        &&& forall|i: int| 0 <= i < self.heap@.len() ==> #[trigger] self.heap@[i] < self.arena@.len()
        &&& buckets_ok(self.buckets@, self.results@)
        &&& forall|i: int, j: int|
            0 <= i < j < self.results@.len() ==> values(#[trigger] self.results@[i].0@) != values(
                #[trigger] self.results@[j].0@,
            )
    }

    /// How many waiting sequences have been taken out and tried so far.
    pub closed spec fn tried(&self) -> nat {
        self.tried@
    }

    /// How many sequences are waiting to be tried.
    pub closed spec fn waiting(&self) -> nat {
        self.heap@.len()
    }

    /// Whether a sequence reaching stack `s` has been found.
    pub closed spec fn found(&self, s: Seq<int>) -> bool {
        reached(self.results@, s)
    }

    /// Whether `os` is a found sequence recorded for stack `s`.
    pub closed spec fn recorded(&self, s: Seq<int>, os: Seq<Op>) -> bool {
        recorded_in(self.results@, s, os)
    }

    /// A fresh search: `0` is reached by `push 1, not`, and pushes of 1, 2,
    /// 3 and 5 wait to be tried.
    pub fn new() -> (r: StackOptimizer)
        ensures
            r.wf(),
            r.found(seq![0int]),
            forall|os: Seq<Op>| #[trigger] r.recorded(seq![0int], os) <==> os == seq![Op::Push(1), Op::Not],
    {
        let mut results: Vec<(Vec<Integer>, usize, Vec<CMD>)> = Vec::new();
        let mut zero: Vec<Integer> = Vec::new();
        zero.push(Integer::from_i64(0));
        let mut zero_cmds: Vec<CMD> = Vec::new();
        zero_cmds.push(CMD::Push(Integer::from_i64(1)));
        zero_cmds.push(CMD::Not);
        let ghost zs = zero;
        let ghost zc = zero_cmds;
        proof {
            let os = ops(zero_cmds@);
            assert(os[0] == Op::Push(1));
            assert(os[1] == Op::Not);
            assert(os.drop_last().drop_last() =~= Seq::<Op>::empty());
            assert(os.drop_last().last() == Op::Push(1));
            assert(os.last() == Op::Not);
            assert(values(zero@) =~= seq![0int]);
            assert(run_ops(os.drop_last().drop_last(), seq![]) =~= Seq::<int>::empty());
            assert(run_ops(os.drop_last(), seq![]) =~= seq![1int]);
            assert(run_ops(os, seq![]) =~= seq![0int]);
            assert(runs_cleanly(os.drop_last().drop_last(), seq![]));
            assert(runs_cleanly(os.drop_last(), seq![]));
            assert(runs_cleanly(os, seq![]));
        }
        let mut opt = StackOptimizer {
            results: Vec::new(),
            buckets: HashMap::new(),
            arena: Vec::new(),
            heap: Vec::new(),
            tried: Ghost(0),
        };
        opt.record(zero, 2, zero_cmds);
        assert(opt.results@[0].0 == zs);
        assert(reached(opt.results@, seq![0int]));
        proof {
            assert(ops(zc@) =~= seq![Op::Push(1), Op::Not]);
            assert(opt.results@[0].2 == zc);
            assert forall|os: Seq<Op>| #[trigger] opt.recorded(seq![0int], os) <==> os == seq![Op::Push(1), Op::Not] by {
                if os == seq![Op::Push(1), Op::Not] {
                    assert(values(opt.results@[0].0@) == seq![0int]);
                }
            }
        }
        let ghost r0 = opt.results;
        let empty_stack: Vec<Integer> = Vec::new();
        let empty_cmds: Vec<CMD> = Vec::new();
        assert(values(empty_stack@) =~= Seq::<int>::empty());
        assert(ops(empty_cmds@) =~= Seq::<Op>::empty());
        opt.push_candidate(1, CMD::Push(Integer::from_i64(1)), &empty_stack, &empty_cmds);
        opt.push_candidate(2, CMD::Push(Integer::from_i64(2)), &empty_stack, &empty_cmds);
        opt.push_candidate(3, CMD::Push(Integer::from_i64(3)), &empty_stack, &empty_cmds);
        opt.push_candidate(5, CMD::Push(Integer::from_i64(5)), &empty_stack, &empty_cmds);
        assert(opt.results == r0);
        opt
    }

    /// Candidate `c` costs `weight`, ends with command `op` run on stack
    /// `s`, and is the whole sequence `t`.
    spec fn candidate_is(c: Candidate, weight: int, op: Op, s: Seq<int>, t: Seq<Op>) -> bool {
        &&& c.weight == weight
        &&& c.instr@ == op
        &&& values(c.stack@) == s
        &&& ops(c.total@) == t
    }

    /// Adds a waiting sequence: `total` followed by `instr`, which runs on
    /// `stack`.
    fn push_candidate(&mut self, weight: usize, instr: CMD, stack: &Vec<Integer>, total: &Vec<CMD>)
        requires
            old(self).wf(),
            runs_cleanly(ops(total@), seq![]),
            run_ops(ops(total@), seq![]) == values(stack@),
            small_pushes(ops(total@)),
            instr@ matches Op::Push(v) ==> 1 <= v <= 5,
            is_stack_op(instr@),
            !cmd_crashes(instr@, values(stack@), seq![]),
            instr@ is Push || reached(old(self).results@, values(stack@)),
        ensures
            final(self).wf(),
            final(self).results == old(self).results,
            final(self).buckets == old(self).buckets,
            final(self).arena@ == old(self).arena@.push(final(self).arena@.last()),
            Self::candidate_is(
                final(self).arena@.last(),
                weight as int,
                instr@,
                values(stack@),
                ops(total@).push(instr@),
            ),
            final(self).heap@.to_multiset() == old(self).heap@.push(old(self).arena@.len() as usize).to_multiset(),
            final(self).tried == old(self).tried,
    {
        let mut t = copy_cmds(total);
        let ghost t0 = t@;
        let ghost iv = instr@;
        t.push(instr.copy());
        let c = Candidate { weight, instr, stack: copy_stack(stack), total: t };
        proof {
            assert(c.total@.drop_last() =~= t0);
            assert(ops(c.total@) =~= ops(t0).push(iv));
            assert forall|i: int| 0 <= i < ops(c.total@).len() implies (#[trigger] ops(c.total@)[i] matches Op::Push(v) ==> 1 <= v <= 5) by {
                if i < t0.len() {
                    assert(ops(c.total@)[i] == ops(t0)[i]);
                }
            }
        }
        let ghost a0 = self.arena@;
        self.arena.push(c);
        assert forall|i: int| 0 <= i < self.arena@.len() implies candidate_ok(#[trigger] self.arena@[i], self.results@) by {
            if i < a0.len() {
                assert(self.arena@[i] == a0[i]);
            }
        }
        let idx = self.arena.len() - 1;
        self.heap_push(idx);
    }

    /// Adds arena position `idx` to the heap.
    fn heap_push(&mut self, idx: usize)
        requires
            old(self).wf(),
            idx < old(self).arena@.len(),
        ensures
            final(self).wf(),
            final(self).results == old(self).results,
            final(self).arena == old(self).arena,
            final(self).buckets == old(self).buckets,
            final(self).heap@.to_multiset() == old(self).heap@.push(idx).to_multiset(),
            final(self).tried == old(self).tried,
    {
        self.heap.push(idx);
        let mut i = self.heap.len() - 1;
        while i > 0
            invariant
                self.wf(),
                self.results == old(self).results,
                self.arena == old(self).arena,
                self.buckets == old(self).buckets,
                self.tried == old(self).tried,
                i < self.heap@.len(),
                self.heap@.to_multiset() == old(self).heap@.push(idx).to_multiset(),
            decreases i,
        {
            let p = (i - 1) / 2;
            if candidate_less(&self.arena[self.heap[i]], &self.arena[self.heap[p]]) {
                self.heap_swap(i, p);
                i = p;
            } else {
                break;
            }
        }
    }

    /// Exchanges two heap entries.
    fn heap_swap(&mut self, a: usize, b: usize)
        requires
            old(self).wf(),
            a < old(self).heap@.len(),
            b < old(self).heap@.len(),
        ensures
            final(self).wf(),
            final(self).results == old(self).results,
            final(self).arena == old(self).arena,
            final(self).buckets == old(self).buckets,
            final(self).heap@ == old(self).heap@.update(a as int, old(self).heap@[b as int]).update(
                b as int,
                old(self).heap@[a as int],
            ),
            final(self).heap@.to_multiset() == old(self).heap@.to_multiset(),
            final(self).tried == old(self).tried,
    {
        let ghost h0 = self.heap@;
        let x = self.heap[a];
        let y = self.heap[b];
        self.heap.set(a, y);
        self.heap.set(b, x);
        proof {
            broadcast use vstd::seq_lib::to_multiset_update, vstd::seq_lib::to_multiset_contains;
            broadcast use vstd::multiset::group_multiset_axioms;

            assert(h0.contains(x) && h0.contains(y));

            let h1 = h0.update(a as int, y);
            assert(h1.to_multiset() == h0.to_multiset().insert(y).remove(x));
            assert(h1.update(b as int, x).to_multiset() == h1.to_multiset().insert(x).remove(h1[b as int]));
            if a == b {
                assert(h1[b as int] == y);
            } else {
                assert(h1[b as int] == y);
            }
            assert(h0.to_multiset().insert(y).remove(x).insert(x).remove(y) =~= h0.to_multiset());
        }
    }

    /// The arena and heap `arena`, `heap` hold those before (`arena0`,
    /// `heap0`) and then the first `k` of `moves`, each following `t`
    /// (which reaches `s`) at cost `weight` plus the move's cost.
    spec fn moves_added(
        arena0: Seq<Candidate>,
        heap0: Seq<usize>,
        arena: Seq<Candidate>,
        heap: Seq<usize>,
        weight: int,
        s: Seq<int>,
        t: Seq<Op>,
        moves: Seq<(int, Op)>,
        k: int,
    ) -> bool {
        &&& arena.len() == arena0.len() + k
        &&& arena.subrange(0, arena0.len() as int) == arena0
        &&& forall|j: int|
            0 <= j < k ==> Self::candidate_is(
                #[trigger] arena[arena0.len() + j],
                sat_add(weight, moves[j].0),
                moves[j].1,
                s,
                t.push(moves[j].1),
            )
        &&& heap.to_multiset() == heap0.to_multiset().add(positions(arena0.len() as int, k).to_multiset())
    }

    /// One more move added keeps `moves_added`.
    proof fn lemma_moves_added_step(
        arena0: Seq<Candidate>,
        heap0: Seq<usize>,
        arena: Seq<Candidate>,
        heap: Seq<usize>,
        arena2: Seq<Candidate>,
        heap2: Seq<usize>,
        weight: int,
        s: Seq<int>,
        t: Seq<Op>,
        moves: Seq<(int, Op)>,
        k: int,
    )
        requires
            0 <= k < moves.len(),
            Self::moves_added(arena0, heap0, arena, heap, weight, s, t, moves, k),
            arena2 == arena.push(arena2.last()),
            Self::candidate_is(arena2.last(), sat_add(weight, moves[k].0), moves[k].1, s, t.push(moves[k].1)),
            heap2.to_multiset() == heap.push(arena.len() as usize).to_multiset(),
        ensures
            Self::moves_added(arena0, heap0, arena2, heap2, weight, s, t, moves, k + 1),
    {
        broadcast use vstd::seq_lib::to_multiset_build;
        broadcast use vstd::multiset::group_multiset_axioms;

        let n0 = arena0.len() as int;
        assert(arena2.subrange(0, n0) =~= arena.subrange(0, n0));
        assert forall|j: int| 0 <= j < k + 1 implies Self::candidate_is(
            #[trigger] arena2[n0 + j],
            sat_add(weight, moves[j].0),
            moves[j].1,
            s,
            t.push(moves[j].1),
        ) by {
            if j < k {
                assert(arena2[n0 + j] == arena[n0 + j]);
            }
        }
        assert(positions(n0, k + 1) =~= positions(n0, k).push((n0 + k) as usize));
        let hm = heap0.to_multiset();
        let pm = positions(n0, k).to_multiset();
        assert(hm.add(pm).insert((n0 + k) as usize) =~= hm.add(pm.insert((n0 + k) as usize)));
    }

    /// Adds the sequences that extend `total` (which reaches `stack`) by
    /// one command: pushes of 1, 2, 3 and 5, `pop`, the arithmetic
    /// commands, `dup`, and a `roll` that moves values of the stack.
    #[verifier::spinoff_prover]
    #[verifier::rlimit(80)]
    fn add_neighbors(&mut self, weight: usize, stack: &Vec<Integer>, total: &Vec<CMD>)
        requires
            old(self).wf(),
            runs_cleanly(ops(total@), seq![]),
            run_ops(ops(total@), seq![]) == values(stack@),
            small_pushes(ops(total@)),
            reached(old(self).results@, values(stack@)),
            values(stack@).len() == 0 || values(stack@).last() != 0,
        ensures
            final(self).wf(),
            final(self).results == old(self).results,
            final(self).buckets == old(self).buckets,
            Self::moves_added(
                old(self).arena@,
                old(self).heap@,
                final(self).arena@,
                final(self).heap@,
                weight as int,
                values(stack@),
                ops(total@),
                neighbor_moves(values(stack@)),
                neighbor_moves(values(stack@)).len() as int,
            ),
            final(self).tried == old(self).tried,
    {
        let n = stack.len();
        let ghost sv = values(stack@);
        let ghost tv = ops(total@);
        let ghost mv = neighbor_moves(sv);
        let ghost a0 = self.arena@;
        let ghost h0 = self.heap@;
        proof {
            if n >= 1 {
                assert(sv[n - 1] == sv.last());
            }
            assert(self.arena@.subrange(0, a0.len() as int) =~= a0);
            assert(positions(a0.len() as int, 0) =~= Seq::<usize>::empty());
            assert(h0.to_multiset().add(Seq::<usize>::empty().to_multiset()) =~= h0.to_multiset()) by {
                broadcast use vstd::multiset::group_multiset_axioms;
                broadcast use vstd::seq_lib::to_multiset_len;

                assert(Seq::<usize>::empty().to_multiset().len() == 0);
            }
            assert(Self::moves_added(a0, h0, self.arena@, self.heap@, weight as int, sv, tv, mv, 0));
            assert(mv[0] == (1int, Op::Push(1)) && mv[1] == (2int, Op::Push(2)) && mv[2] == (3int, Op::Push(3))
                && mv[3] == (5int, Op::Push(5)) && mv[4] == (1int, Op::Pop) && mv[5] == (1int, Op::Add) && mv[6] == (
            1int, Op::Sub) && mv[7] == (1int, Op::Mul) && mv[8] == (1int, Op::Div) && mv[9] == (1int, Op::Mod)
                && mv[10] == (1int, Op::Dup));
            assert(mv.len() == 11 || (mv.len() == 12 && mv[11] == (1int, Op::Roll)));
        }
        let ghost ar = self.arena@;
        let ghost hp = self.heap@;
        self.push_candidate(weight.saturating_add(1), CMD::Push(Integer::from_i64(1)), stack, total);
        proof {
            Self::lemma_moves_added_step(a0, h0, ar, hp, self.arena@, self.heap@, weight as int, sv, tv, mv, 0);
        }
        let ghost ar = self.arena@;
        let ghost hp = self.heap@;
        self.push_candidate(weight.saturating_add(2), CMD::Push(Integer::from_i64(2)), stack, total);
        proof {
            Self::lemma_moves_added_step(a0, h0, ar, hp, self.arena@, self.heap@, weight as int, sv, tv, mv, 1);
        }
        let ghost ar = self.arena@;
        let ghost hp = self.heap@;
        self.push_candidate(weight.saturating_add(3), CMD::Push(Integer::from_i64(3)), stack, total);
        proof {
            Self::lemma_moves_added_step(a0, h0, ar, hp, self.arena@, self.heap@, weight as int, sv, tv, mv, 2);
        }
        let ghost ar = self.arena@;
        let ghost hp = self.heap@;
        self.push_candidate(weight.saturating_add(5), CMD::Push(Integer::from_i64(5)), stack, total);
        proof {
            Self::lemma_moves_added_step(a0, h0, ar, hp, self.arena@, self.heap@, weight as int, sv, tv, mv, 3);
        }
        let ghost ar = self.arena@;
        let ghost hp = self.heap@;
        self.push_candidate(weight.saturating_add(1), CMD::Pop, stack, total);
        proof {
            Self::lemma_moves_added_step(a0, h0, ar, hp, self.arena@, self.heap@, weight as int, sv, tv, mv, 4);
        }
        let ghost ar = self.arena@;
        let ghost hp = self.heap@;
        self.push_candidate(weight.saturating_add(1), CMD::Add, stack, total);
        proof {
            Self::lemma_moves_added_step(a0, h0, ar, hp, self.arena@, self.heap@, weight as int, sv, tv, mv, 5);
        }
        let ghost ar = self.arena@;
        let ghost hp = self.heap@;
        self.push_candidate(weight.saturating_add(1), CMD::Sub, stack, total);
        proof {
            Self::lemma_moves_added_step(a0, h0, ar, hp, self.arena@, self.heap@, weight as int, sv, tv, mv, 6);
        }
        let ghost ar = self.arena@;
        let ghost hp = self.heap@;
        self.push_candidate(weight.saturating_add(1), CMD::Mul, stack, total);
        proof {
            Self::lemma_moves_added_step(a0, h0, ar, hp, self.arena@, self.heap@, weight as int, sv, tv, mv, 7);
        }
        let ghost ar = self.arena@;
        let ghost hp = self.heap@;
        self.push_candidate(weight.saturating_add(1), CMD::Div, stack, total);
        proof {
            Self::lemma_moves_added_step(a0, h0, ar, hp, self.arena@, self.heap@, weight as int, sv, tv, mv, 8);
        }
        let ghost ar = self.arena@;
        let ghost hp = self.heap@;
        self.push_candidate(weight.saturating_add(1), CMD::Mod, stack, total);
        proof {
            Self::lemma_moves_added_step(a0, h0, ar, hp, self.arena@, self.heap@, weight as int, sv, tv, mv, 9);
        }
        let ghost ar = self.arena@;
        let ghost hp = self.heap@;
        self.push_candidate(weight.saturating_add(1), CMD::Dup, stack, total);
        proof {
            Self::lemma_moves_added_step(a0, h0, ar, hp, self.arena@, self.heap@, weight as int, sv, tv, mv, 10);
        }
        if n >= 2 {
            let zero = Integer::from_i64(0);
            let depth = Integer::from_usize(n - 2);
            let b = &stack[n - 2];
            assert(sv[n - 2] == b@);
            if !depth.less_than(b) && zero.less_than(b) {
                let ghost ar = self.arena@;
                let ghost hp = self.heap@;
                self.push_candidate(weight.saturating_add(1), CMD::Roll, stack, total);
                proof {
                    Self::lemma_moves_added_step(a0, h0, ar, hp, self.arena@, self.heap@, weight as int, sv, tv, mv, 11);
                }
            }
        }
    }


    /// The position of the result for stack `s`, if reached.
    #[verifier::spinoff_prover]
    #[verifier::rlimit(60)]
    fn find_result(&self, s: &Vec<Integer>) -> (r: Option<usize>)
        requires
            self.wf(),
        ensures
            r matches Some(i) ==> i < self.results@.len() && values(self.results@[i as int].0@) == values(s@),
            r is None ==> !reached(self.results@, values(s@)),
    {
        let k = key_of(s);
        let nres = self.results.len();
        match self.buckets.get(&k) {
            None => {
                proof {
                    if reached(self.results@, values(s@)) {
                        let i = choose|i: int| 0 <= i < self.results@.len() && values(#[trigger] self.results@[i].0@) == values(s@);
                        assert(self.buckets@.contains_key(stack_key(values(self.results@[i].0@))));
                        assert(!self.buckets@.contains_key(k));
                        assert(false);
                    }
                }
                None
            },
            Some(b) => {
                let mut t: usize = 0;
                while t < b.len()
                    invariant
                        self.wf(),
                        self.buckets@.contains_key(k),
                        self.buckets@[k] == *b,
                        k == stack_key(values(s@)),
                        t <= b@.len(),
                        forall|q: int| 0 <= q < t ==> values(self.results@[b@[q] as int].0@) != values(s@),
                    decreases b@.len() - t,
                {
                    let j = b[t];
                    assert(j < self.results@.len());
                    if stacks_equal(&self.results[j].0, s) {
                        return Some(j);
                    }
                    t = t + 1;
                }
                proof {
                    if reached(self.results@, values(s@)) {
                        let i = choose|i: int| 0 <= i < self.results@.len() && values(#[trigger] self.results@[i].0@) == values(s@);
                        assert(i < nres);
                        assert((i as usize) as int == i);
                        assert(b@.contains(i as usize));
                        let q = choose|q: int| 0 <= q < b@.len() && b@[q] == i as usize;
                        assert(values(self.results@[b@[q] as int].0@) != values(s@));
                        assert(false);
                    }
                }
                None
            },
        }
    }

    /// Records that `total` reaches `stack` at cost `weight`.
    fn record(&mut self, stack: Vec<Integer>, weight: usize, total: Vec<CMD>)
        requires
            old(self).wf(),
            runs_cleanly(ops(total@), seq![]),
            run_ops(ops(total@), seq![]) == values(stack@),
            small_pushes(ops(total@)),
            !reached(old(self).results@, values(stack@)),
        ensures
            final(self).wf(),
            final(self).results@ == old(self).results@.push((stack, weight, total)),
            final(self).arena == old(self).arena,
            final(self).heap == old(self).heap,
            final(self).tried == old(self).tried,
    {
        let k = key_of(&stack);
        let n = self.results.len();
        let mut bucket: Vec<usize> = Vec::new();
        match self.buckets.get(&k) {
            Some(b) => {
                let mut t: usize = 0;
                while t < b.len()
                    invariant
                        t <= b@.len(),
                        bucket@ == b@.take(t as int),
                    decreases b@.len() - t,
                {
                    bucket.push(b[t]);
                    t = t + 1;
                    assert(bucket@ =~= b@.take(t as int));
                }
                assert(b@.take(t as int) =~= b@);
            },
            None => {},
        }
        let ghost old_bucket = bucket@;
        bucket.push(n);
        let ghost b0 = self.buckets@;
        let ghost r0 = self.results@;
        self.buckets.insert(k, bucket);
        self.results.push((stack, weight, total));
        proof {
            let r1 = self.results@;
            let b1 = self.buckets@;
            assert(r1[n as int] == (stack, weight, total));
            assert forall|i: int| 0 <= i < r1.len() implies b1.contains_key(stack_key(values(#[trigger] r1[i].0@)))
                && b1[stack_key(values(r1[i].0@))]@.contains(i as usize) by {
                if i < n {
                    assert(r1[i] == r0[i]);
                    let ki = stack_key(values(r0[i].0@));
                    assert(b0[ki]@.contains(i as usize));
                    if ki == k {
                        let q = choose|q: int| 0 <= q < b0[ki]@.len() && b0[ki]@[q] == i as usize;
                        assert(b1[k]@[q] == i as usize);
                    }
                } else {
                    assert(b1[k]@[b1[k]@.len() - 1] == n);
                }
            }
            assert forall|kk: u64, j: int| b1.contains_key(kk) && 0 <= j < b1[kk]@.len() implies #[trigger] b1[kk]@[j]
                < r1.len() by {
                if kk == k && j < old_bucket.len() {
                    assert(b0.contains_key(k));
                    assert(b1[kk]@[j] == b0[k]@[j]);
                }
            }
            assert forall|i: int| 0 <= i < r1.len() implies result_ok(#[trigger] r1[i]) by {
                if i < n {
                    assert(r1[i] == r0[i]);
                }
            }
            assert forall|i: int| 0 <= i < self.arena@.len() implies candidate_ok(#[trigger] self.arena@[i], r1) by {
                let h = self.arena@[i];
                if !(h.instr@ is Push) {
                    assert(reached(r0, values(h.stack@)));
                    let q = choose|q: int| 0 <= q < r0.len() && values(#[trigger] r0[q].0@) == values(h.stack@);
                    assert(r1[q] == r0[q]);
                }
            }
        }
    }

    /// Takes out the waiting sequence that comes first, and gives its
    /// position in the arena.
    fn pop_candidate(&mut self) -> (c: usize)
        requires
            old(self).wf(),
            old(self).heap@.len() > 0,
        ensures
            final(self).wf(),
            final(self).results == old(self).results,
            final(self).arena == old(self).arena,
            c < final(self).arena@.len(),
            final(self).tried@ == old(self).tried@ + 1,
            final(self).heap@.len() + 1 == old(self).heap@.len(),
    {
        proof {
            self.tried@ = self.tried@ + 1;
        }
        let top = self.heap[0];
        let last = self.heap.pop().unwrap();
        let n = self.heap.len();
        if n > 0 {
            self.heap.set(0, last);
            let mut i: usize = 0;
            while i < n / 2
                invariant
                    self.wf(),
                    self.results == old(self).results,
                    self.arena == old(self).arena,
                    self.tried@ == old(self).tried@ + 1,
                    n == self.heap@.len(),
                    n + 1 == old(self).heap@.len(),
                    i < n,
                decreases n - i,
            {
                let l = 2 * i + 1;
                let r = 2 * i + 2;
                let mut smallest = i;
                if candidate_less(&self.arena[self.heap[l]], &self.arena[self.heap[smallest]]) {
                    smallest = l;
                }
                if r < n && candidate_less(&self.arena[self.heap[r]], &self.arena[self.heap[smallest]]) {
                    smallest = r;
                }
                if smallest == i {
                    break;
                }
                self.heap_swap(i, smallest);
                i = smallest;
            }
        }
        top
    }

    /// A cheapest sequence that turns the empty stack into `search_stack`,
    /// searching at most `fuel` sequences; when the search gives up first,
    /// the sequence `stack_ops` builds directly.
    pub fn optimize_stack(&mut self, search_stack: &Vec<Integer>, fuel: usize) -> (r: Option<Vec<CMD>>)
        requires
            old(self).wf(),
        ensures
            final(self).wf(),
            r matches Some(cs) ==> runs_cleanly(ops(cs@), seq![]) && run_ops(ops(cs@), seq![]) == values(
                search_stack@,
            ) && small_pushes(ops(cs@)),
            old(self).found(values(search_stack@)) ==> (r matches Some(cs) && old(self).recorded(
                values(search_stack@),
                ops(cs@),
            )),
            r matches Some(cs) ==> final(self).recorded(values(search_stack@), ops(cs@)) || ops(cs@) == stack_ops(
                values(search_stack@),
            ),
            r is Some,
            fuel == 0 && !old(self).found(values(search_stack@)) ==> (r matches Some(cs) && ops(cs@) == stack_ops(
                values(search_stack@),
            )),
            forall|s: Seq<int>| #[trigger] old(self).found(s) ==> final(self).found(s),
            forall|s: Seq<int>, os: Seq<Op>| #[trigger] old(self).recorded(s, os) ==> final(self).recorded(s, os),
            forall|s: Seq<int>, os: Seq<Op>|
                old(self).found(s) && #[trigger] final(self).recorded(s, os) ==> old(self).recorded(s, os),
            r matches Some(cs) && searched(*old(self), *final(self), values(search_stack@), fuel as nat, ops(cs@)),
            old(self).tried() <= final(self).tried(),
    {
        let mut steps = fuel;
        loop
            invariant
                self.wf(),
                steps <= fuel,
                self.tried() == old(self).tried() + (fuel - steps),
                steps == fuel ==> self.results@ == old(self).results@,
                steps < fuel ==> !old(self).found(values(search_stack@)),
                old(self).results@.len() <= self.results@.len(),
                forall|i: int| 0 <= i < old(self).results@.len() ==> #[trigger] self.results@[i] == old(self).results@[i],
                forall|s: Seq<int>| #[trigger] old(self).found(s) ==> self.found(s),
            decreases steps,
        {
            proof {
                lemma_results_grow(old(self).results@, self.results@);
            }
            match self.find_result(search_stack) {
                Some(i) => {
                    assert(result_ok(self.results@[i as int]));
                    let cs = copy_cmds(&self.results[i].2);
                    assert(values(self.results@[i as int].0@) == values(search_stack@));
                    proof {
                        if steps == fuel {
                            assert(old(self).results@[i as int] == self.results@[i as int]);
                            assert(old(self).recorded(values(search_stack@), ops(cs@)));
                        }
                        assert(self.found(values(search_stack@)));
                        assert(self.recorded(values(search_stack@), ops(cs@)));
                    }
                    return Some(cs);
                },
                None => {},
            }
            if steps == 0 || self.heap.len() == 0 {
                let cs = plain_stack(search_stack);
                proof {
                    lemma_stack_ops(values(search_stack@));
                }
                return Some(cs);
            }
            steps = steps - 1;
            let ci = self.pop_candidate();
            let weight = self.arena[ci].weight;
            let instr = self.arena[ci].instr.copy();
            let mut stack = copy_stack(&self.arena[ci].stack);
            let total = copy_cmds(&self.arena[ci].total);
            let ghost before = values(stack@);
            let ghost iv = instr@;
            proof {
                let c = self.arena@[ci as int];
                assert(candidate_ok(c, self.results@));
                assert(ops(c.total@).drop_last() =~= ops(c.total@.drop_last()));
                assert(ops(c.total@).last() == c.instr@);
            }
            evaluate(instr, &mut stack);
            let n = stack.len();
            if n > 0 && stack[n - 1].equals(&Integer::from_i64(0)) {
                continue;
            }
            if self.find_result(&stack).is_none() {
                proof {
                    let os = ops(total@);
                    if needed(iv) > before.len() {
                        assert(values(stack@) == before);
                        assert(reached(self.results@, before));
                        assert(false);
                    }
                    assert(runs_cleanly(os, seq![]));
                    assert(run_ops(os, seq![]) == values(stack@));
                }
                let ghost r0 = self.results@;
                self.record(copy_stack(&stack), weight, copy_cmds(&total));
                proof {
                    assert forall|s: Seq<int>| #[trigger] old(self).found(s) implies self.found(s) by {
                        assert(reached(r0, s));
                        let q = choose|q: int| 0 <= q < r0.len() && values(#[trigger] r0[q].0@) == s;
                        assert(self.results@[q] == r0[q]);
                    }
                }
                proof {
                    let last = self.results@.len() - 1;
                    assert(values(self.results@[last].0@) == values(stack@));
                    assert(reached(self.results@, values(stack@)));
                }
                self.add_neighbors(weight, &stack, &total);
            }
        }
    }

    /// A sequence that turns the empty stack into one holding `n`: with
    /// `k` the least exponent for which `r = int_root(n, k)` is at most 173,
    /// `r` is pushed by a searched sequence, raised to the `k`-th power by
    /// `k - 1` `dup`s and `k - 1` `mul`s, and the rest `n - r^k`, if any, is
    /// pushed the same way and added. A search that gives up falls back on
    /// `stack_ops`, so a sequence always comes back.
    #[verifier::spinoff_prover]
    #[verifier::rlimit(100)]
    pub fn optimize_number(&mut self, n: usize, fuel: usize) -> (r: Option<Vec<CMD>>)
        requires
            old(self).wf(),
        ensures
            final(self).wf(),
            r matches Some(cs) ==> runs_cleanly(ops(cs@), seq![]) && run_ops(ops(cs@), seq![]) == seq![n as int]
                && small_pushes(ops(cs@)),
            r is Some,
            n <= 173 && old(self).found(seq![n as int]) ==> (r matches Some(cs) && old(self).recorded(
                seq![n as int],
                ops(cs@),
            )),
            forall|s: Seq<int>| #[trigger] old(self).found(s) ==> final(self).found(s),
            forall|s: Seq<int>, os: Seq<Op>| #[trigger] old(self).recorded(s, os) ==> final(self).recorded(s, os),
            forall|s: Seq<int>, os: Seq<Op>|
                old(self).found(s) && #[trigger] final(self).recorded(s, os) ==> old(self).recorded(s, os),
            r matches Some(cs) && number_code(*old(self), *final(self), n as nat, fuel as nat, ops(cs@)),
            old(self).tried() <= final(self).tried(),
        decreases n,
    {
        let (root, r) = choose_root(n);
        let mut target: Vec<Integer> = Vec::new();
        target.push(Integer::from_usize(r));
        assert(values(target@) =~= seq![r as int]);
        let ghost o0 = *self;
        let mut instrs = match self.optimize_stack(&target, fuel) {
            Some(v) => v,
            None => {
                return None;
            },
        };
        let ghost o1 = *self;
        let ghost first = ops(instrs@);
        append_raise(&mut instrs, r, root);
        proof {
            if root == 1 {
                assert(raise_ops(1) =~= Seq::<Op>::empty());
                assert(first + raise_ops(1) =~= first);
            }
        }
        let p = match checked_power(r, root) {
            Some(p) => p,
            None => {
                proof {
                    if n > 0 && root > 1 {
                    } else if n == 0 {
                        lemma_power_zero(root as nat);
                    } else {
                        assert(power(r as int, 1) == r * power(r as int, 0));
                    }
                }
                return None;
            },
        };
        proof {
            if !(n > 0 && root > 1) {
                if n == 0 {
                    lemma_power_zero(root as nat);
                } else {
                    assert(power(r as int, 1) == r * power(r as int, 0));
                }
            }
        }
        proof {
            if n <= 173 {
                assert(power(r as int, 1) == r * power(r as int, 0));
                assert(p == n);
            }
        }
        if n - p > 0 {
            proof {
                if root > 1 {
                    if r == 0 {
                        lemma_power_one(root as nat);
                    }
                    lemma_power_at_least_base(r as int, root as nat);
                }
            }
            let mut rest = match self.optimize_number(n - p, fuel) {
                Some(v) => v,
                None => {
                    return None;
                },
            };
            let ghost a = ops(instrs@);
            let ghost b = ops(rest@);
            instrs.append(&mut rest);
            proof {
                assert(ops(instrs@) =~= a + b);
                lemma_small_pushes_concat(a, b);
                lemma_run_concat(a, b, seq![]);
                lemma_run_frame(b, seq![p as int], seq![]);
                assert(seq![p as int] + Seq::<int>::empty() =~= seq![p as int]);
                assert(seq![p as int] + seq![(n - p) as int] =~= seq![p as int, (n - p) as int]);
            }
            let ghost c = ops(instrs@);
            instrs.push(CMD::Add);
            proof {
                assert(ops(instrs@) =~= c + seq![Op::Add]);
                lemma_small_pushes_concat(c, seq![Op::Add]);
                assert(ops(instrs@).drop_last() =~= c);
                assert(ops(instrs@).last() == Op::Add);
                assert(step(Op::Add, seq![p as int, (n - p) as int]) =~= seq![n as int]);
                assert(1 <= p < n);
                assert(ops(instrs@) == first + raise_ops(root as nat) + b + seq![Op::Add]);
                assert(searched(o0, o1, seq![r as int], fuel as nat, first));
                assert(number_code(o1, *self, (n - p) as nat, fuel as nat, b));
                lemma_number_code_split(o0, o1, *self, n as nat, fuel as nat, root as nat, r as nat, first, b, ops(instrs@));
            }
        } else {
            proof {
                lemma_number_code_whole(o0, *self, n as nat, fuel as nat, root as nat, r as nat, first, ops(instrs@));
            }
        }
        Some(instrs)
    }
}

/// Searched code for `r` raised to the `k`-th power, then the code for the
/// rest and `add`, is the code for `n` when `n` is more than `r^k`.
proof fn lemma_number_code_split(
    a: StackOptimizer,
    m: StackOptimizer,
    b: StackOptimizer,
    n: nat,
    fuel: nat,
    k: nat,
    r: nat,
    c1: Seq<Op>,
    c2: Seq<Op>,
    os: Seq<Op>,
)
    requires
        k == root_exponent(n, 1),
        r == root_of(n, k),
        1 <= power(r as int, k) < n,
        a.tried() <= m.tried() <= b.tried(),
        searched(a, m, seq![r as int], fuel, c1),
        number_code(m, b, (n - power(r as int, k)) as nat, fuel, c2),
        os == c1 + raise_ops(k) + c2 + seq![Op::Add],
    ensures
        number_code(a, b, n, fuel, os),
{
}

/// Searched code for `r` raised to the `k`-th power is the code for `n`
/// when `n` is `r^k`.
proof fn lemma_number_code_whole(a: StackOptimizer, b: StackOptimizer, n: nat, fuel: nat, k: nat, r: nat, c1: Seq<Op>, os: Seq<Op>)
    requires
        k == root_exponent(n, 1),
        r == root_of(n, k),
        power(r as int, k) == n,
        searched(a, b, seq![r as int], fuel, c1),
        os == c1 + raise_ops(k),
    ensures
        number_code(a, b, n, fuel, os),
{
}

} // verus!
