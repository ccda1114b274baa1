//! Running advanced programs.

use super::{
    addr_ok, advc_block, advc_label, advc_run, advc_stmt, capacity, grow_capacity, list_cells,
    read_lines_into, readlines_effect, append_effect, in_effect, search_list, follow_path, path_view,
    debug_dump, slot_order, slot_pairs, variable_items, VarView, with_value, AdvcExecutor, AdvcMachine, Expr,
    uses_declared, lemma_label_names, lemma_declared_names,
};
use crate::integer::Integer;
use crate::io::ByteInput;
use crate::label_map::{
    entries_map, has_name, lemma_entries_map_lookup, lemma_entries_map_names, lemma_sort_keeps_names,
    lookup, pairs_view, sorted_by_number, text_eq, LabelMap,
};
use crate::mid_smpl::mid_smpl_to_stk::debug_text;
use crate::piet_interpreter::append_chars;
use crate::text::{push_decimal_list, push_str};
use crate::mid_smpl::{var_views, variable_view, Variable};
use crate::piet_interpreter::values;
use crate::piet_stack::{term_label, RunOutcome};
use vstd::prelude::*;

verus! {

/// The machine made of the parts of an executor.
pub open spec fn machine_of(
    label: Seq<char>,
    variables: Seq<(Seq<char>, Variable)>,
    stack: Seq<Integer>,
    heap: Seq<Integer>,
    input: Seq<u8>,
    output: Seq<char>,
    log: Seq<char>,
) -> AdvcMachine {
    AdvcMachine {
        label,
        variables: var_views(variables),
        stack: values(stack),
        heap: values(heap),
        input,
        output,
        log,
    }
}

/// The heap address `v` stands for, when it is one of the first `len`.
fn address(v: &Integer, len: usize) -> (r: Option<usize>)
    ensures
        r is Some <==> addr_ok(v@, len as nat),
        r matches Some(u) ==> u as int == v@,
{
    match v.to_usize() {
        Some(u) => if u < len {
            Some(u)
        } else {
            None
        },
        None => None,
    }
}

/// The value of the variable named `k`.
fn var_value(variables: &LabelMap<Variable>, k: &str) -> (r: Option<Integer>)
    requires
        variables.wf(),
    ensures
        match lookup(var_views(variables.entries()), k@) {
            None => r is None,
            Some(x) => r matches Some(v) && v@ == x.value,
        },
{
    proof {
        lemma_entries_map_lookup(variables.entries(), k@, variable_view());
    }
    match variables.position(k) {
        None => None,
        Some(i) => {
            proof {
                let es = variables.entries();
                let j = choose|j: int| 0 <= j < es.len() && #[trigger] es[j].0 == k@;
                assert(j == i);
            }
            Some(variables.value_at(i).value.copy())
        },
    }
}

/// Sets the value of the variable named `k`; `false` when there is none.
fn set_var_value(variables: &mut LabelMap<Variable>, k: &str, v: Integer) -> (r: bool)
    requires
        old(variables).wf(),
    ensures
        final(variables).wf(),
        r == has_name(var_views(old(variables).entries()), k@),
        r ==> var_views(final(variables).entries()) == with_value(
            var_views(old(variables).entries()),
            k@,
            v@,
        ),
        !r ==> final(variables).entries() == old(variables).entries(),
{
    let ghost es = variables.entries();
    proof {
        lemma_entries_map_names(es, variable_view());
    }
    match variables.position(k) {
        None => false,
        Some(i) => {
            let old_var = variables.value_at(i);
            let nv = Variable { var_type: old_var.var_type, value: v, var_index: old_var.var_index };
            let ghost gv = nv;
            variables.set_value_at(i, nv);
            proof {
                let vs = var_views(es);
                let j = choose|j: int| 0 <= j < vs.len() && #[trigger] vs[j].0 == k@;
                assert(j == i);
                assert(var_views(variables.entries()) =~= with_value(vs, k@, v@));
            }
            true
        },
    }
}

/// Doubling from `p` never goes below `p`.
proof fn lemma_grow_at_least(p: nat, n: nat)
    requires
        p >= 1,
    ensures
        grow_capacity(p, n) >= p,
    decreases (if p < n { n - p } else { 0int }),
{
    if p < n {
        lemma_grow_at_least(2 * p, n);
    }
}

/// Appends a fresh list holding `xs` to the heap; `false` when its
/// capacity does not fit in a `usize`.
fn add_list(heap: &mut Vec<Integer>, xs: &Vec<Integer>) -> (r: bool)
    ensures
        r == (capacity(xs@.len()) <= usize::MAX),
        r ==> values(final(heap)@) == values(old(heap)@) + list_cells(values(xs@)),
{
    let n = xs.len();
    let mut p: usize = 1;
    while p < n
        invariant
            1 <= p,
            n == xs@.len(),
            grow_capacity(p as nat, n as nat) == capacity(n as nat),
        decreases (if p < n { n - p } else { 0 }),
    {
        match p.checked_mul(2) {
            None => {
                proof {
                    lemma_grow_at_least((2 * p) as nat, n as nat);
                }
                return false;
            },
            Some(q) => {
                p = q;
            },
        }
    }
    assert(grow_capacity(p as nat, n as nat) == p);
    let ghost h0 = values(heap@);
    let ghost xv = values(xs@);
    heap.push(Integer::from_usize(p));
    heap.push(Integer::from_usize(n));
    assert(values(heap@) =~= h0 + seq![p as int, n as int] + xv.take(0));
    let mut i: usize = 0;
    while i < n
        invariant
            i <= n,
            n == xs@.len(),
            xv == values(xs@),
            values(heap@) == h0 + seq![p as int, n as int] + xv.take(i as int),
        decreases n - i,
    {
        let ghost hb = values(heap@);
        heap.push(xs[i].copy());
        assert(values(heap@) =~= hb.push(xv[i as int]));
        assert(xv.take(i + 1) =~= xv.take(i as int).push(xv[i as int]));
        i = i + 1;
    }
    let mut k: usize = 0;
    assert(xv.take(n as int) =~= xv);
    assert(Seq::new(0, |j: int| 0int) =~= Seq::<int>::empty());
    while k < p - n
        invariant
            n <= p,
            k <= p - n,
            values(heap@) == h0 + seq![p as int, n as int] + xv + Seq::new(k as nat, |j: int| 0int),
        decreases p - n - k,
    {
        let ghost hb = values(heap@);
        heap.push(Integer::from_i64(0));
        assert(values(heap@) =~= hb.push(0));
        assert(Seq::new((k + 1) as nat, |j: int| 0int) =~= Seq::new(k as nat, |j: int| 0int).push(0));
        k = k + 1;
    }
    assert(xv.take(n as int) =~= xv);
    assert(values(heap@) =~= h0 + list_cells(xv));
    true
}

/// Runs `Readlines`: reads the rest of the input.
fn exec_readlines(stack: &mut Vec<Integer>, heap: &mut Vec<Integer>, input: &mut ByteInput) -> (r: bool)
    ensures
        match readlines_effect(values(old(stack)@), values(old(heap)@), old(input)@) {
            None => !r,
            Some((s2, h2)) => r && values(final(stack)@) == s2 && values(final(heap)@) == h2
                && final(input)@.len() == 0,
        },
{
    let ghost h0 = values(heap@);
    let ghost i0 = input@;
    let ghost s0 = values(stack@);
    let mut starts: Vec<Integer> = Vec::new();
    let mut line: Vec<Integer> = Vec::new();
    assert(values(starts@) =~= Seq::<int>::empty());
    assert(values(line@) =~= Seq::<int>::empty());
    loop
        invariant
            read_lines_into(h0, seq![], seq![], i0) == read_lines_into(
                values(heap@),
                values(starts@),
                values(line@),
                input@,
            ),
            values(stack@) == s0,
            s0 == values(old(stack)@),
            h0 == values(old(heap)@),
            i0 == old(input)@,
        ensures
            input@.len() == 0,
            read_lines_into(h0, seq![], seq![], i0) == read_lines_into(
                values(heap@),
                values(starts@),
                values(line@),
                input@,
            ),
            values(stack@) == s0,
        decreases input@.len(),
    {
        let ghost before = input@;
        match input.next() {
            None => {
                break;
            },
            Some(c) => {
                if c == 10 {
                    let st = Integer::from_usize(heap.len());
                    let ghost hb = values(heap@);
                    proof {
                        assert(before[0] == 10);
                        assert(input@ == before.drop_first());
                    }
                    if !add_list(heap, &line) {
                        assert(read_lines_into(hb, values(starts@), values(line@), before) is None);
                        assert(read_lines_into(h0, seq![], seq![], i0) is None);
                        assert(readlines_effect(s0, h0, i0) is None);
                        return false;
                    }
                    let ghost sb = values(starts@);
                    starts.push(st);
                    assert(values(starts@) =~= sb.push(hb.len() as int));
                    line = Vec::new();
                    assert(values(line@) =~= Seq::<int>::empty());
                } else {
                    let ghost lb = values(line@);
                    line.push(Integer::from_i64(c as i64));
                    assert(values(line@) =~= lb.push(c as int));
                }
            },
        }
    }
    assert(input@.len() == 0);
    assert(read_lines_into(h0, seq![], seq![], i0) == Some((values(heap@), values(starts@))));
    let hl = heap.len();
    let ghost sb = values(stack@);
    stack.push(Integer::from_usize(hl));
    assert(values(stack@) =~= sb.push(hl as int));
    if !add_list(heap, &starts) {
        return false;
    }
    true
}

/// Runs `Append`.
#[verifier::rlimit(30)]
fn exec_append(stack: &mut Vec<Integer>, heap: &mut Vec<Integer>) -> (r: bool)
    ensures
        match append_effect(values(old(stack)@), values(old(heap)@)) {
            None => !r,
            Some((s2, h2)) => r && values(final(stack)@) == s2 && values(final(heap)@) == h2,
        },
{
    let ghost s0 = values(stack@);
    let ghost hz = values(heap@);
    let ai = match stack.pop() {
        None => {
            return false;
        },
        Some(x) => x,
    };
    assert(values(stack@) =~= s0.drop_last());
    let mut a: usize;
    if ai.equals(&Integer::from_i64(-1)) {
        a = heap.len();
        heap.push(Integer::from_i64(1));
        heap.push(Integer::from_i64(0));
        heap.push(Integer::from_i64(0));
        assert(values(heap@) =~= hz + seq![1int, 0int, 0int]);
    } else {
        match ai.to_usize() {
            None => {
                return false;
            },
            Some(u) => {
                a = u;
            },
        }
    }
    let ghost h1 = values(heap@);
    if heap.len() == 0 || a >= heap.len() - 1 {
        return false;
    }
    if heap[a].equals(&heap[a + 1]) {
        let cap = match heap[a].to_usize() {
            None => {
                return false;
            },
            Some(c) => c,
        };
        if cap > heap.len() - a {
            return false;
        }
        let na = heap.len();
        let doubled = heap[a].mul(&Integer::from_i64(2));
        let len_cell = heap[a + 1].copy();
        heap.push(doubled);
        heap.push(len_cell);
        let ghost h2 = values(heap@);
        assert(h2 =~= h1 + seq![h1[a as int] * 2, h1[a + 1]]);
        let total = heap.len();
        let base = a + 2;
        let mut k: usize = 0;
        assert(h2.subrange(a + 2, a + 2) =~= Seq::<int>::empty());
        assert(values(heap@) =~= h2 + h2.subrange(a + 2, a + 2));
        while k < cap
            invariant
                k <= cap,
                a + 2 + cap <= h2.len(),
                base == a + 2,
                h2.len() == total,
                heap@.len() == h2.len() + k,
                values(heap@) == h2 + h2.subrange(a + 2, a + 2 + k),
            decreases cap - k,
        {
            let x = heap[base + k].copy();
            let ghost hb = values(heap@);
            heap.push(x);
            assert(values(heap@) =~= hb.push(hb[a + 2 + k]));
            assert(values(heap@) =~= h2 + h2.subrange(a + 2, a + 2 + k + 1));
            k = k + 1;
        }
        let ghost h2b = values(heap@);
        let mut j: usize = 0;
        assert(values(heap@) =~= h2b + Seq::new(0 as nat, |i: int| 0int));
        while j < cap
            invariant
                j <= cap,
                values(heap@) == h2b + Seq::new(j as nat, |i: int| 0int),
            decreases cap - j,
        {
            let ghost hb = values(heap@);
            heap.push(Integer::from_i64(0));
            assert(values(heap@) =~= hb.push(0));
            assert(values(heap@) =~= h2b + Seq::new((j + 1) as nat, |i: int| 0int));
            j = j + 1;
        }
        a = na;
    }
    let ghost h3 = values(heap@);
    let len = match heap[a + 1].to_usize() {
        None => {
            return false;
        },
        Some(l) => l,
    };
    if len >= heap.len() - (a + 2) {
        return false;
    }
    let index = a + 2 + len;
    let v = match stack.pop() {
        None => {
            return false;
        },
        Some(v) => v,
    };
    heap.set(index, v);
    let ghost h4 = values(heap@);
    assert(h4 =~= h3.update(index as int, s0.drop_last().last()));
    let inc = heap[a + 1].add(&Integer::from_i64(1));
    heap.set(a + 1, inc);
    assert(values(heap@) =~= h4.update(a + 1, h4[a + 1] + 1));
    let ghost sb = values(stack@);
    stack.push(Integer::from_usize(a));
    assert(values(stack@) =~= sb.push(a as int));
    true
}

/// Runs `In`.
fn exec_in(stack: &mut Vec<Integer>, heap: &Vec<Integer>) -> (r: bool)
    ensures
        match in_effect(values(old(stack)@), values(heap@)) {
            None => !r,
            Some(s2) => r && values(final(stack)@) == s2,
        },
{
    let ghost s0 = values(stack@);
    let ghost h = values(heap@);
    let k = stack.len();
    if k < 3 {
        return false;
    }
    let z = match stack[k - 1].to_isize() {
        None => {
            return false;
        },
        Some(z) => z,
    };
    let l1 = stack[k - 2].add(&Integer::from_i64(1));
    let li = match address(&l1, heap.len()) {
        None => {
            return false;
        },
        Some(li) => li,
    };
    let e = match heap[li].to_isize() {
        None => {
            return false;
        },
        Some(e) => e,
    };
    let ghost l = s0[k - 2];
    let ghost a = s0[k - 3];
    let base = stack[k - 2].add(&Integer::from_i64(2));
    let mut index = Integer::from_i64(-1);
    let mut i: isize = z;
    while i < e
        invariant_except_break
            z <= i,
            i <= e || i == z,
            index@ == -1,
            search_list(h, l, a, z as int, e as int) == search_list(h, l, a, i as int, e as int),
        invariant
            k >= 3,
            s0 == values(old(stack)@),
            z as int == s0[k - 1],
            l == s0[k - 2],
            addr_ok(l + 1, h.len()),
            e as int == h[l + 1],
            base@ == l + 2,
            a == values(stack@)[k - 3],
            values(stack@) == s0,
            stack@.len() == k,
            h == values(heap@),
        ensures
            search_list(h, l, a, z as int, e as int) == Some(index@),
        decreases e - i,
    {
        let cell = base.add(&Integer::from_i64(i as i64));
        let ci = match address(&cell, heap.len()) {
            None => {
                return false;
            },
            Some(ci) => ci,
        };
        if heap[ci].equals(&stack[k - 3]) {
            index = Integer::from_i64(i as i64);
            break;
        }
        i = i + 1;
    }
    stack.pop();
    stack.pop();
    stack.pop();
    stack.push(index);
    assert(values(stack@) =~= s0.subrange(0, k - 3).push(index@));
    true
}

/// Runs `Index`: follows the steps from the named list.
fn exec_index(
    name: &String,
    path: &Vec<(String, Integer)>,
    variables: &LabelMap<Variable>,
    stack: &mut Vec<Integer>,
    heap: &Vec<Integer>,
) -> (r: bool)
    requires
        variables.wf(),
    ensures
        match lookup(var_views(variables.entries()), name@) {
            None => !r,
            Some(x) => match follow_path(var_views(variables.entries()), values(heap@), x.value, path_view(path@)) {
                None => !r,
                Some(v) => r && values(final(stack)@) == values(old(stack)@).push(v),
            },
        },
{
    let ghost vars = var_views(variables.entries());
    let ghost h = values(heap@);
    let ghost p = path_view(path@);
    let mut curr = match var_value(variables, name.as_str()) {
        None => {
            return false;
        },
        Some(v) => v,
    };
    let ghost start = curr@;
    let mut j: usize = 0;
    assert(p.skip(0) =~= p);
    while j < path.len()
        invariant
            j <= path@.len(),
            p == path_view(path@),
            vars == var_views(variables.entries()),
            variables.wf(),
            h == values(heap@),
            lookup(vars, name@) matches Some(x) && x.value == start,
            follow_path(vars, h, start, p) == follow_path(vars, h, curr@, p.skip(j as int)),
        decreases path@.len() - j,
    {
        proof {
            assert(p.skip(j as int).drop_first() =~= p.skip(j + 1));
            assert(p.skip(j as int)[0] == p[j as int]);
        }
        let (nm, off) = &path[j];
        let v = match var_value(variables, nm.as_str()) {
            None => {
                return false;
            },
            Some(v) => v,
        };
        let cell = curr.add(&Integer::from_i64(2)).add(&v).add(off);
        let ci = match address(&cell, heap.len()) {
            None => {
                return false;
            },
            Some(ci) => ci,
        };
        curr = heap[ci].copy();
        j = j + 1;
    }
    assert(p.skip(path@.len() as int) =~= Seq::<(Seq<char>, int)>::empty());
    let ghost sb = values(stack@);
    stack.push(curr);
    assert(values(stack@) =~= sb.push(values(stack@).last()));
    true
}

/// Writes what a `Debug` statement shows: the heap, the variables in slot
/// order with their values, and the stack.
fn write_debug(variables: &LabelMap<Variable>, stack: &Vec<Integer>, heap: &Vec<Integer>, log: &mut Vec<char>)
    requires
        variables.wf(),
    ensures
        final(log)@ == old(log)@ + debug_dump(var_views(variables.entries()), values(stack@), values(heap@)),
{
    let ghost vars = var_views(variables.entries());
    let ghost slots = slot_pairs(vars);
    proof {
        lemma_entries_map_names(variables.entries(), variable_view());
    }
    let ghost l0 = log@;
    log.push('\n');
    push_str(log, "Heap: ");
    push_decimal_list(log, heap);
    push_str(log, "\n");
    push_str(log, "Variables: [");
    let mut pairs: Vec<(String, usize)> = Vec::new();
    let mut i: usize = 0;
    while i < variables.len()
        invariant
            i <= vars.len(),
            vars == var_views(variables.entries()),
            slots == slot_pairs(vars),
            vars.len() == variables.entries().len(),
            forall|k: int| 0 <= k < vars.len() ==> #[trigger] vars[k] == (variables.entries()[k].0, variables.entries()[k].1@),
            pairs_view(pairs@) == slots.take(i as int),
        decreases vars.len() - i,
    {
        let ghost pb = pairs@;
        let nm = variables.name_at(i).clone();
        let idx = variables.value_at(i).var_index;
        pairs.push((nm, idx));
        assert(vars[i as int] == (variables.entries()[i as int].0, variables.entries()[i as int].1@));
        assert(slots[i as int] == (nm@, idx));
        assert(pairs@ == pb.push((nm, idx)));
        assert(pairs_view(pairs@) =~= pairs_view(pb).push((nm@, idx)));
        assert(pairs_view(pairs@) =~= slots.take(i + 1));
        i = i + 1;
    }
    assert(slots.take(vars.len() as int) =~= slots);
    let order = sorted_by_number(pairs);
    let ghost ov = pairs_view(order@);
    proof {
        lemma_sort_keeps_names(slots);
        assert forall|k: int| 0 <= k < ov.len() implies has_name(vars, #[trigger] ov[k].0) by {
            let i = choose|i: int| 0 <= i < slots.len() && #[trigger] slots[i].0 == ov[k].0;
            assert(vars[i].0 == ov[k].0);
        }
    }
    let ghost mid = log@;
    let mut j: usize = 0;
    assert(ov.take(0) =~= Seq::<(Seq<char>, usize)>::empty());
    while j < order.len()
        invariant
            j <= ov.len(),
            ov == pairs_view(order@),
            ov == slot_order(vars),
            vars == var_views(variables.entries()),
            variables.wf(),
            forall|k: int| 0 <= k < ov.len() ==> has_name(vars, #[trigger] ov[k].0),
            log@ == mid + variable_items(vars, ov.take(j as int)),
        decreases ov.len() - j,
    {
        if j > 0 {
            push_str(log, ", ");
        }
        let name = &order[j].0;
        assert(name@ == ov[j as int].0);
        let value = match var_value(variables, name.as_str()) {
            Some(v) => v,
            None => {
                assert(false);
                Integer::from_i64(0)
            },
        };
        log.push('(');
        let quoted = debug_text(name.as_str());
        push_str(log, quoted.as_str());
        push_str(log, ", ");
        let digits = value.to_decimal_chars();
        append_chars(log, &digits);
        log.push(')');
        proof {
            reveal_strlit(", ");
            let t = ov.take(j + 1);
            assert(t.drop_last() =~= ov.take(j as int));
            if j == 0 {
                assert(ov.take(0) =~= Seq::<(Seq<char>, usize)>::empty());
            }
            assert(log@ =~= mid + variable_items(vars, t));
        }
        j = j + 1;
    }
    assert(ov.take(ov.len() as int) =~= ov);
    push_str(log, "]\n");
    push_str(log, "Stack: ");
    push_decimal_list(log, stack);
    push_str(log, "\n");
    log.push('\n');
    proof {
        reveal_strlit("Heap: ");
        reveal_strlit("\n");
        reveal_strlit("Variables: [");
        reveal_strlit("]\n");
        reveal_strlit("Stack: ");
        reveal_strlit("Heap: [");
        reveal_strlit("Stack: [");
        assert(log@ =~= l0 + debug_dump(vars, values(stack@), values(heap@)));
    }
}

/// Runs one statement on the parts of an executor: `None` when it aborts
/// the program, otherwise whether control leaves the block.
fn exec_stmt(
    e: &Expr,
    variables: &mut LabelMap<Variable>,
    stack: &mut Vec<Integer>,
    heap: &mut Vec<Integer>,
    label: &mut String,
    input: &mut ByteInput,
    output: &mut Vec<char>,
    log: &mut Vec<char>,
) -> (r: Option<bool>)
    requires
        old(variables).wf(),
    ensures
        final(variables).wf(),
        match advc_stmt(
            *e,
            machine_of(
                old(label)@,
                old(variables).entries(),
                old(stack)@,
                old(heap)@,
                old(input)@,
                old(output)@,
                old(log)@,
            ),
        ) {
            None => r is None,
            Some((m, jumped)) => r == Some(jumped) && machine_of(
                final(label)@,
                final(variables).entries(),
                final(stack)@,
                final(heap)@,
                final(input)@,
                final(output)@,
                final(log)@,
            ) == m,
        },
{
    let ghost m = machine_of(label@, variables.entries(), stack@, heap@, input@, output@, log@);
    let ghost s = values(stack@);
    let ghost n = s.len();
    let zero = Integer::from_i64(0);
    match e {
        Expr::Instr(c) => {
            if c.crashes(stack, input) {
                return None;
            }
            c.copy().interpret(stack, input, output);
            Some(false)
        },
        Expr::Goto(l) => {
            *label = l.copy().get_label_name();
            Some(true)
        },
        Expr::For(_, _, l) => {
            *label = l.copy().get_label_name();
            Some(true)
        },
        Expr::Branch(t, f) => {
            match stack.pop() {
                None => None,
                Some(a) => {
                    if a.equals(&zero) {
                        *label = f.copy().get_label_name();
                    } else {
                        *label = t.copy().get_label_name();
                    }
                    assert(values(stack@) =~= s.drop_last());
                    Some(true)
                },
            }
        },
        Expr::If(t, f) => {
            match stack.pop() {
                None => None,
                Some(a) => {
                    if !a.equals(&zero) {
                        *label = t.copy().get_label_name();
                    } else {
                        *label = f.copy().get_label_name();
                    }
                    assert(values(stack@) =~= s.drop_last());
                    Some(true)
                },
            }
        },
        Expr::Debug => {
            write_debug(variables, stack, heap, log);
            Some(false)
        },
        Expr::SetVar(v) => {
            proof {
                lemma_entries_map_names(variables.entries(), variable_view());
            }
            if !variables.contains_key(v.as_str()) {
                return None;
            }
            match stack.pop() {
                None => None,
                Some(a) => {
                    assert(values(stack@) =~= s.drop_last());
                    set_var_value(variables, v.as_str(), a);
                    Some(false)
                },
            }
        },
        Expr::GetVar(v) => {
            match var_value(variables, v.as_str()) {
                None => None,
                Some(x) => {
                    stack.push(x);
                    assert(values(stack@) =~= s.push(values(stack@).last()));
                    Some(false)
                },
            }
        },
        Expr::Eq => {
            let a = stack.pop();
            let b = stack.pop();
            let same = match (&a, &b) {
                (Some(x), Some(y)) => x.equals(y),
                (None, None) => true,
                _ => false,
            };
            let ghost rest = if n >= 2 {
                s.subrange(0, n - 2)
            } else {
                seq![]
            };
            assert(values(stack@) =~= rest);
            stack.push(if same {
                Integer::from_i64(1)
            } else {
                Integer::from_i64(0)
            });
            assert(values(stack@) =~= rest.push(values(stack@).last()));
            Some(false)
        },
        Expr::PrintCListOfList => None,
        Expr::Malloc => None,
        Expr::GetElem => {
            let k = stack.len();
            if k < 2 {
                return None;
            }
            let cell = stack[k - 1].add(&Integer::from_i64(2)).add(&stack[k - 2]);
            match address(&cell, heap.len()) {
                None => None,
                Some(ci) => {
                    let x = heap[ci].copy();
                    stack.pop();
                    stack.pop();
                    stack.push(x);
                    assert(values(stack@) =~= s.subrange(0, n - 2).push(values(heap@)[ci as int]));
                    Some(false)
                },
            }
        },
        Expr::SetElem => {
            let k = stack.len();
            if k < 3 {
                return None;
            }
            let cell = stack[k - 1].add(&Integer::from_i64(2)).add(&stack[k - 2]);
            match address(&cell, heap.len()) {
                None => None,
                Some(ci) => {
                    stack.pop();
                    stack.pop();
                    let x = stack.pop().unwrap();
                    heap.set(ci, x);
                    assert(values(stack@) =~= s.subrange(0, n - 3));
                    assert(values(heap@) =~= m.heap.update(ci as int, s[n - 3]));
                    Some(false)
                },
            }
        },
        Expr::GetHeap => {
            let k = stack.len();
            if k < 1 {
                return None;
            }
            match address(&stack[k - 1], heap.len()) {
                None => None,
                Some(ci) => {
                    let x = heap[ci].copy();
                    stack.pop();
                    stack.push(x);
                    assert(values(stack@) =~= s.drop_last().push(values(heap@)[ci as int]));
                    Some(false)
                },
            }
        },
        Expr::SetHeap => {
            let k = stack.len();
            if k < 2 {
                return None;
            }
            match address(&stack[k - 1], heap.len()) {
                None => None,
                Some(ci) => {
                    stack.pop();
                    let x = stack.pop().unwrap();
                    heap.set(ci, x);
                    assert(values(stack@) =~= s.subrange(0, n - 2));
                    assert(values(heap@) =~= m.heap.update(ci as int, s[n - 2]));
                    Some(false)
                },
            }
        },
        Expr::Length => {
            match stack.pop() {
                None => None,
                Some(a) => {
                    assert(values(stack@) =~= s.drop_last());
                    if a.equals(&Integer::from_i64(-1)) {
                        stack.push(Integer::from_i64(0));
                    } else {
                        let au = match a.to_usize() {
                            None => {
                                return None;
                            },
                            Some(au) => au,
                        };
                        if au >= heap.len() || au + 1 >= heap.len() {
                            return None;
                        }
                        let x = heap[au + 1].copy();
                        stack.push(x);
                    }
                    assert(values(stack@) =~= s.drop_last().push(values(stack@).last()));
                    Some(false)
                },
            }
        },
        Expr::Append => {
            if exec_append(stack, heap) {
                Some(false)
            } else {
                None
            }
        },
        Expr::In => {
            if exec_in(stack, heap) {
                Some(false)
            } else {
                None
            }
        },
        Expr::Index(name, path) => {
            if exec_index(name, path, variables, stack, heap) {
                Some(false)
            } else {
                None
            }
        },
        Expr::Readlines => {
            if exec_readlines(stack, heap, input) {
                assert(input@ =~= Seq::<u8>::empty());
                Some(false)
            } else {
                None
            }
        },
        Expr::Comment(_) => Some(false),
    }
}

impl AdvcExecutor {
    /// The maps have distinct names.
    pub open spec fn wf(&self) -> bool {
        self.blocks.wf() && self.block_index.wf() && self.variables.wf()
    }

    /// The machine state of the executor with the given input and output.
    pub open spec fn machine(&self, input: Seq<u8>, output: Seq<char>, log: Seq<char>) -> AdvcMachine {
        machine_of(self.label@, self.variables.entries(), self.stack@, self.heap@, input, output, log)
    }

    /// A variable that a statement sets or reads but that is not declared,
    /// if any.
    pub fn undeclared_variable(&self) -> (r: Option<String>)
        ensures
            r is None <==> uses_declared(self.blocks.entries(), var_views(self.variables.entries())),
    {
        let ghost vars = var_views(self.variables.entries());
        assert forall|x: Seq<char>| has_name(vars, x) <==> has_name(self.variables.entries(), x) by {
            if has_name(vars, x) {
                let i = choose|i: int| 0 <= i < vars.len() && #[trigger] vars[i].0 == x;
                assert(self.variables.entries()[i].0 == x);
            }
            if has_name(self.variables.entries(), x) {
                let i = choose|i: int| 0 <= i < self.variables.entries().len() && #[trigger] self.variables.entries()[i].0 == x;
                assert(vars[i].0 == x);
            }
        }
        let mut k: usize = 0;
        while k < self.blocks.len()
            invariant
                k <= self.blocks.entries().len(),
                vars == var_views(self.variables.entries()),
                forall|x: Seq<char>| has_name(vars, x) <==> has_name(self.variables.entries(), x),
                forall|k2: int, j: int|
                    0 <= k2 < k && 0 <= j < self.blocks.entries()[k2].1@.len() ==> match #[trigger] self.blocks.entries()[k2].1@[j] {
                        Expr::SetVar(v) => has_name(vars, v@),
                        Expr::GetVar(v) => has_name(vars, v@),
                        _ => true,
                    },
            decreases self.blocks.entries().len() - k,
        {
            let body = self.blocks.value_at(k);
            let mut j: usize = 0;
            while j < body.len()
                invariant
                    j <= body@.len(),
                    k < self.blocks.entries().len(),
                    body@ == self.blocks.entries()[k as int].1@,
                    vars == var_views(self.variables.entries()),
                    forall|x: Seq<char>| has_name(vars, x) <==> has_name(self.variables.entries(), x),
                    forall|j2: int| 0 <= j2 < j ==> match #[trigger] body@[j2] {
                        Expr::SetVar(v) => has_name(vars, v@),
                        Expr::GetVar(v) => has_name(vars, v@),
                        _ => true,
                    },
                decreases body@.len() - j,
            {
                match &body[j] {
                    Expr::SetVar(v) => {
                        if !self.variables.contains_key(v.as_str()) {
                            return Some(v.clone());
                        }
                    },
                    Expr::GetVar(v) => {
                        if !self.variables.contains_key(v.as_str()) {
                            return Some(v.clone());
                        }
                    },
                    _ => {},
                }
                j = j + 1;
            }
            k = k + 1;
        }
        None
    }

    /// Runs the block named `label` from its start: `None` when there is no
    /// such block or a statement aborts the program; otherwise whether the
    /// program goes on (`false` once a jump reaches `term`).
    pub fn interpret_label(
        &mut self,
        label: String,
        input: &mut ByteInput,
        output: &mut Vec<char>,
        log: &mut Vec<char>,
    ) -> (r: Option<bool>)
        requires
            old(self).wf(),
            uses_declared(old(self).blocks.entries(), var_views(old(self).variables.entries())),
        ensures
            final(self).wf(),
            final(self).blocks == old(self).blocks,
            final(self).block_index == old(self).block_index,
            final(self).registers == old(self).registers,
            match advc_label(
                old(self).blocks.entries(),
                label@,
                old(self).machine(old(input)@, old(output)@, old(log)@),
            ) {
                None => r is None,
                Some((m, go_on)) => r == Some(go_on) && final(self).machine(
                    final(input)@,
                    final(output)@,
                    final(log)@,
                ) == m,
            },
    {
        let ghost blocks = self.blocks.entries();
        let ghost m0 = self.machine(input@, output@, log@);
        let bi = match self.blocks.position(label.as_str()) {
            Some(bi) => bi,
            None => {
                return None;
            },
        };
        proof {
            let j = choose|j: int| 0 <= j < blocks.len() && #[trigger] blocks[j].0 == label@;
            assert(j == bi);
        }
        let body = self.blocks.value_at(bi);
        assert(advc_label(blocks, label@, m0) == advc_block(body@, 0, m0));
        let mut pc: usize = 0;
        while pc < body.len()
            invariant
                pc <= body@.len(),
                self.wf(),
                self.blocks == old(self).blocks,
                self.block_index == old(self).block_index,
                self.registers == old(self).registers,
                *body == blocks[bi as int].1,
                blocks == self.blocks.entries(),
                bi < blocks.len(),
                m0 == old(self).machine(old(input)@, old(output)@, old(log)@),
                advc_label(blocks, label@, m0) == advc_block(
                    body@,
                    pc as nat,
                    self.machine(input@, output@, log@),
                ),
            decreases body@.len() - pc,
        {
            match exec_stmt(
                &body[pc],
                &mut self.variables,
                &mut self.stack,
                &mut self.heap,
                &mut self.label,
                input,
                output,
                log,
            ) {
                None => {
                    return None;
                },
                Some(true) => {
                    proof {
                        reveal_strlit("term");
                        assert("term"@ =~= term_label());
                    }
                    return Some(!text_eq(self.label.as_str(), "term"));
                },
                Some(false) => {
                    pc = pc + 1;
                },
            }
        }
        Some(true)
    }

    /// Runs blocks from the current label until a jump reaches `term`, a
    /// statement aborts, or `fuel` blocks have been run. Output goes to
    /// `output`, what `Debug` statements show to `log`. After an abort the
    /// executor holds the state the aborting statement left.
    pub fn interpret(
        &mut self,
        input: &mut ByteInput,
        output: &mut Vec<char>,
        log: &mut Vec<char>,
        fuel: usize,
    ) -> (r: RunOutcome)
        requires
            old(self).wf(),
            uses_declared(old(self).blocks.entries(), var_views(old(self).variables.entries())),
        ensures
            final(self).wf(),
            final(self).blocks == old(self).blocks,
            ({
                let (m, o) = advc_run(
                    old(self).blocks.entries(),
                    old(self).machine(old(input)@, old(output)@, old(log)@),
                    fuel as nat,
                );
                &&& r == o
                &&& o != RunOutcome::Crashed ==> final(self).machine(final(input)@, final(output)@, final(log)@) == m
            }),
    {
        let ghost blocks = self.blocks.entries();
        let ghost m0 = self.machine(input@, output@, log@);
        let mut steps_left = fuel;
        loop
            invariant
                self.wf(),
                self.blocks == old(self).blocks,
                blocks == self.blocks.entries(),
                m0 == old(self).machine(old(input)@, old(output)@, old(log)@),
                advc_run(blocks, m0, fuel as nat) == advc_run(
                    blocks,
                    self.machine(input@, output@, log@),
                    steps_left as nat,
                ),
                uses_declared(blocks, var_views(self.variables.entries())),
            decreases steps_left,
        {
            if steps_left == 0 {
                return RunOutcome::OutOfFuel;
            }
            let current = self.label.clone();
            let ghost mb = self.machine(input@, output@, log@);
            proof {
                lemma_label_names(blocks, current@, mb);
            }
            match self.interpret_label(current, input, output, log) {
                None => {
                    return RunOutcome::Crashed;
                },
                Some(false) => {
                    return RunOutcome::Finished;
                },
                Some(true) => {
                    proof {
                        lemma_declared_names(
                            blocks,
                            mb.variables,
                            var_views(self.variables.entries()),
                        );
                    }
                    steps_left = steps_left - 1;
                },
            }
        }
    }
}

} // verus!
