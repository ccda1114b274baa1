//! The advanced language: the mid-level statements plus structured jumps,
//! a heap of integers holding growable lists, and list operations.
//!
//! A list lives in the heap at an address `a`: `heap[a]` is its capacity,
//! `heap[a + 1]` its length and the elements follow from `heap[a + 2]`.
//! A list variable holds `-1` until its first element is appended.

pub mod interpret;

use crate::integer::{int_decimal, Integer};
use crate::label_map::{
    entries_insert, has_name, lemma_entries_map_insert, lemma_entries_map_names, lookup, sort_by_number,
    LabelMap,
};
use crate::mid_smpl::parse::{make_registers, register_vars};
use crate::mid_smpl::{initial_value_of, var_views, variable_view};
use crate::mid_smpl::mid_smpl_to_stk::debug_quoted;
use crate::piet_interpreter::{cmd_crashes, cmd_effect, CMD};
use crate::piet_stack::term_label;
use crate::text::decimal_list;
use vstd::prelude::*;

pub use crate::mid_smpl::{Label, VarView, Variable, VariableType};

verus! {

/// A statement of the advanced language.
pub enum Expr {
    Instr(CMD),
    Goto(Label),
    Branch(Label, Label),
    Debug,
    /// Pop a value into the named variable.
    SetVar(String),
    /// Push the value of the named variable.
    GetVar(String),
    /// The head of a counted loop: continue at the label.
    For(String, String, Label),
    /// Pop a value; continue at the first label when it is not zero, at the
    /// second otherwise.
    If(Label, Label),
    /// Pop two values (when present) and push 1 when they are equal, 0
    /// otherwise.
    Eq,
    /// Pop a list address and a value; append the value, moving the list
    /// when it is full; push the list's address.
    Append,
    PrintCListOfList,
    /// Pop a start position, a list and a value; push the first position
    /// from the start at which the list holds the value, or -1.
    In,
    Malloc,
    /// Pop a list and a position; push the element there.
    GetElem,
    /// Pop a list, a position and a value; store the value there.
    SetElem,
    /// Pop an address; push the heap cell there.
    GetHeap,
    /// Pop an address and a value; store the value there.
    SetHeap,
    /// Read the rest of the input as lines of byte values; push the address
    /// of the list of their addresses.
    Readlines,
    /// Pop a list; push its length (0 for an unallocated list).
    Length,
    /// Push the element reached from the named list by following, for each
    /// pair, the position given by a variable plus an offset.
    Index(String, Vec<(String, Integer)>),
    Comment(String),
}

/// The state of a running advanced program.
pub struct AdvcMachine {
    pub label: Seq<char>,
    pub variables: Seq<(Seq<char>, VarView)>,
    pub stack: Seq<int>,
    pub heap: Seq<int>,
    pub input: Seq<u8>,
    pub output: Seq<char>,
    pub log: Seq<char>,
}

/// Whether `v` is an address of one of the `len` heap cells that a `usize`
/// can hold.
pub open spec fn addr_ok(v: int, len: nat) -> bool {
    0 <= v <= usize::MAX && v < len
}

/// Whether `v` fits in an `isize`.
pub open spec fn fits_isize(v: int) -> bool {
    isize::MIN <= v <= isize::MAX
}

/// The smallest power of two that is at least `n`, reached by doubling `p`.
pub open spec fn grow_capacity(p: nat, n: nat) -> nat
    decreases (if p < n { n - p } else { 0int }),
{
    if p == 0 || p >= n {
        p
    } else {
        grow_capacity(2 * p, n)
    }
}

/// The capacity given to a list of `n` elements: the smallest power of two
/// that is at least `n` (1 for an empty list).
pub open spec fn capacity(n: nat) -> nat {
    grow_capacity(1, n)
}

/// A fresh list holding `xs`: capacity, length, elements, then zeros up to
/// the capacity.
pub open spec fn list_cells(xs: Seq<int>) -> Seq<int> {
    let c = capacity(xs.len());
    seq![c as int, xs.len() as int] + xs + Seq::new((c - xs.len()) as nat, |i: int| 0int)
}

/// The variables after setting the value of `k` to `v`.
pub open spec fn with_value(vars: Seq<(Seq<char>, VarView)>, k: Seq<char>, v: int) -> Seq<(Seq<char>, VarView)> {
    let i = choose|i: int| 0 <= i < vars.len() && #[trigger] vars[i].0 == k;
    vars.update(i, (k, VarView { value: v, ..vars[i].1 }))
}

/// The heap and the list of line addresses after reading the complete
/// lines of `input` (those ended by a newline) on top of `heap`, with
/// `line` holding the bytes read so far of the current line; `None` when a
/// line is too long for its capacity to be counted.
pub open spec fn read_lines_into(heap: Seq<int>, starts: Seq<int>, line: Seq<int>, input: Seq<u8>) -> Option<(Seq<int>, Seq<int>)>
    decreases input.len(),
{
    if input.len() == 0 {
        Some((heap, starts))
    } else if input[0] == 10 {
        if capacity(line.len()) > usize::MAX {
            None
        } else {
            read_lines_into(heap + list_cells(line), starts.push(heap.len() as int), seq![], input.drop_first())
        }
    } else {
        read_lines_into(heap, starts, line.push(input[0] as int), input.drop_first())
    }
}

/// The first position in `z .. e` at which list `l` holds `a`, `-1` when
/// there is none, `None` when a cell looked at is outside the heap.
pub open spec fn search_list(heap: Seq<int>, l: int, a: int, z: int, e: int) -> Option<int>
    decreases e - z,
{
    if z >= e {
        Some(-1)
    } else if !addr_ok(l + 2 + z, heap.len()) {
        None
    } else if heap[l + 2 + z] == a {
        Some(z)
    } else {
        search_list(heap, l, a, z + 1, e)
    }
}

/// The steps of an `Index` statement as names and offsets.
pub open spec fn path_view(p: Seq<(String, Integer)>) -> Seq<(Seq<char>, int)> {
    p.map_values(|x: (String, Integer)| (x.0@, x.1@))
}

/// The element reached from `curr` by following `path`; `None` when a
/// variable is missing or a cell is outside the heap.
pub open spec fn follow_path(vars: Seq<(Seq<char>, VarView)>, heap: Seq<int>, curr: int, path: Seq<(Seq<char>, int)>) -> Option<int>
    decreases path.len(),
{
    if path.len() == 0 {
        Some(curr)
    } else {
        match lookup(vars, path[0].0) {
            None => None,
            Some(v) => {
                let cell = curr + 2 + v.value + path[0].1;
                if addr_ok(cell, heap.len()) {
                    follow_path(vars, heap, heap[cell], path.drop_first())
                } else {
                    None
                }
            },
        }
    }
}

/// `("name", value)` for one variable, as `{:?}` writes such a pair.
pub open spec fn variable_item(vars: Seq<(Seq<char>, VarView)>, k: Seq<char>) -> Seq<char> {
    seq!['('] + debug_quoted(k) + seq![',', ' '] + int_decimal(lookup(vars, k).unwrap().value) + seq![')']
}

/// The items for the variables named in `order`, separated by commas.
pub open spec fn variable_items(vars: Seq<(Seq<char>, VarView)>, order: Seq<(Seq<char>, usize)>) -> Seq<char>
    decreases order.len(),
{
    if order.len() == 0 {
        seq![]
    } else if order.len() == 1 {
        variable_item(vars, order[0].0)
    } else {
        variable_items(vars, order.drop_last()) + seq![',', ' '] + variable_item(vars, order.last().0)
    }
}

/// Each variable's name with its slot number.
pub open spec fn slot_pairs(vars: Seq<(Seq<char>, VarView)>) -> Seq<(Seq<char>, usize)> {
    vars.map_values(|e: (Seq<char>, VarView)| (e.0, e.1.var_index))
}

/// The variables in slot order.
pub open spec fn slot_order(vars: Seq<(Seq<char>, VarView)>) -> Seq<(Seq<char>, usize)> {
    sort_by_number(slot_pairs(vars))
}

/// What a `Debug` statement writes: the heap, the variables with their
/// values in slot order, and the stack, between empty lines.
pub open spec fn debug_dump(vars: Seq<(Seq<char>, VarView)>, stack: Seq<int>, heap: Seq<int>) -> Seq<char> {
    seq!['\n'] + "Heap: ["@ + decimal_list(heap) + "]\n"@ + "Variables: ["@ + variable_items(
        vars,
        slot_order(vars),
    ) + "]\n"@ + "Stack: ["@ + decimal_list(stack) + "]\n"@ + seq!['\n']
}

/// The elements of the list at address `a`: its capacity is at least 1,
/// its length at most its capacity, and its cells lie in the heap.
pub open spec fn list_at(heap: Seq<int>, a: int) -> Option<Seq<int>> {
    if 0 <= a && a + 1 < heap.len() && 1 <= heap[a] && 0 <= heap[a + 1] <= heap[a] && a + 2 + heap[a]
        <= heap.len() {
        Some(heap.subrange(a + 2, a + 2 + heap[a + 1]))
    } else {
        None
    }
}

/// The elements of the list a list variable holds (`-1`: none yet).
pub open spec fn list_value(heap: Seq<int>, a: int) -> Option<Seq<int>> {
    if a == -1 {
        Some(seq![])
    } else {
        list_at(heap, a)
    }
}

/// Whether appending to the list at `a` keeps every heap address within
/// what a `usize` can count.
pub open spec fn append_fits(heap: Seq<int>, a: int) -> bool {
    if a == -1 {
        heap.len() + 3 <= usize::MAX
    } else {
        heap.len() + 3 + 2 * heap[a] <= usize::MAX
    }
}

/// `Append` on a value and a list leaves the address of a list holding the
/// list's elements followed by the value: in place when the list has room,
/// in a new list of twice the capacity at the end of the heap otherwise.
pub proof fn lemma_append_adds_element(s: Seq<int>, heap: Seq<int>)
    requires
        s.len() >= 2,
        list_value(heap, s.last()) is Some,
        append_fits(heap, s.last()),
    ensures
        ({
            let xs = list_value(heap, s.last()).unwrap();
            let v = s[s.len() - 2];
            match append_effect(s, heap) {
                Some((s2, h2)) => s2.drop_last() == s.drop_last().drop_last() && list_at(h2, s2.last())
                    == Some(xs.push(v)),
                None => false,
            }
        }),
{
    let ai = s.last();
    let v = s[s.len() - 2];
    let s1 = s.drop_last();
    assert(s1.last() == v);
    if ai == -1 {
        let h1 = heap + seq![1int, 0int, 0int];
        let a = heap.len() as int;
        assert(h1[a] == 1 && h1[a + 1] == 0 && h1.len() == a + 3);
        let h4 = h1.update(a + 2, v);
        let h5 = h4.update(a + 1, h4[a + 1] + 1);
        assert(h5.subrange(a + 2, a + 3) =~= seq![v]);
        assert(Seq::<int>::empty().push(v) =~= seq![v]);
    } else {
        let a = ai;
        let xs = list_at(heap, a).unwrap();
        let cap = heap[a];
        let len = heap[a + 1];
        if len == cap {
            let h2 = heap + seq![cap * 2, len];
            assert(h2.subrange(a + 2, a + 2 + cap) =~= heap.subrange(a + 2, a + 2 + cap));
            let h3 = h2 + h2.subrange(a + 2, a + 2 + cap) + Seq::new(cap as nat, |i: int| 0int);
            let a3 = heap.len() as int;
            assert(h3[a3] == cap * 2 && h3[a3 + 1] == len);
            assert(h3.len() == heap.len() + 2 + 2 * cap);
            let index = a3 + 2 + len;
            let h4 = h3.update(index, v);
            let h5 = h4.update(a3 + 1, h4[a3 + 1] + 1);
            assert(h5.subrange(a3 + 2, a3 + 2 + len + 1) =~= xs.push(v)) by {
                assert forall|k: int| 0 <= k < len + 1 implies #[trigger] h5.subrange(a3 + 2, a3 + 2 + len + 1)[k]
                    == xs.push(v)[k] by {
                    if k < len {
                        assert(h5[a3 + 2 + k] == h3[a3 + 2 + k]);
                        assert(h3[a3 + 2 + k] == heap[a + 2 + k]);
                    }
                }
            }
        } else {
            let index = a + 2 + len;
            let h4 = heap.update(index, v);
            let h5 = h4.update(a + 1, h4[a + 1] + 1);
            assert(h5.subrange(a + 2, a + 2 + len + 1) =~= xs.push(v));
        }
    }
}

/// The stack and heap after `Append`, or `None` when it aborts.
pub open spec fn append_effect(s: Seq<int>, heap: Seq<int>) -> Option<(Seq<int>, Seq<int>)> {
    if s.len() == 0 {
        None
    } else {
        let ai = s.last();
        let s1 = s.drop_last();
        let (h1, a) = if ai == -1 {
            (heap + seq![1int, 0int, 0int], heap.len() as int)
        } else {
            (heap, ai)
        };
        if ai != -1 && !(0 <= ai <= usize::MAX) {
            None
        } else if !addr_ok(a + 1, h1.len()) {
            None
        } else {
            let full = h1[a] == h1[a + 1];
            let cap = h1[a];
            if full && !(0 <= cap <= usize::MAX && a + 2 + cap <= h1.len() + 2) {
                None
            } else {
                let (h3, a3) = if full {
                    let h2 = h1 + seq![cap * 2, h1[a + 1]];
                    (h2 + h2.subrange(a + 2, a + 2 + cap) + Seq::new(cap as nat, |i: int| 0int), h1.len() as int)
                } else {
                    (h1, a)
                };
                let len = h3[a3 + 1];
                let index = a3 + 2 + len;
                if !(0 <= len <= usize::MAX) || s1.len() == 0 || !addr_ok(index, h3.len()) {
                    None
                } else {
                    let h4 = h3.update(index, s1.last());
                    Some((s1.drop_last().push(a3), h4.update(a3 + 1, h4[a3 + 1] + 1)))
                }
            }
        }
    }
}

/// The stack after `In`, or `None` when it aborts.
pub open spec fn in_effect(s: Seq<int>, heap: Seq<int>) -> Option<Seq<int>> {
    let n = s.len();
    if n < 3 {
        None
    } else {
        let z = s[n - 1];
        let l = s[n - 2];
        let a = s[n - 3];
        if !fits_isize(z) || !addr_ok(l + 1, heap.len()) || !fits_isize(heap[l + 1]) {
            None
        } else {
            match search_list(heap, l, a, z, heap[l + 1]) {
                None => None,
                Some(r) => Some(s.subrange(0, n - 3).push(r)),
            }
        }
    }
}

/// The stack and heap after `Readlines` has read all of `input`, or
/// `None` when it aborts.
pub open spec fn readlines_effect(s: Seq<int>, heap: Seq<int>, input: Seq<u8>) -> Option<(Seq<int>, Seq<int>)> {
    match read_lines_into(heap, seq![], seq![], input) {
        None => None,
        Some((h, starts)) => if capacity(starts.len()) > usize::MAX {
            None
        } else {
            Some((s.push(h.len() as int), h + list_cells(starts)))
        },
    }
}

/// One statement: the next machine and whether control leaves the block,
/// or `None` when the statement aborts the program.
pub open spec fn advc_stmt(e: Expr, m: AdvcMachine) -> Option<(AdvcMachine, bool)> {
    let s = m.stack;
    let n = s.len();
    let h = m.heap;
    match e {
        Expr::Instr(c) => if cmd_crashes(c@, s, m.input) {
            None
        } else {
            let (s2, i2, o, ok) = cmd_effect(c@, s, m.input);
            Some((AdvcMachine { stack: s2, input: i2, output: m.output + o, ..m }, false))
        },
        Expr::Goto(l) => Some((AdvcMachine { label: l.name_of(), ..m }, true)),
        Expr::For(_, _, l) => Some((AdvcMachine { label: l.name_of(), ..m }, true)),
        Expr::Branch(t, f) => if n == 0 {
            None
        } else {
            Some((AdvcMachine {
                label: if s.last() == 0 { f.name_of() } else { t.name_of() },
                stack: s.drop_last(),
                ..m
            }, true))
        },
        Expr::If(t, f) => if n == 0 {
            None
        } else {
            Some((AdvcMachine {
                label: if s.last() != 0 { t.name_of() } else { f.name_of() },
                stack: s.drop_last(),
                ..m
            }, true))
        },
        Expr::Debug => Some((AdvcMachine { log: m.log + debug_dump(m.variables, s, h), ..m }, false)),
        Expr::SetVar(v) => if !has_name(m.variables, v@) || n == 0 {
            None
        } else {
            Some((AdvcMachine {
                variables: with_value(m.variables, v@, s.last()),
                stack: s.drop_last(),
                ..m
            }, false))
        },
        Expr::GetVar(v) => match lookup(m.variables, v@) {
            None => None,
            Some(x) => Some((AdvcMachine { stack: s.push(x.value), ..m }, false)),
        },
        Expr::Eq => {
            let a = if n >= 1 { Some(s[n - 1]) } else { None::<int> };
            let b = if n >= 2 { Some(s[n - 2]) } else { None::<int> };
            let rest = if n >= 2 { s.subrange(0, n - 2) } else { seq![] };
            Some((AdvcMachine { stack: rest.push(if a == b { 1int } else { 0int }), ..m }, false))
        },
        Expr::Append => match append_effect(s, h) {
            None => None,
            Some((s2, h2)) => Some((AdvcMachine { stack: s2, heap: h2, ..m }, false)),
        },
        Expr::PrintCListOfList => None,
        Expr::In => match in_effect(s, h) {
            None => None,
            Some(s2) => Some((AdvcMachine { stack: s2, ..m }, false)),
        },
        Expr::Malloc => None,
        Expr::GetElem => if n < 2 || !addr_ok(s[n - 1] + 2 + s[n - 2], h.len()) {
            None
        } else {
            Some((AdvcMachine { stack: s.subrange(0, n - 2).push(h[s[n - 1] + 2 + s[n - 2]]), ..m }, false))
        },
        Expr::SetElem => if n < 3 || !addr_ok(s[n - 1] + 2 + s[n - 2], h.len()) {
            None
        } else {
            Some((AdvcMachine {
                heap: h.update(s[n - 1] + 2 + s[n - 2], s[n - 3]),
                stack: s.subrange(0, n - 3),
                ..m
            }, false))
        },
        Expr::GetHeap => if n < 1 || !addr_ok(s[n - 1], h.len()) {
            None
        } else {
            Some((AdvcMachine { stack: s.drop_last().push(h[s[n - 1]]), ..m }, false))
        },
        Expr::SetHeap => if n < 2 || !addr_ok(s[n - 1], h.len()) {
            None
        } else {
            Some((AdvcMachine { heap: h.update(s[n - 1], s[n - 2]), stack: s.subrange(0, n - 2), ..m }, false))
        },
        Expr::Readlines => match readlines_effect(s, h, m.input) {
            None => None,
            Some((s2, h2)) => Some((AdvcMachine { stack: s2, heap: h2, input: seq![], ..m }, false)),
        },
        Expr::Length => if n < 1 {
            None
        } else if s[n - 1] == -1 {
            Some((AdvcMachine { stack: s.drop_last().push(0), ..m }, false))
        } else if !(0 <= s[n - 1] && addr_ok(s[n - 1] + 1, h.len())) {
            None
        } else {
            Some((AdvcMachine { stack: s.drop_last().push(h[s[n - 1] + 1]), ..m }, false))
        },
        Expr::Index(name, path) => match lookup(m.variables, name@) {
            None => None,
            Some(x) => match follow_path(m.variables, h, x.value, path_view(path@)) {
                None => None,
                Some(v) => Some((AdvcMachine { stack: s.push(v), ..m }, false)),
            },
        },
        Expr::Comment(_) => Some((m, false)),
    }
}

/// `Branch(t, e)` aborts on an empty stack; otherwise it pops the top value
/// and leaves the block for `t` when that value is not zero and for `e` when
/// it is zero, touching nothing else. It decides exactly as `If(t, e)` does.
pub proof fn lemma_branch_on_top(t: Label, e: Label, m: AdvcMachine)
    ensures
        m.stack.len() == 0 ==> advc_stmt(Expr::Branch(t, e), m) is None,
        m.stack.len() > 0 ==> (advc_stmt(Expr::Branch(t, e), m) matches Some((m2, jumped)) && jumped
            && m2.stack == m.stack.drop_last() && (m.stack.last() != 0 ==> m2.label == t.name_of())
            && (m.stack.last() == 0 ==> m2.label == e.name_of()) && m2.variables == m.variables
            && m2.heap == m.heap && m2.input == m.input && m2.output == m.output && m2.log == m.log),
        advc_stmt(Expr::Branch(t, e), m) == advc_stmt(Expr::If(t, e), m),
{
}

/// Runs the statements of a block from position `pc`: the machine after it
/// and whether the program goes on (it stops when a jump reaches `term`),
/// or `None` when a statement aborts. Falling off the end of the block goes
/// on with the label unchanged.
pub open spec fn advc_block(body: Seq<Expr>, pc: nat, m: AdvcMachine) -> Option<(AdvcMachine, bool)>
    decreases body.len() - pc,
{
    if pc >= body.len() {
        Some((m, true))
    } else {
        match advc_stmt(body[pc as int], m) {
            None => None,
            Some((m2, jumped)) => if jumped {
                Some((m2, m2.label != term_label()))
            } else {
                advc_block(body, pc + 1, m2)
            },
        }
    }
}

/// Runs the block named `label`; `None` when there is no such block or a
/// statement aborts.
pub open spec fn advc_label(blocks: Seq<(Seq<char>, Vec<Expr>)>, label: Seq<char>, m: AdvcMachine) -> Option<(AdvcMachine, bool)> {
    match lookup(blocks, label) {
        None => None,
        Some(body) => advc_block(body@, 0, m),
    }
}

/// Runs blocks from the current label, at most `fuel` of them.
pub open spec fn advc_run(blocks: Seq<(Seq<char>, Vec<Expr>)>, m: AdvcMachine, fuel: nat) -> (AdvcMachine, crate::piet_stack::RunOutcome)
    decreases fuel,
{
    if fuel == 0 {
        (m, crate::piet_stack::RunOutcome::OutOfFuel)
    } else {
        match advc_label(blocks, m.label, m) {
            None => (m, crate::piet_stack::RunOutcome::Crashed),
            Some((m2, go_on)) => if go_on {
                advc_run(blocks, m2, (fuel - 1) as nat)
            } else {
                (m2, crate::piet_stack::RunOutcome::Finished)
            },
        }
    }
}

/// The names of the variables, in order.
pub open spec fn var_names(vars: Seq<(Seq<char>, VarView)>) -> Seq<Seq<char>> {
    vars.map_values(|e: (Seq<char>, VarView)| e.0)
}

/// Whether every statement that sets or reads a variable names one of
/// `vars`.
pub open spec fn uses_declared(blocks: Seq<(Seq<char>, Vec<Expr>)>, vars: Seq<(Seq<char>, VarView)>) -> bool {
    forall|k: int, j: int|
        0 <= k < blocks.len() && 0 <= j < blocks[k].1@.len() ==> match #[trigger] blocks[k].1@[j] {
            Expr::SetVar(v) => has_name(vars, v@),
            Expr::GetVar(v) => has_name(vars, v@),
            _ => true,
        }
}

/// A statement keeps the names of the variables.
proof fn lemma_stmt_names(e: Expr, m: AdvcMachine)
    ensures
        advc_stmt(e, m) matches Some((m2, _)) ==> var_names(m2.variables) == var_names(m.variables),
{
    if let Expr::SetVar(v) = e {
        if has_name(m.variables, v@) && m.stack.len() > 0 {
            let vars = m.variables;
            let i = choose|i: int| 0 <= i < vars.len() && #[trigger] vars[i].0 == v@;
            assert(var_names(with_value(vars, v@, m.stack.last())) =~= var_names(vars));
        }
    }
}

/// Running a block keeps the names of the variables.
proof fn lemma_block_names(body: Seq<Expr>, pc: nat, m: AdvcMachine)
    ensures
        advc_block(body, pc, m) matches Some((m2, _)) ==> var_names(m2.variables) == var_names(m.variables),
    decreases body.len() - pc,
{
    if pc < body.len() {
        lemma_stmt_names(body[pc as int], m);
        if let Some((m2, jumped)) = advc_stmt(body[pc as int], m) {
            if !jumped {
                lemma_block_names(body, pc + 1, m2);
            }
        }
    }
}

/// Running a block by name keeps the names of the variables.
pub proof fn lemma_label_names(blocks: Seq<(Seq<char>, Vec<Expr>)>, label: Seq<char>, m: AdvcMachine)
    ensures
        advc_label(blocks, label, m) matches Some((m2, _)) ==> var_names(m2.variables) == var_names(m.variables),
{
    if let Some(body) = lookup(blocks, label) {
        lemma_block_names(body@, 0, m);
    }
}

/// Which variables statements may use depends only on the names.
pub proof fn lemma_declared_names(blocks: Seq<(Seq<char>, Vec<Expr>)>, a: Seq<(Seq<char>, VarView)>, b: Seq<(Seq<char>, VarView)>)
    requires
        var_names(a) == var_names(b),
        uses_declared(blocks, a),
    ensures
        uses_declared(blocks, b),
{
    assert forall|x: Seq<char>| has_name(a, x) implies has_name(b, x) by {
        let i = choose|i: int| 0 <= i < a.len() && #[trigger] a[i].0 == x;
        assert(var_names(a).len() == a.len() && var_names(b).len() == b.len());
        assert(var_names(a)[i] == x);
        assert(var_names(b)[i] == b[i].0);
        assert(b[i].0 == x);
    }
    assert forall|k: int, j: int|
        0 <= k < blocks.len() && 0 <= j < blocks[k].1@.len() implies match #[trigger] blocks[k].1@[j] {
            Expr::SetVar(v) => has_name(b, v@),
            Expr::GetVar(v) => has_name(b, v@),
            _ => true,
        } by {
        match blocks[k].1@[j] {
            Expr::SetVar(v) => {
                assert(has_name(a, v@));
            },
            Expr::GetVar(v) => {
                assert(has_name(a, v@));
            },
            _ => {},
        }
    }
}

/// An advanced program with the state of its machine.
pub struct AdvcExecutor {
    /// The statements of each block.
    pub blocks: LabelMap<Vec<Expr>>,
    /// The number of each block.
    pub block_index: LabelMap<usize>,
    /// The variables, registers first.
    pub variables: LabelMap<Variable>,
    /// The machine's stack, bottom first.
    pub stack: Vec<Integer>,
    /// The heap of list cells.
    pub heap: Vec<Integer>,
    /// The block being run.
    pub label: String,
    /// The number of registers.
    pub registers: usize,
}

/// The variables after declaring each of `decls` in turn: a fresh variable
/// of the given kind in the next slot (a name declared again is replaced
/// in place).
pub open spec fn declare_vars(vars: Seq<(Seq<char>, VarView)>, decls: Seq<(Seq<char>, VariableType)>) -> Seq<(Seq<char>, VarView)>
    decreases decls.len(),
{
    if decls.len() == 0 {
        vars
    } else {
        let t = decls[0].1;
        declare_vars(
            entries_insert(vars, decls[0].0, VarView { var_type: t, value: initial_value_of(t), var_index: vars.len() as usize }),
            decls.drop_first(),
        )
    }
}

/// Declarations as names and kinds.
pub open spec fn decls_view(d: Seq<(String, VariableType)>) -> Seq<(Seq<char>, VariableType)> {
    d.map_values(|x: (String, VariableType)| (x.0@, x.1))
}

impl AdvcExecutor {
    /// A program ready to run from block `main` with an empty stack and
    /// heap: its blocks, their numbers, and its variables, which are the
    /// `registers` registers followed by the declared ones.
    pub fn new(
        registers: usize,
        declared: &Vec<(String, VariableType)>,
        blocks: LabelMap<Vec<Expr>>,
        block_index: LabelMap<usize>,
    ) -> (r: AdvcExecutor)
        ensures
            r.variables.wf(),
            var_views(r.variables.entries()) == declare_vars(register_vars(registers as nat), decls_view(declared@)),
            r.blocks == blocks,
            r.block_index == block_index,
            r.stack@.len() == 0,
            r.heap@.len() == 0,
            r.label@ == "main"@,
            r.registers == registers,
    {
        let mut variables = make_registers(registers);
        let ghost d = decls_view(declared@);
        let mut i: usize = 0;
        assert(d.skip(0) =~= d);
        while i < declared.len()
            invariant
                i <= declared@.len(),
                d == decls_view(declared@),
                variables.wf(),
                declare_vars(register_vars(registers as nat), d) == declare_vars(
                    var_views(variables.entries()),
                    d.skip(i as int),
                ),
            decreases declared@.len() - i,
        {
            let ghost v0 = variables.entries();
            proof {
                lemma_entries_map_names(v0, variable_view());
                assert(d.skip(i as int).drop_first() =~= d.skip(i + 1));
            }
            let idx = variables.len();
            let (name, t) = &declared[i];
            let v = t.initialize_var(idx);
            let ghost gv = v;
            variables.insert(name.clone(), v);
            proof {
                lemma_entries_map_insert(v0, name@, gv, variable_view());
            }
            i = i + 1;
        }
        assert(d.skip(declared@.len() as int) =~= Seq::<(Seq<char>, VariableType)>::empty());
        AdvcExecutor {
            blocks,
            block_index,
            variables,
            stack: Vec::new(),
            heap: Vec::new(),
            label: String::from_str("main"),
            registers,
        }
    }
}

/// The complete lines of `input` (those ended by a newline) after `lines`,
/// with `line` holding the bytes read so far of the current line.
pub open spec fn lines_read(lines: Seq<Seq<int>>, line: Seq<int>, input: Seq<u8>) -> Seq<Seq<int>>
    decreases input.len(),
{
    if input.len() == 0 {
        lines
    } else if input[0] == 10 {
        lines_read(lines.push(line), seq![], input.drop_first())
    } else {
        lines_read(lines, line.push(input[0] as int), input.drop_first())
    }
}

/// The lines of `input` ended by a newline, as byte values.
pub open spec fn complete_lines(input: Seq<u8>) -> Seq<Seq<int>> {
    lines_read(seq![], seq![], input)
}

/// A list's capacity is at least 1 and at least its length.
proof fn lemma_capacity(p: nat, n: nat)
    requires
        p >= 1,
    ensures
        grow_capacity(p, n) >= p,
        grow_capacity(p, n) >= n,
    decreases (if p < n { n - p } else { 0int }),
{
    if p < n {
        lemma_capacity(2 * p, n);
    }
}

/// A fresh list at the end of the heap holds its elements.
proof fn lemma_list_cells_at(heap: Seq<int>, xs: Seq<int>)
    ensures
        list_at(heap + list_cells(xs), heap.len() as int) == Some(xs),
{
    lemma_capacity(1, xs.len());
    let h = heap + list_cells(xs);
    let a = heap.len() as int;
    assert(h[a] == capacity(xs.len()) && h[a + 1] == xs.len());
    assert(h.subrange(a + 2, a + 2 + xs.len()) =~= xs);
}

/// Cells added at the end of the heap leave its lists as they are.
proof fn lemma_list_at_extend(heap: Seq<int>, more: Seq<int>, a: int)
    requires
        list_at(heap, a) is Some,
    ensures
        list_at(heap + more, a) == list_at(heap, a),
{
    let h = heap + more;
    assert(h[a] == heap[a] && h[a + 1] == heap[a + 1]);
    assert(h.subrange(a + 2, a + 2 + heap[a + 1]) =~= heap.subrange(a + 2, a + 2 + heap[a + 1]));
}

/// Reading lines keeps every list already stored and stores each complete
/// line as a list whose address is recorded.
proof fn lemma_read_lines_lists(
    heap: Seq<int>,
    starts: Seq<int>,
    lines: Seq<Seq<int>>,
    line: Seq<int>,
    input: Seq<u8>,
)
    requires
        starts.len() == lines.len(),
        forall|i: int| 0 <= i < starts.len() ==> list_at(heap, #[trigger] starts[i]) == Some(lines[i]),
        read_lines_into(heap, starts, line, input) is Some,
    ensures
        ({
            let (h, st) = read_lines_into(heap, starts, line, input).unwrap();
            &&& heap.len() <= h.len()
            &&& h.subrange(0, heap.len() as int) == heap
            &&& st.len() == lines_read(lines, line, input).len()
            &&& forall|i: int| 0 <= i < st.len() ==> list_at(h, #[trigger] st[i]) == Some(
                lines_read(lines, line, input)[i],
            )
        }),
    decreases input.len(),
{
    if input.len() == 0 {
        assert(heap.subrange(0, heap.len() as int) =~= heap);
    } else if input[0] == 10 {
        let h1 = heap + list_cells(line);
        let s1 = starts.push(heap.len() as int);
        let l1 = lines.push(line);
        lemma_list_cells_at(heap, line);
        assert forall|i: int| 0 <= i < s1.len() implies list_at(h1, #[trigger] s1[i]) == Some(l1[i]) by {
            if i < starts.len() {
                lemma_list_at_extend(heap, list_cells(line), starts[i]);
            }
        }
        lemma_read_lines_lists(h1, s1, l1, seq![], input.drop_first());
        let (h, st) = read_lines_into(heap, starts, line, input).unwrap();
        assert(h.subrange(0, heap.len() as int) =~= h.subrange(0, h1.len() as int).subrange(0, heap.len() as int));
        assert(h1.subrange(0, heap.len() as int) =~= heap);
    } else {
        lemma_read_lines_lists(heap, starts, lines, line.push(input[0] as int), input.drop_first());
    }
}

/// `Readlines` stores each complete line of the input as a list of its byte
/// values and pushes the address of a list holding their addresses, in
/// order.
pub proof fn lemma_readlines_stores_lines(s: Seq<int>, heap: Seq<int>, input: Seq<u8>)
    requires
        readlines_effect(s, heap, input) is Some,
    ensures
        ({
            let (s2, h2) = readlines_effect(s, heap, input).unwrap();
            let ls = complete_lines(input);
            list_at(h2, s2.last()) matches Some(starts) && starts.len() == ls.len() && forall|i: int|
                0 <= i < starts.len() ==> list_at(h2, #[trigger] starts[i]) == Some(ls[i])
        }),
{
    lemma_read_lines_lists(heap, seq![], seq![], seq![], input);
    let (h, starts) = read_lines_into(heap, seq![], seq![], input).unwrap();
    let h2 = h + list_cells(starts);
    lemma_list_cells_at(h, starts);
    assert forall|i: int| 0 <= i < starts.len() implies list_at(h2, #[trigger] starts[i]) == Some(
        complete_lines(input)[i],
    ) by {
        lemma_list_at_extend(h, list_cells(starts), starts[i]);
    }
}

} // verus!
