//! Reading back the text of a mid-level program.

use super::mid_smpl_to_file::mstmt_text;
use super::parse::{
    append_mstmt, initial_reading, mid_line, push_argument, read_mid_line, read_mid_lines, register_vars,
    resolve_stmt, smpl_program, RawLine, SmplReading, MAX_LIB_DEPTH,
};
use super::mid_smpl_to_file::{blocks_text, imports_text, mblock_text, type_word, vars_text};
use super::mid_smpl_to_stk::{main_label, var_slots};
use super::{
    body_view, initial_value_of, mblock_views, string_view, text_views, var_views, variable_view, MStmt,
    SmplExecutor, VarView, VariableType,
};
use crate::label_map::{
    entries_insert, has_name, lemma_entries_map_names, lemma_sort_distinct, lemma_sort_keeps_names, lookup,
    names_distinct, sort_by_number,
};
use crate::piet_stack::term_label;
use crate::piet_interpreter::Op;
use crate::piet_stack::expr::Stmt;
use crate::piet_stack::parse::keyword_stmt;
use crate::piet_stack::read_back::{
    is_word, joined, label_line, lemma_int_decimal_reads_back, lemma_joined_concat, lemma_label_line,
    lemma_split_joined, lemma_int_decimal_word, lemma_keyword, lemma_stmt_line,
    lemma_stmt_text, lemma_words_one, lemma_words_three, lemma_words_two, listable, one_line, stmt_line,
};
use crate::text::split_words;
use vstd::prelude::*;

verus! {

/// The line a statement is written as, without its newline.
pub open spec fn mstmt_line(s: MStmt) -> Seq<char> {
    match s {
        MStmt::Instr(op) => stmt_line(Stmt::Instr(op)),
        MStmt::Goto(l) => stmt_line(Stmt::Goto(l)),
        MStmt::Branch(a, b) => stmt_line(Stmt::Branch(a, b)),
        MStmt::Debug => stmt_line(Stmt::Debug),
        MStmt::Comment(c) => stmt_line(Stmt::Comment(c)),
        MStmt::SetVar(x) => "set"@ + seq![' '] + x,
        MStmt::GetVar(x) => "get"@ + seq![' '] + x,
        MStmt::Lib(x) => "lib_"@ + x,
        MStmt::GotoStk => stmt_line(Stmt::GotoStk),
    }
}

/// Whether a word can be read back as a jump target: it names a block
/// directly (it does not start with `@`).
pub open spec fn is_target(w: Seq<char>) -> bool {
    is_word(w) && w[0] != '@'
}

/// Whether a statement reads back from its line: its targets and
/// variables are words, its comment text is one line, and it is neither a
/// direction command nor the inclusion of a library.
pub open spec fn mlistable(s: MStmt) -> bool {
    match s {
        MStmt::Instr(op) => listable(Stmt::Instr(op)),
        MStmt::Goto(l) => is_target(l),
        MStmt::Branch(a, b) => is_target(a) && is_target(b),
        MStmt::Comment(c) => one_line(c),
        MStmt::SetVar(x) => is_word(x),
        MStmt::GetVar(x) => is_word(x),
        MStmt::Lib(_) => false,
        _ => true,
    }
}

/// The stack statement a mid-level statement without variables or
/// libraries is.
pub open spec fn as_stmt(s: MStmt) -> Stmt {
    match s {
        MStmt::Instr(op) => Stmt::Instr(op),
        MStmt::Goto(l) => Stmt::Goto(l),
        MStmt::Branch(a, b) => Stmt::Branch(a, b),
        MStmt::Debug => Stmt::Debug,
        MStmt::Comment(c) => Stmt::Comment(c),
        _ => Stmt::GotoStk,
    }
}

/// The written text of a statement is its line and a newline (nothing for
/// `Nop`).
pub(crate) proof fn lemma_mstmt_text(s: MStmt)
    ensures
        s == MStmt::Instr(Op::Nop) ==> mstmt_text(s) == Seq::<char>::empty(),
        s != MStmt::Instr(Op::Nop) && !(s is Lib) ==> mstmt_text(s) == mstmt_line(s).push('\n'),
{
    reveal_strlit("set ");
    reveal_strlit("set");
    reveal_strlit("get ");
    reveal_strlit("get");
    match s {
        MStmt::SetVar(x) => {
            assert(mstmt_text(s) =~= mstmt_line(s).push('\n'));
        },
        MStmt::GetVar(x) => {
            assert(mstmt_text(s) =~= mstmt_line(s).push('\n'));
        },
        MStmt::Lib(_) => {},
        _ => {
            lemma_stmt_text(as_stmt(s));
        },
    }
}

/// A listable statement other than `Nop` reads back from its line.
pub(crate) proof fn lemma_mstmt_line(s: MStmt)
    requires
        mlistable(s),
        s != MStmt::Instr(Op::Nop),
    ensures
        mid_line(mstmt_line(s)) == RawLine::Statement(s),
        one_line(mstmt_line(s)),
{
    reveal_strlit("label");
    reveal_strlit("newlabel");
    reveal_strlit("push");
    reveal_strlit("goto");
    reveal_strlit("branch");
    reveal_strlit("set");
    reveal_strlit("get");
    reveal_strlit("use");
    reveal_strlit("var");
    reveal_strlit("lib_");
    let l = mstmt_line(s);
    match s {
        MStmt::SetVar(x) => {
            lemma_words_two("set"@, x);
            let ws = split_words(l);
            assert(ws[0] != "label"@ && ws[0] != "newlabel"@ && ws[0] != "push"@ && ws[0] != "goto"@);
            assert(l[0] == 's');
            assert forall|k: int| 0 <= k < l.len() implies #[trigger] l[k] != '\n' by {
                if k >= 4 {
                    assert(l[k] == x[k - 4]);
                }
            }
        },
        MStmt::GetVar(x) => {
            lemma_words_two("get"@, x);
            let ws = split_words(l);
            assert(ws[0] != "label"@ && ws[0] != "newlabel"@ && ws[0] != "push"@ && ws[0] != "goto"@
                && ws[0] != "set"@);
            assert(l[0] == 'g');
            assert forall|k: int| 0 <= k < l.len() implies #[trigger] l[k] != '\n' by {
                if k >= 4 {
                    assert(l[k] == x[k - 4]);
                }
            }
        },
        MStmt::Instr(Op::Push(v)) => {
            let st = as_stmt(s);
            lemma_stmt_line(st);
            lemma_int_decimal_word(v);
            lemma_int_decimal_reads_back(v);
            let d = crate::integer::int_decimal(v);
            lemma_words_two("push"@, d);
            let ws = split_words(l);
            assert(ws[0] != "label"@ && ws[0] != "newlabel"@);
            assert(d[0] == '-' || ('0' <= d[0] <= '9')) by {
                if v >= 0 {
                    crate::piet_stack::read_back::lemma_nat_decimal(v as nat);
                }
            }
            assert(push_argument(ws[1]) == Some(v));
        },
        MStmt::Goto(t) => {
            lemma_stmt_line(as_stmt(s));
            lemma_words_two("goto"@, t);
            let ws = split_words(l);
            assert(ws[0] != "label"@ && ws[0] != "newlabel"@ && ws[0] != "push"@);
        },
        MStmt::Branch(a, b) => {
            lemma_stmt_line(as_stmt(s));
            lemma_words_three("branch"@, a, b);
        },
        MStmt::Comment(c) => {
            lemma_stmt_line(as_stmt(s));
        },
        _ => {
            let st = as_stmt(s);
            assert(l == stmt_line(st));
            lemma_stmt_line(st);
            lemma_keyword(st);
            lemma_words_one(l);
            assert(!(l.len() > 4 && l.take(4) == "lib_"@)) by {
                if l.len() > 4 && l.take(4) == "lib_"@ {
                    assert(l.take(4)[0] == l[0]);
                }
            }
        },
    }
}

/// The `use` line of an import.
pub open spec fn use_line(n: Seq<char>, p: Seq<char>) -> Seq<char> {
    "use"@ + seq![' '] + n + seq![' '] + p
}

/// The `use` lines of the imports.
pub open spec fn import_lines(es: Seq<(Seq<char>, Seq<char>)>) -> Seq<Seq<char>>
    decreases es.len(),
{
    if es.len() == 0 {
        seq![]
    } else {
        import_lines(es.drop_last()).push(use_line(es.last().0, es.last().1))
    }
}

/// The `var` line of a variable.
pub open spec fn var_line(n: Seq<char>, t: VariableType) -> Seq<char> {
    "var"@ + seq![' '] + n + seq![' '] + type_word(t)
}

/// The variables written, in the order of `order`: those that are no
/// register, each with its kind.
pub open spec fn written_vars(
    order: Seq<(Seq<char>, usize)>,
    vars: Seq<(Seq<char>, VarView)>,
    registers: usize,
) -> Seq<(Seq<char>, VariableType)>
    decreases order.len(),
{
    if order.len() == 0 {
        seq![]
    } else {
        let (n, slot) = order.last();
        written_vars(order.drop_last(), vars, registers) + if slot < registers {
            Seq::<(Seq<char>, VariableType)>::empty()
        } else {
            match lookup(vars, n) {
                Some(v) => seq![(n, v.var_type)],
                None => Seq::<(Seq<char>, VariableType)>::empty(),
            }
        }
    }
}

/// The `var` lines of declarations.
pub open spec fn var_lines(d: Seq<(Seq<char>, VariableType)>) -> Seq<Seq<char>>
    decreases d.len(),
{
    if d.len() == 0 {
        seq![]
    } else {
        var_lines(d.drop_last()).push(var_line(d.last().0, d.last().1))
    }
}

/// The lines of a block's statements (`Nop` has none).
pub open spec fn mstmt_lines(ss: Seq<MStmt>) -> Seq<Seq<char>>
    decreases ss.len(),
{
    if ss.len() == 0 {
        seq![]
    } else {
        mstmt_lines(ss.drop_last()) + if ss.last() == MStmt::Instr(Op::Nop) {
            Seq::<Seq<char>>::empty()
        } else {
            seq![mstmt_line(ss.last())]
        }
    }
}

/// The statements other than `Nop`.
pub open spec fn mwithout_nops(ss: Seq<MStmt>) -> Seq<MStmt>
    decreases ss.len(),
{
    if ss.len() == 0 {
        seq![]
    } else {
        mwithout_nops(ss.drop_last()) + if ss.last() == MStmt::Instr(Op::Nop) {
            Seq::<MStmt>::empty()
        } else {
            seq![ss.last()]
        }
    }
}

/// The lines of the blocks of `order` but `term`: a `label` line (none for
/// `main`), the statements' lines, and an empty line.
pub open spec fn mblock_lines(bv: Seq<(Seq<char>, Seq<MStmt>)>, order: Seq<(Seq<char>, usize)>) -> Seq<Seq<char>>
    decreases order.len(),
{
    if order.len() == 0 {
        seq![]
    } else {
        let n = order.last().0;
        mblock_lines(bv, order.drop_last()) + if n == term_label() {
            Seq::<Seq<char>>::empty()
        } else {
            (if n == main_label() {
                Seq::<Seq<char>>::empty()
            } else {
                seq![label_line(n)]
            }) + mstmt_lines(lookup(bv, n).unwrap()) + seq![Seq::<char>::empty()]
        }
    }
}

/// The lines of a program's text.
pub open spec fn program_lines(e: SmplExecutor) -> Seq<Seq<char>> {
    let vars = var_views(e.variables.entries());
    import_lines(text_views(e.imports.entries())) + seq![Seq::<char>::empty()] + var_lines(
        written_vars(sort_by_number(var_slots(vars)), vars, e.registers),
    ) + seq![Seq::<char>::empty()] + mblock_lines(mblock_views(e.blocks.entries()), sort_by_number(e.block_index.entries()))
}

/// The empty line, joined, is a newline.
proof fn lemma_joined_blank()
    ensures
        joined(seq![Seq::<char>::empty()]) == seq!['\n'],
{
    assert(seq![Seq::<char>::empty()].drop_last() =~= Seq::<Seq<char>>::empty());
    assert(joined(Seq::<Seq<char>>::empty()) == Seq::<char>::empty());
    assert(Seq::<char>::empty() + Seq::<char>::empty() + seq!['\n'] =~= seq!['\n']);
}

/// One line, joined, is the line and a newline.
proof fn lemma_joined_one(l: Seq<char>)
    ensures
        joined(seq![l]) == l + seq!['\n'],
{
    assert(seq![l].drop_last() =~= Seq::<Seq<char>>::empty());
    assert(joined(Seq::<Seq<char>>::empty()) == Seq::<char>::empty());
    assert(Seq::<char>::empty() + l + seq!['\n'] =~= l + seq!['\n']);
}

/// The imports' text is their lines, joined.
proof fn lemma_imports_text(es: Seq<(Seq<char>, Seq<char>)>)
    ensures
        imports_text(es) == joined(import_lines(es)),
    decreases es.len(),
{
    reveal_strlit("use ");
    reveal_strlit("use");
    if es.len() > 0 {
        lemma_imports_text(es.drop_last());
        let l = use_line(es.last().0, es.last().1);
        assert(import_lines(es).drop_last() =~= import_lines(es.drop_last()));
        assert(imports_text(es) =~= joined(import_lines(es.drop_last())) + l + seq!['\n']);
    }
}

/// The variables' text is their lines, joined.
proof fn lemma_vars_text(order: Seq<(Seq<char>, usize)>, vars: Seq<(Seq<char>, VarView)>, registers: usize)
    ensures
        vars_text(order, vars, registers) == joined(var_lines(written_vars(order, vars, registers))),
    decreases order.len(),
{
    reveal_strlit("var ");
    reveal_strlit("var");
    if order.len() > 0 {
        let init = order.drop_last();
        lemma_vars_text(init, vars, registers);
        let (n, slot) = order.last();
        let d0 = written_vars(init, vars, registers);
        if slot < registers {
            assert(written_vars(order, vars, registers) =~= d0);
        } else {
            match lookup(vars, n) {
                Some(v) => {
                    let d = written_vars(order, vars, registers);
                    assert(d =~= d0.push((n, v.var_type)));
                    assert(d.drop_last() =~= d0);
                    assert(var_lines(d) == var_lines(d0).push(var_line(n, v.var_type)));
                    assert(var_lines(d).drop_last() =~= var_lines(d0));
                    assert("var "@ + n + seq![' '] + type_word(v.var_type) + seq!['\n'] =~= var_line(
                        n,
                        v.var_type,
                    ) + seq!['\n']);
                    assert(vars_text(order, vars, registers) =~= joined(var_lines(d)));
                },
                None => {
                    assert(written_vars(order, vars, registers) =~= d0);
                },
            }
        }
    }
}

/// A block's statements' text is their lines, joined.
proof fn lemma_mblock_text(ss: Seq<MStmt>)
    requires
        forall|k: int| 0 <= k < ss.len() ==> !(#[trigger] ss[k] is Lib),
    ensures
        mblock_text(ss) == joined(mstmt_lines(ss)),
    decreases ss.len(),
{
    if ss.len() > 0 {
        let init = ss.drop_last();
        assert forall|k: int| 0 <= k < init.len() implies !(#[trigger] init[k] is Lib) by {
            assert(init[k] == ss[k]);
        }
        lemma_mblock_text(init);
        let x = ss.last();
        assert(!(ss[ss.len() - 1] is Lib));
        lemma_mstmt_text(x);
        if x == MStmt::Instr(Op::Nop) {
            assert(mstmt_lines(ss) =~= mstmt_lines(init));
            assert(mblock_text(ss) =~= mblock_text(init));
        } else {
            assert(mstmt_lines(ss) =~= mstmt_lines(init).push(mstmt_line(x)));
            assert(mstmt_lines(ss).drop_last() =~= mstmt_lines(init));
            assert(mstmt_line(x).push('\n') =~= mstmt_line(x) + seq!['\n']);
        }
    }
}

/// Whether no block of `order` includes a library.
pub open spec fn no_libs(bv: Seq<(Seq<char>, Seq<MStmt>)>, order: Seq<(Seq<char>, usize)>) -> bool {
    forall|i: int, k: int|
        0 <= i < order.len() && order[i].0 != term_label() && 0 <= k < lookup(bv, order[i].0).unwrap().len()
            ==> !(#[trigger] lookup(bv, order[i].0).unwrap()[k] is Lib)
}

/// The blocks' text is their lines, joined.
proof fn lemma_blocks_text(bv: Seq<(Seq<char>, Seq<MStmt>)>, order: Seq<(Seq<char>, usize)>)
    requires
        no_libs(bv, order),
    ensures
        blocks_text(bv, order) == joined(mblock_lines(bv, order)),
    decreases order.len(),
{
    reveal_strlit("label ");
    reveal_strlit("label");
    if order.len() > 0 {
        let init = order.drop_last();
        assert(no_libs(bv, init)) by {
            assert forall|i: int, k: int|
                0 <= i < init.len() && init[i].0 != term_label() && 0 <= k < lookup(bv, init[i].0).unwrap().len()
                    implies !(#[trigger] lookup(bv, init[i].0).unwrap()[k] is Lib) by {
                assert(init[i] == order[i]);
            }
        }
        lemma_blocks_text(bv, init);
        let n = order.last().0;
        let prev = mblock_lines(bv, init);
        if n == term_label() {
            assert(mblock_lines(bv, order) =~= prev);
        } else {
            let ss = lookup(bv, n).unwrap();
            assert forall|k: int| 0 <= k < ss.len() implies !(#[trigger] ss[k] is Lib) by {
                assert(order[order.len() - 1].0 == n);
            }
            lemma_mblock_text(ss);
            let head = if n == main_label() {
                Seq::<Seq<char>>::empty()
            } else {
                seq![label_line(n)]
            };
            let part = head + mstmt_lines(ss) + seq![Seq::<char>::empty()];
            assert(mblock_lines(bv, order) =~= prev + part);
            lemma_joined_concat(prev, part);
            lemma_joined_concat(head + mstmt_lines(ss), seq![Seq::<char>::empty()]);
            lemma_joined_concat(head, mstmt_lines(ss));
            lemma_joined_blank();
            if n == main_label() {
                assert(joined(head) == Seq::<char>::empty());
            } else {
                lemma_joined_one(label_line(n));
                assert("label "@ + n + seq!['\n'] =~= label_line(n) + seq!['\n']);
            }
            assert(blocks_text(bv, order) =~= joined(mblock_lines(bv, order)));
        }
    }
}

/// A program's text is its lines, joined.
proof fn lemma_program_text(e: SmplExecutor)
    requires
        no_libs(mblock_views(e.blocks.entries()), sort_by_number(e.block_index.entries())),
    ensures
        e.text() == joined(program_lines(e)),
{
    let vars = var_views(e.variables.entries());
    let a = import_lines(text_views(e.imports.entries()));
    let b = var_lines(written_vars(sort_by_number(var_slots(vars)), vars, e.registers));
    let c = mblock_lines(mblock_views(e.blocks.entries()), sort_by_number(e.block_index.entries()));
    let blank = seq![Seq::<char>::empty()];
    lemma_imports_text(text_views(e.imports.entries()));
    lemma_vars_text(sort_by_number(var_slots(vars)), vars, e.registers);
    lemma_blocks_text(mblock_views(e.blocks.entries()), sort_by_number(e.block_index.entries()));
    lemma_joined_blank();
    lemma_joined_concat(a, blank);
    lemma_joined_concat(a + blank, b);
    lemma_joined_concat(a + blank + b, blank);
    lemma_joined_concat(a + blank + b + blank, c);
    assert(e.text() =~= joined(program_lines(e)));
}

/// Reading one more line on top of what some lines read.
proof fn lemma_mid_read_push(
    st: SmplReading,
    lines: Seq<Seq<char>>,
    l: Seq<char>,
    depth: nat,
    libs: Seq<(Seq<char>, Seq<char>)>,
)
    requires
        read_mid_lines(st, lines, true, depth, libs).error is None,
    ensures
        read_mid_lines(st, lines.push(l), true, depth, libs) == read_mid_line(
            read_mid_lines(st, lines, true, depth, libs),
            l,
            lines.len() + 1,
            true,
            depth,
            libs,
        ),
{
    assert(lines.push(l).drop_last() =~= lines);
}

/// A `use` line reads as the import.
proof fn lemma_use_line(n: Seq<char>, p: Seq<char>)
    requires
        is_word(n),
        is_word(p),
    ensures
        mid_line(use_line(n, p)) == RawLine::Use(n, p),
        one_line(use_line(n, p)),
{
    reveal_strlit("use");
    reveal_strlit("branch");
    lemma_words_three("use"@, n, p);
    let l = use_line(n, p);
    assert(l[0] == 'u');
    assert forall|k: int| 0 <= k < l.len() implies #[trigger] l[k] != '\n' by {
        if 4 <= k < 4 + n.len() {
            assert(l[k] == n[k - 4]);
        } else if k >= 5 + n.len() {
            assert(l[k] == p[k - 5 - n.len()]);
        }
    }
}

/// A `var` line reads as the declaration.
proof fn lemma_var_line(n: Seq<char>, t: VariableType)
    requires
        is_word(n),
    ensures
        mid_line(var_line(n, t)) == RawLine::Var(n, type_word(t)),
        one_line(var_line(n, t)),
{
    reveal_strlit("var");
    reveal_strlit("use");
    reveal_strlit("branch");
    reveal_strlit("num");
    reveal_strlit("list");
    assert(is_word(type_word(t)));
    lemma_words_three("var"@, n, type_word(t));
    let l = var_line(n, t);
    assert(l[0] == 'v');
    assert forall|k: int| 0 <= k < l.len() implies #[trigger] l[k] != '\n' by {
        if 4 <= k < 4 + n.len() {
            assert(l[k] == n[k - 4]);
        } else if k >= 5 + n.len() {
            assert(l[k] == type_word(t)[k - 5 - n.len()]);
        }
    }
}

/// A `label` line reads as the start of a block.
proof fn lemma_mid_label_line(n: Seq<char>)
    requires
        is_word(n),
    ensures
        mid_line(label_line(n)) == RawLine::Label(n),
{
    reveal_strlit("label");
    lemma_words_two("label"@, n);
    assert(label_line(n)[0] == 'l');
}

/// An empty line is blank.
proof fn lemma_blank_line()
    ensures
        mid_line(Seq::<char>::empty()) == RawLine::Blank,
{
    assert(split_words(Seq::<char>::empty()) =~= Seq::<Seq<char>>::empty());
}

/// The imports after inserting each of `es` in turn.
pub open spec fn insert_all(im: Seq<(Seq<char>, Seq<char>)>, es: Seq<(Seq<char>, Seq<char>)>) -> Seq<(Seq<char>, Seq<char>)>
    decreases es.len(),
{
    if es.len() == 0 {
        im
    } else {
        entries_insert(insert_all(im, es.drop_last()), es.last().0, es.last().1)
    }
}

/// The variables after declaring each of `d` in turn, each in the next
/// slot (a name declared again is replaced in place).
pub open spec fn declared(vars: Seq<(Seq<char>, VarView)>, d: Seq<(Seq<char>, VariableType)>) -> Seq<(Seq<char>, VarView)>
    decreases d.len(),
{
    if d.len() == 0 {
        vars
    } else {
        let p = declared(vars, d.drop_last());
        let t = d.last().1;
        entries_insert(p, d.last().0, VarView { var_type: t, value: initial_value_of(t), var_index: p.len() as usize })
    }
}

/// Reading `use` lines while the header is open records the imports.
proof fn lemma_read_uses(
    st: SmplReading,
    lines: Seq<Seq<char>>,
    es: Seq<(Seq<char>, Seq<char>)>,
    depth: nat,
    libs: Seq<(Seq<char>, Seq<char>)>,
)
    requires
        read_mid_lines(st, lines, true, depth, libs).error is None,
        read_mid_lines(st, lines, true, depth, libs).header,
        forall|i: int| 0 <= i < es.len() ==> is_word(#[trigger] es[i].0) && is_word(es[i].1),
    ensures
        read_mid_lines(st, lines + import_lines(es), true, depth, libs) == (SmplReading {
            imports: insert_all(read_mid_lines(st, lines, true, depth, libs).imports, es),
            ..read_mid_lines(st, lines, true, depth, libs)
        }),
    decreases es.len(),
{
    let r = read_mid_lines(st, lines, true, depth, libs);
    if es.len() == 0 {
        assert(lines + import_lines(es) =~= lines);
    } else {
        let init = es.drop_last();
        assert forall|i: int| 0 <= i < init.len() implies is_word(#[trigger] init[i].0) && is_word(init[i].1) by {
            assert(init[i] == es[i]);
        }
        lemma_read_uses(st, lines, init, depth, libs);
        let before = lines + import_lines(init);
        assert(lines + import_lines(es) =~= before.push(use_line(es.last().0, es.last().1)));
        assert(is_word(es[es.len() - 1].0) && is_word(es[es.len() - 1].1));
        lemma_use_line(es.last().0, es.last().1);
        lemma_mid_read_push(st, before, use_line(es.last().0, es.last().1), depth, libs);
    }
}

/// Reading `var` lines while the header is open declares the variables.
proof fn lemma_read_vars(
    st: SmplReading,
    lines: Seq<Seq<char>>,
    d: Seq<(Seq<char>, VariableType)>,
    depth: nat,
    libs: Seq<(Seq<char>, Seq<char>)>,
)
    requires
        read_mid_lines(st, lines, true, depth, libs).error is None,
        read_mid_lines(st, lines, true, depth, libs).header,
        forall|i: int| 0 <= i < d.len() ==> is_word(#[trigger] d[i].0),
    ensures
        read_mid_lines(st, lines + var_lines(d), true, depth, libs) == (SmplReading {
            variables: declared(read_mid_lines(st, lines, true, depth, libs).variables, d),
            ..read_mid_lines(st, lines, true, depth, libs)
        }),
    decreases d.len(),
{
    reveal_strlit("num");
    reveal_strlit("list");
    if d.len() == 0 {
        assert(lines + var_lines(d) =~= lines);
    } else {
        let init = d.drop_last();
        assert forall|i: int| 0 <= i < init.len() implies is_word(#[trigger] init[i].0) by {
            assert(init[i] == d[i]);
        }
        lemma_read_vars(st, lines, init, depth, libs);
        let before = lines + var_lines(init);
        let (n, t) = d.last();
        assert(lines + var_lines(d) =~= before.push(var_line(n, t)));
        assert(is_word(d[d.len() - 1].0));
        lemma_var_line(n, t);
        lemma_mid_read_push(st, before, var_line(n, t), depth, libs);
        assert("num"@ != "list"@);
    }
}

/// The blocks read back from the blocks of `order` but `term`: `main`
/// first, then the others in order, each with its statements other than
/// `Nop`.
pub open spec fn listed_mblocks(bv: Seq<(Seq<char>, Seq<MStmt>)>, order: Seq<(Seq<char>, usize)>) -> Seq<(Seq<char>, Seq<MStmt>)>
    decreases order.len(),
{
    if order.len() == 0 {
        seq![(main_label(), Seq::<MStmt>::empty())]
    } else {
        let n = order.last().0;
        let prev = listed_mblocks(bv, order.drop_last());
        if n == term_label() {
            prev
        } else if n == main_label() {
            prev.update(0, (main_label(), prev[0].1 + mwithout_nops(lookup(bv, n).unwrap())))
        } else {
            prev.push((n, mwithout_nops(lookup(bv, n).unwrap())))
        }
    }
}

/// The numbers read back: `main` 0, the other blocks of `order` but
/// `term` numbered on in order.
pub open spec fn listed_mindex(order: Seq<(Seq<char>, usize)>) -> Seq<(Seq<char>, usize)>
    decreases order.len(),
{
    if order.len() == 0 {
        seq![(main_label(), 0usize)]
    } else {
        let n = order.last().0;
        let prev = listed_mindex(order.drop_last());
        if n == term_label() || n == main_label() {
            prev
        } else {
            prev.push((n, prev.len() as usize))
        }
    }
}

/// The block current after reading the blocks of `order`.
pub open spec fn last_current(order: Seq<(Seq<char>, usize)>) -> Seq<char>
    decreases order.len(),
{
    if order.len() == 0 {
        main_label()
    } else if order.last().0 == term_label() {
        last_current(order.drop_last())
    } else {
        order.last().0
    }
}

/// A target that does not start with `@` names itself.
proof fn lemma_resolve_plain(s: MStmt)
    requires
        mlistable(s),
    ensures
        resolve_stmt(seq![], s) == Some(s),
{
}

/// Reading statements' lines appends them to the current block, the last
/// one read.
proof fn lemma_read_mstmts(
    st: SmplReading,
    lines: Seq<Seq<char>>,
    bs: Seq<(Seq<char>, Seq<MStmt>)>,
    name: Seq<char>,
    x: Seq<MStmt>,
    ss: Seq<MStmt>,
    depth: nat,
    libs: Seq<(Seq<char>, Seq<char>)>,
)
    requires
        read_mid_lines(st, lines, true, depth, libs).error is None,
        read_mid_lines(st, lines, true, depth, libs).current == name,
        read_mid_lines(st, lines, true, depth, libs).blocks == bs.push((name, x)),
        read_mid_lines(st, lines, true, depth, libs).label_map == Seq::<(Seq<char>, Seq<char>)>::empty(),
        !has_name(bs, name),
        forall|k: int| 0 <= k < ss.len() ==> mlistable(#[trigger] ss[k]),
    ensures
        ({
            let r = read_mid_lines(st, lines, true, depth, libs);
            let q = read_mid_lines(st, lines + mstmt_lines(ss), true, depth, libs);
            &&& q.error is None
            &&& q.blocks == bs.push((name, x + mwithout_nops(ss)))
            &&& q.index == r.index
            &&& q.current == r.current
            &&& q.variables == r.variables
            &&& q.imports == r.imports
            &&& q.label_map == r.label_map
            &&& q.label_count == r.label_count
        }),
    decreases ss.len(),
{
    if ss.len() == 0 {
        assert(lines + mstmt_lines(ss) =~= lines);
        assert(x + mwithout_nops(ss) =~= x);
    } else {
        let init = ss.drop_last();
        let s = ss.last();
        assert forall|k: int| 0 <= k < init.len() implies mlistable(#[trigger] init[k]) by {
            assert(init[k] == ss[k]);
        }
        lemma_read_mstmts(st, lines, bs, name, x, init, depth, libs);
        let before = lines + mstmt_lines(init);
        if s == MStmt::Instr(Op::Nop) {
            assert(lines + mstmt_lines(ss) =~= before);
            assert(x + mwithout_nops(ss) =~= x + mwithout_nops(init));
        } else {
            assert(mlistable(ss[ss.len() - 1]));
            lemma_mstmt_line(s);
            lemma_resolve_plain(s);
            assert(lines + mstmt_lines(ss) =~= before.push(mstmt_line(s)));
            lemma_mid_read_push(st, before, mstmt_line(s), depth, libs);
            let blocks2 = bs.push((name, x + mwithout_nops(init)));
            assert(blocks2[bs.len() as int].0 == name);
            let i = choose|i: int| 0 <= i < blocks2.len() && #[trigger] blocks2[i].0 == name;
            assert(0 <= i < blocks2.len() && blocks2[i].0 == name);
            if i < bs.len() {
                assert(blocks2[i] == bs[i]);
                assert(has_name(bs, name));
            }
            assert(mwithout_nops(ss) =~= mwithout_nops(init) + seq![s]);
            assert((x + mwithout_nops(init)).push(s) =~= x + mwithout_nops(ss));
            assert(append_mstmt(blocks2, name, s) =~= bs.push((name, x + mwithout_nops(ss))));
        }
    }
}

/// The blocks and numbers read back have the same names, `main` first,
/// the others from `order`.
proof fn lemma_listed_names(bv: Seq<(Seq<char>, Seq<MStmt>)>, order: Seq<(Seq<char>, usize)>)
    ensures
        listed_mblocks(bv, order).len() == listed_mindex(order).len(),
        listed_mblocks(bv, order).len() >= 1,
        listed_mblocks(bv, order)[0].0 == main_label(),
        forall|i: int| 0 <= i < listed_mblocks(bv, order).len() ==> #[trigger] listed_mblocks(bv, order)[i].0
            == listed_mindex(order)[i].0,
        forall|i: int|
            0 <= i < listed_mblocks(bv, order).len() ==> #[trigger] listed_mblocks(bv, order)[i].0 == main_label()
                || has_name(order, listed_mblocks(bv, order)[i].0),
    decreases order.len(),
{
    if order.len() > 0 {
        let init = order.drop_last();
        lemma_listed_names(bv, init);
        let lb = listed_mblocks(bv, order);
        let pb = listed_mblocks(bv, init);
        assert forall|i: int| 0 <= i < lb.len() implies #[trigger] lb[i].0 == main_label() || has_name(order, lb[i].0) by {
            if i < pb.len() {
                if pb[i].0 != main_label() {
                    let j = choose|j: int| 0 <= j < init.len() && #[trigger] init[j].0 == pb[i].0;
                    assert(order[j] == init[j]);
                }
            } else {
                assert(order[order.len() - 1].0 == lb[i].0);
            }
        }
    }
}

/// Whether the blocks of `order` read back: names distinct, `main` first,
/// the other names (but `term`) plain words, and every statement listable.
pub open spec fn mblocks_listable(bv: Seq<(Seq<char>, Seq<MStmt>)>, order: Seq<(Seq<char>, usize)>) -> bool {
    &&& names_distinct(order)
    &&& order.len() > 0 ==> order[0].0 == main_label()
    &&& forall|i: int|
        0 <= i < order.len() && order[i].0 != main_label() && order[i].0 != term_label() ==> is_target(
            #[trigger] order[i].0,
        )
    &&& forall|i: int, k: int|
        0 <= i < order.len() && order[i].0 != term_label() && 0 <= k < lookup(bv, order[i].0).unwrap().len()
            ==> mlistable(#[trigger] lookup(bv, order[i].0).unwrap()[k])
}

/// Reading the blocks' lines on top of the initial blocks gives the listed
/// blocks and numbers.
#[verifier::rlimit(40)]
proof fn lemma_read_mblocks(
    st: SmplReading,
    lines: Seq<Seq<char>>,
    bv: Seq<(Seq<char>, Seq<MStmt>)>,
    order: Seq<(Seq<char>, usize)>,
    depth: nat,
    libs: Seq<(Seq<char>, Seq<char>)>,
)
    requires
        read_mid_lines(st, lines, true, depth, libs).error is None,
        read_mid_lines(st, lines, true, depth, libs).blocks == seq![(main_label(), Seq::<MStmt>::empty())],
        read_mid_lines(st, lines, true, depth, libs).index == seq![(main_label(), 0usize)],
        read_mid_lines(st, lines, true, depth, libs).current == main_label(),
        read_mid_lines(st, lines, true, depth, libs).label_map == Seq::<(Seq<char>, Seq<char>)>::empty(),
        mblocks_listable(bv, order),
    ensures
        ({
            let r = read_mid_lines(st, lines, true, depth, libs);
            let q = read_mid_lines(st, lines + mblock_lines(bv, order), true, depth, libs);
            &&& q.error is None
            &&& q.blocks == listed_mblocks(bv, order)
            &&& q.index == listed_mindex(order)
            &&& q.current == last_current(order)
            &&& q.variables == r.variables
            &&& q.imports == r.imports
            &&& q.label_map == r.label_map
            &&& q.label_count == r.label_count
        }),
    decreases order.len(),
{
    let r = read_mid_lines(st, lines, true, depth, libs);
    if order.len() == 0 {
        assert(lines + mblock_lines(bv, order) =~= lines);
    } else {
        let init = order.drop_last();
        let n = order.last().0;
        assert(mblocks_listable(bv, init)) by {
            assert forall|i: int, j: int| 0 <= i < j < init.len() implies #[trigger] init[i].0 != #[trigger] init[j].0 by {
                assert(init[i] == order[i] && init[j] == order[j]);
            }
            assert forall|i: int|
                0 <= i < init.len() && init[i].0 != main_label() && init[i].0 != term_label() implies is_target(
                #[trigger] init[i].0,
            ) by {
                assert(init[i] == order[i]);
            }
            assert forall|i: int, k: int|
                0 <= i < init.len() && init[i].0 != term_label() && 0 <= k < lookup(bv, init[i].0).unwrap().len()
                    implies mlistable(#[trigger] lookup(bv, init[i].0).unwrap()[k]) by {
                assert(init[i] == order[i]);
            }
            if init.len() > 0 {
                assert(init[0] == order[0]);
            }
        }
        lemma_read_mblocks(st, lines, bv, init, depth, libs);
        let before = lines + mblock_lines(bv, init);
        let q0 = read_mid_lines(st, before, true, depth, libs);
        let last = order.len() - 1;
        if n == term_label() {
            assert(lines + mblock_lines(bv, order) =~= before);
        } else {
            let ss = lookup(bv, n).unwrap();
            assert forall|k: int| 0 <= k < ss.len() implies mlistable(#[trigger] ss[k]) by {
                assert(order[last].0 == n);
            }
            lemma_listed_names(bv, init);
            let pb = listed_mblocks(bv, init);
            let pi = listed_mindex(init);
            lemma_blank_line();
            if n == main_label() {
                assert(last == 0) by {
                    if last > 0 {
                        assert(order[0].0 == order[last].0);
                    }
                }
                assert(init.len() == 0);
                assert(before =~= lines);
                lemma_read_mstmts(st, before, Seq::<(Seq<char>, Seq<MStmt>)>::empty(), n, Seq::<MStmt>::empty(), ss, depth, libs);
                assert(seq![(main_label(), Seq::<MStmt>::empty())] =~= Seq::<(Seq<char>, Seq<MStmt>)>::empty().push((n, Seq::<MStmt>::empty())));
                let mid = before + mstmt_lines(ss);
                lemma_mid_read_push(st, mid, Seq::<char>::empty(), depth, libs);
                assert(lines + mblock_lines(bv, order) =~= mid.push(Seq::<char>::empty()));
                assert(Seq::<MStmt>::empty() + mwithout_nops(ss) =~= mwithout_nops(ss));
                assert(listed_mblocks(bv, order) =~= Seq::<(Seq<char>, Seq<MStmt>)>::empty().push((n, mwithout_nops(ss))));
            } else {
                assert(is_target(order[last].0));
                lemma_mid_label_line(n);
                lemma_mid_read_push(st, before, label_line(n), depth, libs);
                let b1 = before.push(label_line(n));
                assert(!has_name(pb, n)) by {
                    if has_name(pb, n) {
                        let i = choose|i: int| 0 <= i < pb.len() && #[trigger] pb[i].0 == n;
                        assert(pb[i].0 == main_label() || has_name(init, pb[i].0));
                        if has_name(init, n) {
                            let j = choose|j: int| 0 <= j < init.len() && #[trigger] init[j].0 == n;
                            assert(order[j].0 == order[last].0);
                        }
                    }
                }
                assert(!has_name(pi, n)) by {
                    if has_name(pi, n) {
                        let i = choose|i: int| 0 <= i < pi.len() && #[trigger] pi[i].0 == n;
                        assert(pb[i].0 == pi[i].0);
                    }
                }
                assert(n[0] != '@');
                let r1 = read_mid_lines(st, b1, true, depth, libs);
                assert(r1.blocks == pb.push((n, Seq::<MStmt>::empty())));
                assert(r1.index == pi.push((n, pi.len() as usize)));
                lemma_read_mstmts(st, b1, pb, n, Seq::<MStmt>::empty(), ss, depth, libs);
                let mid = b1 + mstmt_lines(ss);
                lemma_mid_read_push(st, mid, Seq::<char>::empty(), depth, libs);
                assert(lines + mblock_lines(bv, order) =~= mid.push(Seq::<char>::empty()));
                assert(Seq::<MStmt>::empty() + mwithout_nops(ss) =~= mwithout_nops(ss));
            }
        }
    }
}

/// Every line of the imports is one line.
proof fn lemma_import_lines_one_line(es: Seq<(Seq<char>, Seq<char>)>)
    requires
        forall|i: int| 0 <= i < es.len() ==> is_word(#[trigger] es[i].0) && is_word(es[i].1),
    ensures
        forall|i: int| 0 <= i < import_lines(es).len() ==> one_line(#[trigger] import_lines(es)[i]),
        import_lines(es).len() == es.len(),
    decreases es.len(),
{
    if es.len() > 0 {
        let init = es.drop_last();
        assert forall|i: int| 0 <= i < init.len() implies is_word(#[trigger] init[i].0) && is_word(init[i].1) by {
            assert(init[i] == es[i]);
        }
        lemma_import_lines_one_line(init);
        assert(is_word(es[es.len() - 1].0) && is_word(es[es.len() - 1].1));
        lemma_use_line(es.last().0, es.last().1);
    }
}

/// Every `var` line is one line.
proof fn lemma_var_lines_one_line(d: Seq<(Seq<char>, VariableType)>)
    requires
        forall|i: int| 0 <= i < d.len() ==> is_word(#[trigger] d[i].0),
    ensures
        forall|i: int| 0 <= i < var_lines(d).len() ==> one_line(#[trigger] var_lines(d)[i]),
        var_lines(d).len() == d.len(),
    decreases d.len(),
{
    if d.len() > 0 {
        let init = d.drop_last();
        assert forall|i: int| 0 <= i < init.len() implies is_word(#[trigger] init[i].0) by {
            assert(init[i] == d[i]);
        }
        lemma_var_lines_one_line(init);
        assert(is_word(d[d.len() - 1].0));
        lemma_var_line(d.last().0, d.last().1);
    }
}

/// Every statement line is one line.
proof fn lemma_mstmt_lines_one_line(ss: Seq<MStmt>)
    requires
        forall|k: int| 0 <= k < ss.len() ==> mlistable(#[trigger] ss[k]),
    ensures
        forall|i: int| 0 <= i < mstmt_lines(ss).len() ==> one_line(#[trigger] mstmt_lines(ss)[i]),
    decreases ss.len(),
{
    if ss.len() > 0 {
        let init = ss.drop_last();
        assert forall|k: int| 0 <= k < init.len() implies mlistable(#[trigger] init[k]) by {
            assert(init[k] == ss[k]);
        }
        lemma_mstmt_lines_one_line(init);
        let x = ss.last();
        assert(mlistable(ss[ss.len() - 1]));
        if x != MStmt::Instr(Op::Nop) {
            lemma_mstmt_line(x);
        }
        let all = mstmt_lines(ss);
        let prev = mstmt_lines(init);
        assert forall|i: int| 0 <= i < all.len() implies one_line(#[trigger] all[i]) by {
            if i < prev.len() {
                assert(all[i] == prev[i]);
            } else {
                assert(all[i] == mstmt_line(x));
            }
        }
    }
}

/// Every line of the blocks is one line.
proof fn lemma_mblock_lines_one_line(bv: Seq<(Seq<char>, Seq<MStmt>)>, order: Seq<(Seq<char>, usize)>)
    requires
        mblocks_listable(bv, order),
    ensures
        forall|i: int| 0 <= i < mblock_lines(bv, order).len() ==> one_line(#[trigger] mblock_lines(bv, order)[i]),
    decreases order.len(),
{
    if order.len() > 0 {
        let init = order.drop_last();
        let n = order.last().0;
        let last = order.len() - 1;
        assert(mblocks_listable(bv, init)) by {
            assert forall|i: int, j: int| 0 <= i < j < init.len() implies #[trigger] init[i].0 != #[trigger] init[j].0 by {
                assert(init[i] == order[i] && init[j] == order[j]);
            }
            assert forall|i: int|
                0 <= i < init.len() && init[i].0 != main_label() && init[i].0 != term_label() implies is_target(
                #[trigger] init[i].0,
            ) by {
                assert(init[i] == order[i]);
            }
            assert forall|i: int, k: int|
                0 <= i < init.len() && init[i].0 != term_label() && 0 <= k < lookup(bv, init[i].0).unwrap().len()
                    implies mlistable(#[trigger] lookup(bv, init[i].0).unwrap()[k]) by {
                assert(init[i] == order[i]);
            }
            if init.len() > 0 {
                assert(init[0] == order[0]);
            }
        }
        lemma_mblock_lines_one_line(bv, init);
        let prev = mblock_lines(bv, init);
        let all = mblock_lines(bv, order);
        if n != term_label() {
            let ss = lookup(bv, n).unwrap();
            assert forall|k: int| 0 <= k < ss.len() implies mlistable(#[trigger] ss[k]) by {
                assert(order[last].0 == n);
            }
            lemma_mstmt_lines_one_line(ss);
            let head = if n == main_label() {
                Seq::<Seq<char>>::empty()
            } else {
                seq![label_line(n)]
            };
            if n != main_label() {
                assert(is_target(order[last].0));
                lemma_label_line(n);
            }
            let part = head + mstmt_lines(ss) + seq![Seq::<char>::empty()];
            assert(all =~= prev + part);
            assert forall|i: int| 0 <= i < all.len() implies one_line(#[trigger] all[i]) by {
                if i < prev.len() {
                    assert(all[i] == prev[i]);
                } else if i < prev.len() + head.len() {
                    assert(all[i] == head[i - prev.len()]);
                } else if i < prev.len() + head.len() + mstmt_lines(ss).len() {
                    assert(all[i] == mstmt_lines(ss)[i - prev.len() - head.len()]);
                } else {
                    assert(all[i] == Seq::<char>::empty());
                }
            }
        } else {
            assert(all =~= prev);
        }
    }
}

/// Inserting entries with distinct names into nothing gives them back.
proof fn lemma_insert_all_distinct(es: Seq<(Seq<char>, Seq<char>)>)
    requires
        names_distinct(es),
    ensures
        insert_all(seq![], es) == es,
    decreases es.len(),
{
    if es.len() > 0 {
        let init = es.drop_last();
        assert(names_distinct(init)) by {
            assert forall|i: int, j: int| 0 <= i < j < init.len() implies #[trigger] init[i].0 != #[trigger] init[j].0 by {
                assert(init[i] == es[i] && init[j] == es[j]);
            }
        }
        lemma_insert_all_distinct(init);
        assert(!has_name(init, es.last().0)) by {
            if has_name(init, es.last().0) {
                let j = choose|j: int| 0 <= j < init.len() && #[trigger] init[j].0 == es.last().0;
                assert(es[j].0 == es[es.len() - 1].0);
            }
        }
        assert(init.push(es.last()) =~= es);
    }
}

/// The variables written are named after entries of `order`.
proof fn lemma_written_names(order: Seq<(Seq<char>, usize)>, vars: Seq<(Seq<char>, VarView)>, registers: usize)
    ensures
        forall|i: int|
            0 <= i < written_vars(order, vars, registers).len() ==> has_name(
                order,
                #[trigger] written_vars(order, vars, registers)[i].0,
            ),
    decreases order.len(),
{
    if order.len() > 0 {
        let init = order.drop_last();
        lemma_written_names(init, vars, registers);
        let w = written_vars(order, vars, registers);
        let p = written_vars(init, vars, registers);
        assert forall|i: int| 0 <= i < w.len() implies has_name(order, #[trigger] w[i].0) by {
            if i < p.len() {
                assert(w[i] == p[i]);
                let j = choose|j: int| 0 <= j < init.len() && #[trigger] init[j].0 == p[i].0;
                assert(order[j] == init[j]);
            } else {
                assert(w[i].0 == order.last().0);
                assert(order[order.len() - 1].0 == w[i].0);
            }
        }
    }
}

/// Writing a mid-level program as text and reading the text back, with
/// the same number of registers and no library needed, gives its imports,
/// its registers followed by its other variables in slot order, and its
/// blocks but `term`, `main` first and the others in number order,
/// numbered from 0, without their `Nop` statements, plus the empty block
/// `term` numbered after them: provided that names and paths are words,
/// no block but `main` has a name starting with `@`, `main` is numbered
/// first, and every statement can be read back.
pub proof fn lemma_text_reads_back(e: SmplExecutor, libs: Seq<(Seq<char>, Seq<char>)>)
    requires
        e.printable(),
        e.imports.wf(),
        e.block_index.wf(),
        forall|i: int|
            0 <= i < text_views(e.imports.entries()).len() ==> is_word(#[trigger] text_views(e.imports.entries())[i].0)
                && is_word(text_views(e.imports.entries())[i].1),
        forall|i: int| 0 <= i < e.variables.entries().len() ==> is_word(#[trigger] e.variables.entries()[i].0),
        sort_by_number(e.block_index.entries()).len() > 0,
        sort_by_number(e.block_index.entries())[0].0 == main_label(),
        forall|i: int|
            0 <= i < e.block_index.entries().len() && e.block_index.entries()[i].0 != main_label()
                && e.block_index.entries()[i].0 != term_label() ==> is_target(#[trigger] e.block_index.entries()[i].0),
        forall|i: int, k: int|
            0 <= i < mblock_views(e.blocks.entries()).len() && 0 <= k < mblock_views(e.blocks.entries())[i].1.len()
                ==> mlistable(#[trigger] mblock_views(e.blocks.entries())[i].1[k]),
    ensures
        ({
            let order = sort_by_number(e.block_index.entries());
            let vars = var_views(e.variables.entries());
            let bv = mblock_views(e.blocks.entries());
            smpl_program(e.text(), e.registers as nat, libs) matches Ok(st) && st.imports == text_views(
                e.imports.entries(),
            ) && st.variables == declared(
                register_vars(e.registers as nat),
                written_vars(sort_by_number(var_slots(vars)), vars, e.registers),
            ) && st.blocks == entries_insert(listed_mblocks(bv, order), term_label(), seq![]) && st.index
                == entries_insert(listed_mindex(order), term_label(), listed_mindex(order).len() as usize)
        }),
{
    let order = sort_by_number(e.block_index.entries());
    let vars = var_views(e.variables.entries());
    let bv = mblock_views(e.blocks.entries());
    let es = text_views(e.imports.entries());
    let vo = sort_by_number(var_slots(vars));
    let d = written_vars(vo, vars, e.registers);
    let r = e.registers as nat;
    let depth = MAX_LIB_DEPTH as nat;
    lemma_entries_map_names(e.blocks.entries(), body_view());
    lemma_entries_map_names(e.variables.entries(), variable_view());
    lemma_entries_map_names(e.imports.entries(), string_view());
    // The blocks of `order` can be read back.
    lemma_sort_distinct(e.block_index.entries());
    lemma_sort_keeps_names(e.block_index.entries());
    assert(mblocks_listable(bv, order)) by {
        assert forall|i: int|
            0 <= i < order.len() && order[i].0 != main_label() && order[i].0 != term_label() implies is_target(
            #[trigger] order[i].0,
        ) by {
            let ix = e.block_index.entries();
            assert(has_name(ix, order[i].0));
            let j = choose|j: int| 0 <= j < ix.len() && #[trigger] ix[j].0 == order[i].0;
            assert(is_target(ix[j].0));
        }
        assert forall|i: int, k: int|
            0 <= i < order.len() && order[i].0 != term_label() && 0 <= k < lookup(bv, order[i].0).unwrap().len()
                implies mlistable(#[trigger] lookup(bv, order[i].0).unwrap()[k]) by {
            let ix = e.block_index.entries();
            let name = order[i].0;
            assert(has_name(ix, name));
            let j = choose|j: int| 0 <= j < ix.len() && #[trigger] ix[j].0 == name;
            assert(has_name(bv, ix[j].0));
            let b = choose|b: int| 0 <= b < bv.len() && #[trigger] bv[b].0 == name;
            assert(lookup(bv, name) == Some(bv[b].1));
            assert(mlistable(bv[b].1[k]));
        }
    }
    assert(no_libs(bv, order)) by {
        assert forall|i: int, k: int|
            0 <= i < order.len() && order[i].0 != term_label() && 0 <= k < lookup(bv, order[i].0).unwrap().len()
                implies !(#[trigger] lookup(bv, order[i].0).unwrap()[k] is Lib) by {
            assert(mlistable(lookup(bv, order[i].0).unwrap()[k]));
        }
    }
    // The written variables are words.
    lemma_written_names(vo, vars, e.registers);
    lemma_sort_keeps_names(var_slots(vars));
    assert forall|i: int| 0 <= i < d.len() implies is_word(#[trigger] d[i].0) by {
        assert(has_name(vo, d[i].0));
        let j = choose|j: int| 0 <= j < vo.len() && #[trigger] vo[j].0 == d[i].0;
        assert(has_name(var_slots(vars), vo[j].0));
        let m = choose|m: int| 0 <= m < var_slots(vars).len() && #[trigger] var_slots(vars)[m].0 == vo[j].0;
        assert(vars[m].0 == e.variables.entries()[m].0);
    }
    // The text is its lines.
    lemma_program_text(e);
    let a = import_lines(es);
    let b = var_lines(d);
    let c = mblock_lines(bv, order);
    let blank = seq![Seq::<char>::empty()];
    let lines = program_lines(e);
    lemma_import_lines_one_line(es);
    lemma_var_lines_one_line(d);
    lemma_mblock_lines_one_line(bv, order);
    assert(lines =~= a + blank + b + blank + c);
    assert forall|i: int| 0 <= i < lines.len() implies one_line(#[trigger] lines[i]) by {
        if i < a.len() {
            assert(lines[i] == a[i]);
        } else if i == a.len() {
            assert(lines[i] == Seq::<char>::empty());
        } else if i < a.len() + 1 + b.len() {
            assert(lines[i] == b[i - a.len() - 1]);
        } else if i == a.len() + 1 + b.len() {
            assert(lines[i] == Seq::<char>::empty());
        } else {
            assert(lines[i] == c[i - a.len() - 2 - b.len()]);
        }
    }
    lemma_split_joined(lines);
    // Reading the lines.
    let st0 = initial_reading(r);
    let e0 = Seq::<Seq<char>>::empty();
    assert(read_mid_lines(st0, e0, true, depth, libs) == st0);
    lemma_read_uses(st0, e0, es, depth, libs);
    assert(e0 + a =~= a);
    lemma_blank_line();
    lemma_mid_read_push(st0, a, Seq::<char>::empty(), depth, libs);
    let p1 = a.push(Seq::<char>::empty());
    lemma_read_vars(st0, p1, d, depth, libs);
    let p2 = p1 + b;
    lemma_mid_read_push(st0, p2, Seq::<char>::empty(), depth, libs);
    let p3 = p2.push(Seq::<char>::empty());
    lemma_read_mblocks(st0, p3, bv, order, depth, libs);
    let p4 = p3 + c;
    assert(p4 =~= lines);
    lemma_mid_read_push(st0, p4, Seq::<char>::empty(), depth, libs);
    lemma_insert_all_distinct(es);
}

} // verus!
