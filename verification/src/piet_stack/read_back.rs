//! Reading back the listing of a stack program.

use super::expr::{stmts, Expr, Stmt};
use super::parse::{
    append_stmt, comment_text, keyword_stmt, read_stk_line, read_stk_lines, stk_line, StkLine, StkReading,
};
use super::stk_to_file::{block_text, listing_text, stmt_text};
use super::{term_label, PietStackExecutor};
use super::parse::stk_program;
use crate::label_map::{
    entries_insert, has_name, lemma_sort_distinct, lemma_sort_keeps_names, lookup, names_distinct,
    sort_by_number,
};
use crate::piet_interpreter::{cmd_name, Op};
use crate::integer::{digit_char, int_decimal, nat_decimal};
use crate::text::{
    all_digits, chars_value, is_blank, lemma_split_lines_nonempty, split_lines, split_words, word_integer,
    word_state,
};
use vstd::prelude::*;

verus! {

/// Whether a text holds no newline.
pub open spec fn one_line(l: Seq<char>) -> bool {
    forall|k: int| 0 <= k < l.len() ==> #[trigger] l[k] != '\n'
}

/// Whether a text holds no blank and no newline.
pub open spec fn no_blanks(w: Seq<char>) -> bool {
    forall|k: int| 0 <= k < w.len() ==> !is_blank(#[trigger] w[k]) && w[k] != '\n'
}

/// Whether a text is one word: not empty, with no blank and no newline.
pub open spec fn is_word(w: Seq<char>) -> bool {
    w.len() > 0 && no_blanks(w)
}

/// The lines, each followed by a newline.
pub open spec fn joined(lines: Seq<Seq<char>>) -> Seq<char>
    decreases lines.len(),
{
    if lines.len() == 0 {
        seq![]
    } else {
        joined(lines.drop_last()) + lines.last() + seq!['\n']
    }
}

/// Text without a newline extends the last line.
pub(crate) proof fn lemma_split_lines_append(t: Seq<char>, l: Seq<char>)
    requires
        one_line(l),
    ensures
        split_lines(t + l) == split_lines(t).update(split_lines(t).len() - 1, split_lines(t).last() + l),
    decreases l.len(),
{
    lemma_split_lines_nonempty(t);
    let p = split_lines(t);
    if l.len() == 0 {
        assert(t + l =~= t);
        assert(p.last() + l =~= p.last());
        assert(p.update(p.len() - 1, p.last()) =~= p);
    } else {
        lemma_split_lines_append(t, l.drop_last());
        let u = t + l;
        assert(u.drop_last() =~= t + l.drop_last());
        assert(u.last() == l.last());
        assert(l.last() != '\n');
        assert((p.last() + l.drop_last()).push(l.last()) =~= p.last() + l);
        assert(split_lines(u) =~= p.update(p.len() - 1, p.last() + l));
    }
}

/// Lines without newlines, each followed by one, split back into those
/// lines and an empty last one.
pub proof fn lemma_split_joined(lines: Seq<Seq<char>>)
    requires
        forall|i: int| 0 <= i < lines.len() ==> one_line(#[trigger] lines[i]),
    ensures
        split_lines(joined(lines)) == lines.push(seq![]),
    decreases lines.len(),
{
    if lines.len() == 0 {
        assert(split_lines(seq![]) =~= seq![Seq::<char>::empty()]);
        assert(lines.push(seq![]) =~= seq![Seq::<char>::empty()]);
    } else {
        let init = lines.drop_last();
        lemma_split_joined(init);
        let t = joined(init);
        let l = lines.last();
        assert(one_line(lines[lines.len() - 1]));
        lemma_split_lines_append(t, l);
        assert(init.push(seq![]).update(init.len() as int, Seq::<char>::empty() + l) =~= init.push(l));
        let u = t + l + seq!['\n'];
        assert(u.drop_last() =~= t + l);
        assert(init.push(l) =~= lines);
    }
}

/// Joining two runs of lines joins their texts.
pub proof fn lemma_joined_concat(a: Seq<Seq<char>>, b: Seq<Seq<char>>)
    ensures
        joined(a + b) == joined(a) + joined(b),
    decreases b.len(),
{
    if b.len() == 0 {
        assert(a + b =~= a);
        assert(joined(a) + joined(b) =~= joined(a));
    } else {
        lemma_joined_concat(a, b.drop_last());
        assert((a + b).drop_last() =~= a + b.drop_last());
        assert((a + b).last() == b.last());
        assert(joined(a + b) =~= joined(a) + joined(b));
    }
}

/// Reading characters without blanks extends the word in progress.
pub(crate) proof fn lemma_word_state_append(p: Seq<char>, w: Seq<char>)
    requires
        no_blanks(w),
    ensures
        word_state(p + w) == (word_state(p).0, word_state(p).1 + w),
    decreases w.len(),
{
    if w.len() == 0 {
        assert(p + w =~= p);
        assert(word_state(p).1 + w =~= word_state(p).1);
    } else {
        lemma_word_state_append(p, w.drop_last());
        let u = p + w;
        assert(u.drop_last() =~= p + w.drop_last());
        assert(u.last() == w.last());
        assert(!is_blank(w[w.len() - 1]));
        assert((word_state(p).1 + w.drop_last()).push(w.last()) =~= word_state(p).1 + w);
    }
}

/// A space ends the word in progress.
pub(crate) proof fn lemma_word_state_space(p: Seq<char>)
    ensures
        word_state(p.push(' ')) == (if word_state(p).1.len() > 0 {
            (word_state(p).0.push(word_state(p).1), Seq::<char>::empty())
        } else {
            word_state(p)
        }),
{
    assert(p.push(' ').drop_last() =~= p);
}

/// The words of one word.
pub(crate) proof fn lemma_words_one(w: Seq<char>)
    requires
        is_word(w),
    ensures
        split_words(w) == seq![w],
{
    lemma_word_state_append(seq![], w);
    assert(Seq::<char>::empty() + w =~= w);
    assert(Seq::<char>::empty() + w =~= w);
    assert(word_state(Seq::<char>::empty()) == (Seq::<Seq<char>>::empty(), Seq::<char>::empty()));
}

/// The words of two words separated by a space.
pub(crate) proof fn lemma_words_two(a: Seq<char>, b: Seq<char>)
    requires
        is_word(a),
        is_word(b),
    ensures
        split_words(a + seq![' '] + b) == seq![a, b],
{
    let e = Seq::<char>::empty();
    lemma_word_state_append(e, a);
    assert(e + a =~= a);
    assert(word_state(e) == (Seq::<Seq<char>>::empty(), e));
    lemma_word_state_space(a);
    assert(a + seq![' '] =~= a.push(' '));
    lemma_word_state_append(a + seq![' '], b);
    assert(e + b =~= b);
    assert(seq![a] =~= Seq::<Seq<char>>::empty().push(a));
}

/// The words of three words separated by spaces.
pub(crate) proof fn lemma_words_three(a: Seq<char>, b: Seq<char>, c: Seq<char>)
    requires
        is_word(a),
        is_word(b),
        is_word(c),
    ensures
        split_words(a + seq![' '] + b + seq![' '] + c) == seq![a, b, c],
{
    let e = Seq::<char>::empty();
    lemma_word_state_append(e, a);
    assert(e + a =~= a);
    assert(word_state(e) == (Seq::<Seq<char>>::empty(), e));
    lemma_word_state_space(a);
    assert(a + seq![' '] =~= a.push(' '));
    let p1 = a + seq![' '];
    lemma_word_state_append(p1, b);
    assert(e + b =~= b);
    let p2 = p1 + b;
    lemma_word_state_space(p2);
    assert(p2 + seq![' '] =~= p2.push(' '));
    lemma_word_state_append(p2 + seq![' '], c);
    assert(e + c =~= c);
    assert(seq![a, b] =~= Seq::<Seq<char>>::empty().push(a).push(b));
    assert(seq![a, b, c] =~= seq![a, b].push(c));
}

/// The line a statement is written as, without its newline.
pub open spec fn stmt_line(s: Stmt) -> Seq<char> {
    match s {
        Stmt::Instr(Op::Push(v)) => "push"@ + seq![' '] + int_decimal(v),
        Stmt::Instr(op) => cmd_name(op),
        Stmt::Goto(l) => "goto"@ + seq![' '] + l,
        Stmt::Branch(a, b) => "branch"@ + seq![' '] + a + seq![' '] + b,
        Stmt::Debug => "debug"@,
        Stmt::Comment(c) => seq!['#', ' '] + c,
        Stmt::GotoStk => "goto_stk"@,
    }
}

/// The `label` line of a block.
pub open spec fn label_line(name: Seq<char>) -> Seq<char> {
    "label"@ + seq![' '] + name
}

/// Whether a statement reads back from its line: its labels are words,
/// its comment text is one line, and it is no direction command.
pub open spec fn listable(s: Stmt) -> bool {
    match s {
        Stmt::Instr(Op::Pointer) => false,
        Stmt::Instr(Op::Switch) => false,
        Stmt::Goto(l) => is_word(l),
        Stmt::Branch(a, b) => is_word(a) && is_word(b),
        Stmt::Comment(c) => one_line(c),
        _ => true,
    }
}

/// The written text of a statement is its line and a newline (nothing for
/// `Nop`).
pub(crate) proof fn lemma_stmt_text(s: Stmt)
    ensures
        s == Stmt::Instr(Op::Nop) ==> stmt_text(s) == Seq::<char>::empty(),
        s != Stmt::Instr(Op::Nop) ==> stmt_text(s) == stmt_line(s).push('\n'),
{
    reveal_strlit("push ");
    reveal_strlit("push");
    reveal_strlit("goto ");
    reveal_strlit("goto");
    reveal_strlit("branch ");
    reveal_strlit("branch");
    reveal_strlit("debug");
    reveal_strlit("# ");
    reveal_strlit("goto_stk");
    match s {
        Stmt::Instr(Op::Push(v)) => {
            assert(stmt_text(s) =~= stmt_line(s).push('\n'));
        },
        Stmt::Goto(l) => {
            assert(stmt_text(s) =~= stmt_line(s).push('\n'));
        },
        Stmt::Branch(a, b) => {
            assert(stmt_text(s) =~= stmt_line(s).push('\n'));
        },
        Stmt::Comment(c) => {
            assert(stmt_text(s) =~= stmt_line(s).push('\n'));
        },
        Stmt::Debug => {
            assert(stmt_text(s) =~= stmt_line(s).push('\n'));
        },
        Stmt::GotoStk => {
            assert(stmt_text(s) =~= stmt_line(s).push('\n'));
        },
        Stmt::Instr(op) => {
            if op != Op::Nop {
                assert(stmt_text(s) =~= stmt_line(s).push('\n'));
            }
        },
    }
}

/// Decimal text is one word.
pub(crate) proof fn lemma_int_decimal_word(v: int)
    ensures
        is_word(int_decimal(v)),
{
    if v < 0 {
        lemma_nat_decimal((-v) as nat);
        let d = nat_decimal((-v) as nat);
        let w = int_decimal(v);
        assert forall|k: int| 0 <= k < w.len() implies !is_blank(#[trigger] w[k]) && w[k] != '\n' by {
            if k > 0 {
                assert(w[k] == d[k - 1]);
                assert('0' <= d[k - 1] <= '9');
            }
        }
    } else {
        lemma_nat_decimal(v as nat);
        let d = nat_decimal(v as nat);
        assert forall|k: int| 0 <= k < d.len() implies !is_blank(#[trigger] d[k]) && d[k] != '\n' by {
            assert('0' <= d[k] <= '9');
        }
    }
}

/// A `label` line reads as the start of the block.
pub(crate) proof fn lemma_label_line(name: Seq<char>)
    requires
        is_word(name),
    ensures
        stk_line(label_line(name)) == StkLine::Label(name),
        one_line(label_line(name)),
{
    reveal_strlit("label");
    reveal_strlit("push");
    lemma_words_two("label"@, name);
    let l = label_line(name);
    assert(l[0] == 'l');
    assert forall|k: int| 0 <= k < l.len() implies #[trigger] l[k] != '\n' by {
        if k >= 6 {
            assert(l[k] == name[k - 6]);
        }
    }
}

/// A one-word statement is found by its word.
pub(crate) proof fn lemma_keyword(s: Stmt)
    requires
        listable(s),
        s != Stmt::Instr(Op::Nop),
        !(s matches Stmt::Instr(Op::Push(_))),
        !(s is Goto),
        !(s is Branch),
        !(s is Comment),
    ensures
        keyword_stmt(stmt_line(s)) == Some(s),
        is_word(stmt_line(s)),
        stmt_line(s)[0] != 'l',
{
    reveal_strlit("pop");
    reveal_strlit("add");
    reveal_strlit("sub");
    reveal_strlit("mul");
    reveal_strlit("div");
    reveal_strlit("mod");
    reveal_strlit("not");
    reveal_strlit("greater");
    reveal_strlit("dup");
    reveal_strlit("roll");
    reveal_strlit("inN");
    reveal_strlit("inC");
    reveal_strlit("outN");
    reveal_strlit("outC");
    reveal_strlit("debug");
    reveal_strlit("goto_stk");
    let l = stmt_line(s);
    match s {
        Stmt::Instr(Op::Pop) => {
            assert(l =~= "pop"@);
        },
        Stmt::Instr(Op::Add) => {
            assert(l != "pop"@);
            assert(l =~= "add"@);
        },
        Stmt::Instr(Op::Sub) => {
            assert(l != "pop"@ && l != "add"@);
            assert(l =~= "sub"@);
        },
        Stmt::Instr(Op::Mul) => {
            assert(l != "pop"@ && l != "add"@ && l != "sub"@);
            assert(l =~= "mul"@);
        },
        Stmt::Instr(Op::Div) => {
            assert(l != "pop"@ && l != "add"@ && l != "sub"@ && l != "mul"@);
            assert(l =~= "div"@);
        },
        Stmt::Instr(Op::Mod) => {
            assert(l != "pop"@ && l != "add"@ && l != "sub"@ && l != "mul"@ && l != "div"@);
            assert(l =~= "mod"@);
        },
        Stmt::Instr(Op::Not) => {
            assert(l != "pop"@ && l != "add"@ && l != "sub"@ && l != "mul"@ && l != "div"@ && l != "mod"@);
            assert(l =~= "not"@);
        },
        Stmt::Instr(Op::Greater) => {
            assert(l.len() == 7);
            assert(l =~= "greater"@);
        },
        Stmt::Instr(Op::Dup) => {
            assert(l != "pop"@ && l != "add"@ && l != "sub"@ && l != "mul"@ && l != "div"@ && l != "mod"@
                && l != "not"@);
            assert(l =~= "dup"@);
        },
        Stmt::Instr(Op::Roll) => {
            assert(l.len() == 4);
            assert(l =~= "roll"@);
        },
        Stmt::Instr(Op::InN) => {
            assert(l != "pop"@ && l != "add"@ && l != "sub"@ && l != "mul"@ && l != "div"@ && l != "mod"@
                && l != "not"@ && l != "dup"@);
            assert(l =~= "inN"@);
        },
        Stmt::Instr(Op::InC) => {
            assert(l != "pop"@ && l != "add"@ && l != "sub"@ && l != "mul"@ && l != "div"@ && l != "mod"@
                && l != "not"@ && l != "dup"@ && l != "inN"@);
            assert(l =~= "inC"@);
        },
        Stmt::Instr(Op::OutN) => {
            assert(l != "roll"@);
            assert(l =~= "outN"@);
        },
        Stmt::Instr(Op::OutC) => {
            assert(l != "roll"@ && l != "outN"@);
            assert(l =~= "outC"@);
        },
        Stmt::Debug => {
            assert(l =~= "debug"@);
        },
        Stmt::GotoStk => {
            assert(l.len() == 8);
            assert(l =~= "goto_stk"@);
        },
        _ => {},
    }
}

/// A listable statement other than `Nop` reads back from its line.
pub(crate) proof fn lemma_stmt_line(s: Stmt)
    requires
        listable(s),
        s != Stmt::Instr(Op::Nop),
    ensures
        stk_line(stmt_line(s)) == StkLine::Statement(s),
        one_line(stmt_line(s)),
{
    reveal_strlit("pop");
    reveal_strlit("add");
    reveal_strlit("sub");
    reveal_strlit("mul");
    reveal_strlit("div");
    reveal_strlit("mod");
    reveal_strlit("not");
    reveal_strlit("greater");
    reveal_strlit("dup");
    reveal_strlit("roll");
    reveal_strlit("inN");
    reveal_strlit("inC");
    reveal_strlit("outN");
    reveal_strlit("outC");
    reveal_strlit("debug");
    reveal_strlit("goto_stk");
    reveal_strlit("label");
    reveal_strlit("push");
    reveal_strlit("goto");
    reveal_strlit("branch");
    let l = stmt_line(s);
    match s {
        Stmt::Instr(Op::Push(v)) => {
            lemma_int_decimal_word(v);
            lemma_int_decimal_reads_back(v);
            lemma_words_two("push"@, int_decimal(v));
            let ws = split_words(l);
            assert(ws.len() == 2 && ws[0] == "push"@ && ws[1] == int_decimal(v));
            assert(ws[0] != "label"@);
            assert(word_integer(ws[1]) == Some(v));
            assert(l[0] == 'p');
            assert(!(l.len() > 0 && l[0] == '#'));
            assert(stk_line(l) == StkLine::Statement(Stmt::Instr(Op::Push(v))));
            assert forall|k: int| 0 <= k < l.len() implies #[trigger] l[k] != '\n' by {
                if k >= 5 {
                    assert(l[k] == int_decimal(v)[k - 5]);
                }
            }
        },
        Stmt::Goto(t) => {
            lemma_words_two("goto"@, t);
            assert(l[0] == 'g');
            assert forall|k: int| 0 <= k < l.len() implies #[trigger] l[k] != '\n' by {
                if k >= 5 {
                    assert(l[k] == t[k - 5]);
                }
            }
        },
        Stmt::Branch(a, b) => {
            lemma_words_three("branch"@, a, b);
            assert(l[0] == 'b');
            assert forall|k: int| 0 <= k < l.len() implies #[trigger] l[k] != '\n' by {
                if 7 <= k < 7 + a.len() {
                    assert(l[k] == a[k - 7]);
                } else if k >= 8 + a.len() {
                    assert(l[k] == b[k - 8 - a.len()]);
                }
            }
        },
        Stmt::Comment(c) => {
            assert(l[0] == '#');
            assert(comment_text(l) =~= c);
            assert forall|k: int| 0 <= k < l.len() implies #[trigger] l[k] != '\n' by {
                if k >= 2 {
                    assert(l[k] == c[k - 2]);
                }
            }
        },
        _ => {
            assert(is_word(l));
            lemma_words_one(l);
            lemma_keyword(s);
        },
    }
}

/// The statements other than `Nop`.
pub open spec fn without_nops(ss: Seq<Stmt>) -> Seq<Stmt>
    decreases ss.len(),
{
    if ss.len() == 0 {
        seq![]
    } else {
        without_nops(ss.drop_last()) + if ss.last() == Stmt::Instr(Op::Nop) {
            Seq::<Stmt>::empty()
        } else {
            seq![ss.last()]
        }
    }
}

/// The lines of a block's statements (`Nop` has none).
pub open spec fn block_lines(ss: Seq<Stmt>) -> Seq<Seq<char>>
    decreases ss.len(),
{
    if ss.len() == 0 {
        seq![]
    } else {
        block_lines(ss.drop_last()) + if ss.last() == Stmt::Instr(Op::Nop) {
            Seq::<Seq<char>>::empty()
        } else {
            seq![stmt_line(ss.last())]
        }
    }
}

/// The statements of the block named `name`.
pub open spec fn body_of(blocks: Seq<(Seq<char>, Vec<Expr>)>, name: Seq<char>) -> Seq<Stmt> {
    stmts(lookup(blocks, name).unwrap()@)
}

/// The lines of the blocks named in `order`, each a `label` line and the
/// lines of its statements.
pub open spec fn listing_lines(blocks: Seq<(Seq<char>, Vec<Expr>)>, order: Seq<(Seq<char>, usize)>) -> Seq<Seq<char>>
    decreases order.len(),
{
    if order.len() == 0 {
        seq![]
    } else {
        let name = order.last().0;
        listing_lines(blocks, order.drop_last()) + seq![label_line(name)] + block_lines(body_of(blocks, name))
    }
}

/// The blocks named in `order`, each with its statements other than `Nop`.
pub open spec fn listed_blocks(blocks: Seq<(Seq<char>, Vec<Expr>)>, order: Seq<(Seq<char>, usize)>) -> Seq<(Seq<char>, Seq<Stmt>)> {
    order.map_values(|e: (Seq<char>, usize)| (e.0, without_nops(body_of(blocks, e.0))))
}

/// The names in `order` numbered from 0.
pub open spec fn listed_numbers(order: Seq<(Seq<char>, usize)>) -> Seq<(Seq<char>, usize)> {
    Seq::new(order.len(), |j: int| (order[j].0, j as usize))
}

/// A block's written text is its lines, joined.
pub(crate) proof fn lemma_block_text(ss: Seq<Stmt>)
    ensures
        block_text(ss) == joined(block_lines(ss)),
    decreases ss.len(),
{
    if ss.len() > 0 {
        lemma_block_text(ss.drop_last());
        let s = ss.last();
        lemma_stmt_text(s);
        let tail = if s == Stmt::Instr(Op::Nop) {
            Seq::<Seq<char>>::empty()
        } else {
            seq![stmt_line(s)]
        };
        lemma_joined_concat(block_lines(ss.drop_last()), tail);
        if s == Stmt::Instr(Op::Nop) {
            assert(joined(tail) =~= Seq::<char>::empty());
            assert(block_text(ss) =~= block_text(ss.drop_last()));
        } else {
            assert(tail.drop_last() =~= Seq::<Seq<char>>::empty());
            assert(joined(tail.drop_last()) == Seq::<char>::empty());
            assert(joined(tail) =~= stmt_line(s) + seq!['\n']);
            assert(stmt_line(s).push('\n') =~= stmt_line(s) + seq!['\n']);
        }
    }
}

/// A listing's text is its lines, joined.
proof fn lemma_listing_text(blocks: Seq<(Seq<char>, Vec<Expr>)>, order: Seq<(Seq<char>, usize)>)
    ensures
        listing_text(blocks, order) == joined(listing_lines(blocks, order)),
    decreases order.len(),
{
    reveal_strlit("label ");
    reveal_strlit("label");
    if order.len() > 0 {
        let name = order.last().0;
        lemma_listing_text(blocks, order.drop_last());
        let head = listing_lines(blocks, order.drop_last()) + seq![label_line(name)];
        let body = body_of(blocks, name);
        lemma_block_text(body);
        lemma_joined_concat(head, block_lines(body));
        assert(head.drop_last() =~= listing_lines(blocks, order.drop_last()));
        assert(joined(head) =~= joined(listing_lines(blocks, order.drop_last())) + label_line(name) + seq!['\n']);
        assert("label "@ + name + seq!['\n'] =~= label_line(name) + seq!['\n']);
        assert(listing_text(blocks, order) =~= joined(listing_lines(blocks, order)));
    }
}

/// Reading one more line on top of what some lines read.
pub(crate) proof fn lemma_read_push(lines: Seq<Seq<char>>, l: Seq<char>)
    requires
        read_stk_lines(lines).error is None,
    ensures
        read_stk_lines(lines.push(l)) == read_stk_line(read_stk_lines(lines), l, lines.len() + 1),
{
    assert(lines.push(l).drop_last() =~= lines);
}

/// Reading the lines of a block's statements while that block, the last
/// one read, is current: its statements other than `Nop` are appended.
proof fn lemma_read_block(
    lines: Seq<Seq<char>>,
    bs: Seq<(Seq<char>, Seq<Stmt>)>,
    name: Seq<char>,
    x: Seq<Stmt>,
    ss: Seq<Stmt>,
)
    requires
        read_stk_lines(lines).error is None,
        read_stk_lines(lines).current == Some(name),
        read_stk_lines(lines).blocks == bs.push((name, x)),
        !has_name(bs, name),
        forall|k: int| 0 <= k < ss.len() ==> listable(#[trigger] ss[k]),
    ensures
        read_stk_lines(lines + block_lines(ss)) == (StkReading {
            blocks: bs.push((name, x + without_nops(ss))),
            ..read_stk_lines(lines)
        }),
    decreases ss.len(),
{
    let st = read_stk_lines(lines);
    if ss.len() == 0 {
        assert(lines + block_lines(ss) =~= lines);
        assert(x + without_nops(ss) =~= x);
        assert(bs.push((name, x)) == st.blocks);
    } else {
        let init = ss.drop_last();
        let s = ss.last();
        assert forall|k: int| 0 <= k < init.len() implies listable(#[trigger] init[k]) by {
            assert(init[k] == ss[k]);
        }
        lemma_read_block(lines, bs, name, x, init);
        let before = lines + block_lines(init);
        let st2 = read_stk_lines(before);
        if s == Stmt::Instr(Op::Nop) {
            assert(lines + block_lines(ss) =~= before);
            assert(x + without_nops(ss) =~= x + without_nops(init));
        } else {
            assert(listable(ss[ss.len() - 1]));
            lemma_stmt_line(s);
            assert(lines + block_lines(ss) =~= before.push(stmt_line(s)));
            lemma_read_push(before, stmt_line(s));
            let blocks2 = bs.push((name, x + without_nops(init)));
            assert(st2.blocks == blocks2);
            assert(blocks2[bs.len() as int].0 == name);
            let i = choose|i: int| 0 <= i < blocks2.len() && #[trigger] blocks2[i].0 == name;
            assert(0 <= i < blocks2.len() && blocks2[i].0 == name);
            if i < bs.len() {
                assert(blocks2[i] == bs[i]);
                assert(has_name(bs, name));
            }
            assert(i == bs.len());
            assert(without_nops(ss) =~= without_nops(init) + seq![s]);
            assert((x + without_nops(init)).push(s) =~= x + without_nops(ss));
            assert(append_stmt(blocks2, name, s) =~= bs.push((name, x + without_nops(ss))));
        }
    }
}

/// Whether the names of entries are words.
pub open spec fn names_are_words<V>(es: Seq<(Seq<char>, V)>) -> bool {
    forall|i: int| 0 <= i < es.len() ==> is_word(#[trigger] es[i].0)
}

/// Whether every statement of every block named in `order` is listable.
pub open spec fn bodies_listable(blocks: Seq<(Seq<char>, Vec<Expr>)>, order: Seq<(Seq<char>, usize)>) -> bool {
    forall|i: int, k: int|
        0 <= i < order.len() && 0 <= k < body_of(blocks, order[i].0).len() ==> listable(
            #[trigger] body_of(blocks, order[i].0)[k],
        )
}

/// Reading the lines of a listing gives the listed blocks, numbered from 0
/// in order, the last one current.
proof fn lemma_read_listing(blocks: Seq<(Seq<char>, Vec<Expr>)>, order: Seq<(Seq<char>, usize)>)
    requires
        names_distinct(order),
        names_are_words(order),
        bodies_listable(blocks, order),
    ensures
        read_stk_lines(listing_lines(blocks, order)) == (StkReading {
            blocks: listed_blocks(blocks, order),
            index: listed_numbers(order),
            current: if order.len() > 0 {
                Some(order.last().0)
            } else {
                None::<Seq<char>>
            },
            count: order.len(),
            error: None,
        }),
    decreases order.len(),
{
    if order.len() == 0 {
        assert(listed_blocks(blocks, order) =~= Seq::<(Seq<char>, Seq<Stmt>)>::empty());
        assert(listed_numbers(order) =~= Seq::<(Seq<char>, usize)>::empty());
    } else {
        let init = order.drop_last();
        let name = order.last().0;
        let n = init.len();
        assert(bodies_listable(blocks, init)) by {
            assert forall|i: int, k: int|
                0 <= i < init.len() && 0 <= k < body_of(blocks, init[i].0).len() implies listable(
                #[trigger] body_of(blocks, init[i].0)[k],
            ) by {
                assert(init[i] == order[i]);
            }
        }
        assert(names_are_words(init)) by {
            assert forall|i: int| 0 <= i < init.len() implies is_word(#[trigger] init[i].0) by {
                assert(init[i] == order[i]);
            }
        }
        lemma_read_listing(blocks, init);
        let lines0 = listing_lines(blocks, init);
        let st0 = read_stk_lines(lines0);
        assert(is_word(order[n as int].0));
        lemma_label_line(name);
        lemma_read_push(lines0, label_line(name));
        let lines1 = lines0.push(label_line(name));
        let st1 = read_stk_lines(lines1);
        let bs = listed_blocks(blocks, init);
        assert(!has_name(bs, name)) by {
            if has_name(bs, name) {
                let j = choose|j: int| 0 <= j < bs.len() && #[trigger] bs[j].0 == name;
                assert(order[j].0 == order[n as int].0);
            }
        }
        assert(!has_name(listed_numbers(init), name)) by {
            if has_name(listed_numbers(init), name) {
                let j = choose|j: int| 0 <= j < listed_numbers(init).len() && #[trigger] listed_numbers(init)[j].0 == name;
                assert(order[j].0 == order[n as int].0);
            }
        }
        assert(st1.blocks == bs.push((name, Seq::<Stmt>::empty())));
        assert(st1.index =~= listed_numbers(order));
        let body = body_of(blocks, name);
        assert forall|k: int| 0 <= k < body.len() implies listable(#[trigger] body[k]) by {
            assert(order[n as int].0 == name);
        }
        lemma_read_block(lines1, bs, name, seq![], body);
        assert(listing_lines(blocks, order) =~= lines1 + block_lines(body));
        assert(Seq::<Stmt>::empty() + without_nops(body) =~= without_nops(body));
        assert(listed_blocks(blocks, order) =~= bs.push((name, without_nops(body))));
    }
}

/// Every line of a block is one line.
proof fn lemma_block_lines_one_line(ss: Seq<Stmt>)
    requires
        forall|k: int| 0 <= k < ss.len() ==> listable(#[trigger] ss[k]),
    ensures
        forall|i: int| 0 <= i < block_lines(ss).len() ==> one_line(#[trigger] block_lines(ss)[i]),
    decreases ss.len(),
{
    if ss.len() > 0 {
        let init = ss.drop_last();
        assert forall|k: int| 0 <= k < init.len() implies listable(#[trigger] init[k]) by {
            assert(init[k] == ss[k]);
        }
        lemma_block_lines_one_line(init);
        let s = ss.last();
        assert(listable(ss[ss.len() - 1]));
        if s != Stmt::Instr(Op::Nop) {
            lemma_stmt_line(s);
        }
        let bl = block_lines(ss);
        let b0 = block_lines(init);
        assert forall|i: int| 0 <= i < bl.len() implies one_line(#[trigger] bl[i]) by {
            if i < b0.len() {
                assert(bl[i] == b0[i]);
            } else {
                assert(bl[i] == stmt_line(s));
            }
        }
    }
}

/// Every line of a listing is one line.
proof fn lemma_listing_lines_one_line(blocks: Seq<(Seq<char>, Vec<Expr>)>, order: Seq<(Seq<char>, usize)>)
    requires
        names_are_words(order),
        bodies_listable(blocks, order),
    ensures
        forall|i: int| 0 <= i < listing_lines(blocks, order).len() ==> one_line(
            #[trigger] listing_lines(blocks, order)[i],
        ),
    decreases order.len(),
{
    if order.len() > 0 {
        let init = order.drop_last();
        let n = init.len();
        let name = order.last().0;
        assert(bodies_listable(blocks, init)) by {
            assert forall|i: int, k: int|
                0 <= i < init.len() && 0 <= k < body_of(blocks, init[i].0).len() implies listable(
                #[trigger] body_of(blocks, init[i].0)[k],
            ) by {
                assert(init[i] == order[i]);
            }
        }
        assert(names_are_words(init)) by {
            assert forall|i: int| 0 <= i < init.len() implies is_word(#[trigger] init[i].0) by {
                assert(init[i] == order[i]);
            }
        }
        lemma_listing_lines_one_line(blocks, init);
        assert(is_word(order[n as int].0));
        lemma_label_line(name);
        let body = body_of(blocks, name);
        assert forall|k: int| 0 <= k < body.len() implies listable(#[trigger] body[k]) by {
            assert(order[n as int].0 == name);
        }
        lemma_block_lines_one_line(body);
        let a = listing_lines(blocks, init) + seq![label_line(name)];
        let all = listing_lines(blocks, order);
        assert(all =~= a + block_lines(body));
        assert forall|i: int| 0 <= i < all.len() implies one_line(#[trigger] all[i]) by {
            if i < listing_lines(blocks, init).len() {
                assert(all[i] == listing_lines(blocks, init)[i]);
            } else if i == listing_lines(blocks, init).len() {
                assert(all[i] == label_line(name));
            } else {
                assert(all[i] == block_lines(body)[i - a.len()]);
            }
        }
    }
}

/// Reading back the text of a listing gives the listed blocks with their
/// statements other than `Nop`, numbered from 0 in the listed order, plus
/// the empty block `term` numbered after them: provided the listed names
/// are distinct words and every listed statement can be read back.
pub proof fn lemma_listing_reads_back(blocks: Seq<(Seq<char>, Vec<Expr>)>, order: Seq<(Seq<char>, usize)>)
    requires
        names_distinct(order),
        names_are_words(order),
        bodies_listable(blocks, order),
    ensures
        stk_program(listing_text(blocks, order)) == Ok::<_, nat>(
            (
                entries_insert(listed_blocks(blocks, order), term_label(), seq![]),
                entries_insert(listed_numbers(order), term_label(), order.len() as usize),
            ),
        ),
{
    lemma_listing_text(blocks, order);
    let lines = listing_lines(blocks, order);
    lemma_listing_lines_one_line(blocks, order);
    lemma_split_joined(lines);
    lemma_read_listing(blocks, order);
    lemma_read_push(lines, seq![]);
    assert(split_words(seq![]) =~= Seq::<Seq<char>>::empty());
    assert(stk_line(seq![]) == StkLine::Blank);
    assert(term_label() =~= seq!['t', 'e', 'r', 'm']);
}

/// Reading back the text `to_file_string` writes for a program gives the
/// program's numbered blocks, in number order and numbered from 0, without
/// their `Nop` statements, plus the empty block `term` numbered after
/// them: provided the numbered names are words and every statement can be
/// read back.
pub proof fn lemma_file_string_reads_back(e: PietStackExecutor)
    requires
        e.printable(),
        names_are_words(e.block_index.entries()),
        forall|i: int, k: int|
            0 <= i < e.blocks.entries().len() && 0 <= k < e.blocks.entries()[i].1@.len() ==> listable(
                #[trigger] e.blocks.entries()[i].1@[k]@,
            ),
    ensures
        ({
            let order = sort_by_number(e.block_index.entries());
            stk_program(listing_text(e.blocks.entries(), order)) == Ok::<_, nat>(
                (
                    entries_insert(listed_blocks(e.blocks.entries(), order), term_label(), seq![]),
                    entries_insert(listed_numbers(order), term_label(), order.len() as usize),
                ),
            )
        }),
{
    let blocks = e.blocks.entries();
    let index = e.block_index.entries();
    let order = sort_by_number(index);
    lemma_sort_distinct(index);
    lemma_sort_keeps_names(index);
    assert(names_are_words(order)) by {
        assert forall|i: int| 0 <= i < order.len() implies is_word(#[trigger] order[i].0) by {
            assert(has_name(index, order[i].0));
            let j = choose|j: int| 0 <= j < index.len() && #[trigger] index[j].0 == order[i].0;
            assert(is_word(index[j].0));
        }
    }
    assert(bodies_listable(blocks, order)) by {
        assert forall|i: int, k: int|
            0 <= i < order.len() && 0 <= k < body_of(blocks, order[i].0).len() implies listable(
            #[trigger] body_of(blocks, order[i].0)[k],
        ) by {
            let name = order[i].0;
            assert(has_name(index, name));
            let j = choose|j: int| 0 <= j < index.len() && #[trigger] index[j].0 == name;
            assert(has_name(blocks, index[j].0));
            let b = choose|b: int| 0 <= b < blocks.len() && #[trigger] blocks[b].0 == name;
            assert(lookup(blocks, name) == Some(blocks[b].1));
            assert(body_of(blocks, name) == stmts(blocks[b].1@));
            assert(body_of(blocks, name)[k] == blocks[b].1@[k]@);
        }
    }
    lemma_listing_reads_back(blocks, order);
}

/// A decimal digit character has the digit's code.
pub(crate) proof fn lemma_digit_char(d: nat)
    requires
        d < 10,
    ensures
        digit_char(d) as int == 48 + d,
        '0' <= digit_char(d) <= '9',
{
}

/// The decimal digits of `n` are digits, at least one, and denote `n`.
pub(crate) proof fn lemma_nat_decimal(n: nat)
    ensures
        nat_decimal(n).len() > 0,
        all_digits(nat_decimal(n)),
        chars_value(nat_decimal(n)) == n,
    decreases n,
{
    if n < 10 {
        lemma_digit_char(n);
        let s = nat_decimal(n);
        assert(s.drop_last() =~= Seq::<char>::empty());
        assert(chars_value(s.drop_last()) == 0);
    } else {
        lemma_nat_decimal(n / 10);
        lemma_digit_char(n % 10);
        let s = nat_decimal(n);
        assert(s.drop_last() =~= nat_decimal(n / 10));
        assert(s.last() == digit_char(n % 10));
        assert(chars_value(s) == 10 * chars_value(s.drop_last()) + (s.last() as int - 48));
        assert(10 * (n / 10) + n % 10 == n);
        assert forall|k: int| 0 <= k < s.len() implies '0' <= #[trigger] s[k] <= '9' by {
            if k < s.len() - 1 {
                assert(s[k] == nat_decimal(n / 10)[k]);
            }
        }
    }
}

/// The decimal text of an integer reads back as the integer.
pub proof fn lemma_int_decimal_reads_back(v: int)
    ensures
        word_integer(int_decimal(v)) == Some(v),
{
    if v < 0 {
        let m = (-v) as nat;
        lemma_nat_decimal(m);
        let w = int_decimal(v);
        assert(w.skip(1) =~= nat_decimal(m));
    } else {
        lemma_nat_decimal(v as nat);
        lemma_digit_char(0);
        let w = nat_decimal(v as nat);
        assert('0' <= w[0] <= '9');
    }
}

} // verus!
