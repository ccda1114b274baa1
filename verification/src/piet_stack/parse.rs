//! Reading stack programs from text, in the form `to_file_string` writes:
//! `label NAME` starts a block, every other non-blank line is a statement
//! of the current block, and a line starting with `#` is a comment.

use super::expr::{stmts, Expr, Stmt};
use super::PietStackExecutor;
use crate::integer::Integer;
use crate::label_map::{entries_insert, entries_map, has_name, names_distinct, LabelMap};
use crate::piet_interpreter::{Op, CMD};
use crate::text::{
    chars_to_string, lines_of, lines_view, split_lines, split_words, string_chars, word_integer,
    word_is, words_of, parse_integer,
};
use vstd::prelude::*;

verus! {

/// Where reading a program failed: the number of the offending line,
/// counting from 1.
#[derive(Copy, Clone, PartialEq, Eq, Debug, Structural)]
pub struct ParseError {
    pub line: usize,
}

/// What one line of a stack program says.
pub enum StkLine {
    Blank,
    Label(Seq<char>),
    Statement(Stmt),
    Bad,
}

/// The text of a comment line: what follows `# ` (or `#`).
pub open spec fn comment_text(line: Seq<char>) -> Seq<char> {
    if line.len() >= 2 && line[1] == ' ' {
        line.skip(2)
    } else {
        line.skip(1)
    }
}

/// The statement a one-word line stands for.
pub open spec fn keyword_stmt(w: Seq<char>) -> Option<Stmt> {
    if w == "pop"@ {
        Some(Stmt::Instr(Op::Pop))
    } else if w == "add"@ {
        Some(Stmt::Instr(Op::Add))
    } else if w == "sub"@ {
        Some(Stmt::Instr(Op::Sub))
    } else if w == "mul"@ {
        Some(Stmt::Instr(Op::Mul))
    } else if w == "div"@ {
        Some(Stmt::Instr(Op::Div))
    } else if w == "mod"@ {
        Some(Stmt::Instr(Op::Mod))
    } else if w == "not"@ {
        Some(Stmt::Instr(Op::Not))
    } else if w == "greater"@ {
        Some(Stmt::Instr(Op::Greater))
    } else if w == "dup"@ {
        Some(Stmt::Instr(Op::Dup))
    } else if w == "roll"@ {
        Some(Stmt::Instr(Op::Roll))
    } else if w == "inN"@ {
        Some(Stmt::Instr(Op::InN))
    } else if w == "inC"@ {
        Some(Stmt::Instr(Op::InC))
    } else if w == "outN"@ {
        Some(Stmt::Instr(Op::OutN))
    } else if w == "outC"@ {
        Some(Stmt::Instr(Op::OutC))
    } else if w == "debug"@ {
        Some(Stmt::Debug)
    } else if w == "goto_stk"@ {
        Some(Stmt::GotoStk)
    } else {
        None
    }
}

/// What a line of a stack program says.
pub open spec fn stk_line(line: Seq<char>) -> StkLine {
    if line.len() > 0 && line[0] == '#' {
        StkLine::Statement(Stmt::Comment(comment_text(line)))
    } else {
        let ws = split_words(line);
        if ws.len() == 0 {
            StkLine::Blank
        } else if ws.len() == 1 {
            match keyword_stmt(ws[0]) {
                Some(s) => StkLine::Statement(s),
                None => StkLine::Bad,
            }
        } else if ws.len() == 2 && ws[0] == "label"@ {
            StkLine::Label(ws[1])
        } else if ws.len() == 2 && ws[0] == "push"@ {
            match word_integer(ws[1]) {
                Some(v) => StkLine::Statement(Stmt::Instr(Op::Push(v))),
                None => StkLine::Bad,
            }
        } else if ws.len() == 2 && ws[0] == "goto"@ {
            StkLine::Statement(Stmt::Goto(ws[1]))
        } else if ws.len() == 3 && ws[0] == "branch"@ {
            StkLine::Statement(Stmt::Branch(ws[1], ws[2]))
        } else {
            StkLine::Bad
        }
    }
}

/// Progress of reading a program line by line.
pub struct StkReading {
    pub blocks: Seq<(Seq<char>, Seq<Stmt>)>,
    pub index: Seq<(Seq<char>, usize)>,
    pub current: Option<Seq<char>>,
    pub count: nat,
    pub error: Option<nat>,
}

/// `blocks` with `s` appended to the block named `name`.
pub open spec fn append_stmt(
    blocks: Seq<(Seq<char>, Seq<Stmt>)>,
    name: Seq<char>,
    s: Stmt,
) -> Seq<(Seq<char>, Seq<Stmt>)> {
    let i = choose|i: int| 0 <= i < blocks.len() && #[trigger] blocks[i].0 == name;
    blocks.update(i, (name, blocks[i].1.push(s)))
}

/// The reading after the line numbered `lineno` (counting from 1).
pub open spec fn read_stk_line(st: StkReading, line: Seq<char>, lineno: nat) -> StkReading {
    match stk_line(line) {
        StkLine::Blank => st,
        StkLine::Bad => StkReading { error: Some(lineno), ..st },
        StkLine::Label(n) => StkReading {
            blocks: entries_insert(st.blocks, n, seq![]),
            index: entries_insert(st.index, n, st.count as usize),
            current: Some(n),
            count: st.count + 1,
            ..st
        },
        StkLine::Statement(s) => match st.current {
            None => StkReading { error: Some(lineno), ..st },
            Some(n) => StkReading { blocks: append_stmt(st.blocks, n, s), ..st },
        },
    }
}

/// The reading after the given lines; it stops at the first bad line.
pub open spec fn read_stk_lines(lines: Seq<Seq<char>>) -> StkReading
    decreases lines.len(),
{
    if lines.len() == 0 {
        StkReading { blocks: seq![], index: seq![], current: None, count: 0, error: None }
    } else {
        let st = read_stk_lines(lines.drop_last());
        if st.error is Some {
            st
        } else {
            read_stk_line(st, lines.last(), lines.len())
        }
    }
}

/// The view of a block's statements.
pub open spec fn stmts_view() -> spec_fn(Vec<Expr>) -> Seq<Stmt> {
    |b: Vec<Expr>| stmts(b@)
}

/// Blocks with their statements as views.
pub open spec fn block_views(es: Seq<(Seq<char>, Vec<Expr>)>) -> Seq<(Seq<char>, Seq<Stmt>)> {
    entries_map(es, stmts_view())
}

/// The program a text denotes: its blocks in the order they were first
/// named, each block's number the count of `label` lines before its last
/// one, plus an empty block `term` numbered after all; or the number of the
/// first line that is not understood, or that holds a statement before any
/// `label`.
pub open spec fn stk_program(text: Seq<char>) -> Result<
    (Seq<(Seq<char>, Seq<Stmt>)>, Seq<(Seq<char>, usize)>),
    nat,
> {
    let st = read_stk_lines(split_lines(text));
    match st.error {
        Some(l) => Err(l),
        None => Ok(
            (
                entries_insert(st.blocks, seq!['t', 'e', 'r', 'm'], seq![]),
                entries_insert(st.index, seq!['t', 'e', 'r', 'm'], st.count as usize),
            ),
        ),
    }
}

/// Reads one line.
fn parse_line(line: &Vec<char>) -> (r: Option<(Option<String>, Option<Expr>)>)
    ensures
        match stk_line(line@) {
            StkLine::Blank => r == Some((None::<String>, None::<Expr>)),
            StkLine::Bad => r is None,
            StkLine::Label(n) => r matches Some((Some(l), None)) && l@ == n,
            StkLine::Statement(s) => r matches Some((None, Some(e))) && e@ == s,
        },
{
    proof {
        reveal_strlit("pop");
        reveal_strlit("add");
        reveal_strlit("sub");
        reveal_strlit("mul");
        reveal_strlit("div");
        reveal_strlit("mod");
        reveal_strlit("not");
        reveal_strlit("greater");
        reveal_strlit("dup");
        reveal_strlit("roll");
        reveal_strlit("inN");
        reveal_strlit("inC");
        reveal_strlit("outN");
        reveal_strlit("outC");
        reveal_strlit("debug");
        reveal_strlit("goto_stk");
        reveal_strlit("label");
        reveal_strlit("push");
        reveal_strlit("goto");
        reveal_strlit("branch");
    }
    if line.len() > 0 && line[0] == '#' {
        let start: usize = if line.len() >= 2 && line[1] == ' ' { 2 } else { 1 };
        let mut text: Vec<char> = Vec::new();
        let mut i = start;
        while i < line.len()
            invariant
                start <= i <= line@.len(),
                text@ == line@.subrange(start as int, i as int),
            decreases line@.len() - i,
        {
            text.push(line[i]);
            i = i + 1;
            assert(text@ =~= line@.subrange(start as int, i as int));
        }
        return Some((None, Some(Expr::Comment(chars_to_string(&text)))));
    }
    let ws = words_of(line);
    let n = ws.len();
    if n == 0 {
        return Some((None, None));
    }
    let w0 = &ws[0];
    if n == 1 {
        let e = if word_is(w0, "pop") {
            Expr::Instr(CMD::Pop)
        } else if word_is(w0, "add") {
            Expr::Instr(CMD::Add)
        } else if word_is(w0, "sub") {
            Expr::Instr(CMD::Sub)
        } else if word_is(w0, "mul") {
            Expr::Instr(CMD::Mul)
        } else if word_is(w0, "div") {
            Expr::Instr(CMD::Div)
        } else if word_is(w0, "mod") {
            Expr::Instr(CMD::Mod)
        } else if word_is(w0, "not") {
            Expr::Instr(CMD::Not)
        } else if word_is(w0, "greater") {
            Expr::Instr(CMD::Greater)
        } else if word_is(w0, "dup") {
            Expr::Instr(CMD::Dup)
        } else if word_is(w0, "roll") {
            Expr::Instr(CMD::Roll)
        } else if word_is(w0, "inN") {
            Expr::Instr(CMD::InN)
        } else if word_is(w0, "inC") {
            Expr::Instr(CMD::InC)
        } else if word_is(w0, "outN") {
            Expr::Instr(CMD::OutN)
        } else if word_is(w0, "outC") {
            Expr::Instr(CMD::OutC)
        } else if word_is(w0, "debug") {
            Expr::Debug
        } else if word_is(w0, "goto_stk") {
            Expr::GotoStk
        } else {
            return None;
        };
        return Some((None, Some(e)));
    }
    if n == 2 && word_is(w0, "label") {
        return Some((Some(chars_to_string(&ws[1])), None));
    }
    if n == 2 && word_is(w0, "push") {
        return match parse_integer(&ws[1]) {
            Some(v) => Some((None, Some(Expr::Instr(CMD::Push(v))))),
            None => None,
        };
    }
    if n == 2 && word_is(w0, "goto") {
        return Some((None, Some(Expr::Goto(chars_to_string(&ws[1])))));
    }
    if n == 3 && word_is(w0, "branch") {
        return Some((None, Some(Expr::Branch(chars_to_string(&ws[1]), chars_to_string(&ws[2])))));
    }
    None
}

impl LabelMap<Vec<Expr>> {
    /// Appends `e` to the statements of the entry at position `i`.
    pub fn push_stmt(&mut self, i: usize, e: Expr)
        requires
            old(self).wf(),
            i < old(self).entries().len(),
        ensures
            final(self).wf(),
            block_views(final(self).entries()) == block_views(old(self).entries()).update(
                i as int,
                (old(self).entries()[i as int].0, stmts(old(self).entries()[i as int].1@).push(e@)),
            ),
            final(self).entries().len() == old(self).entries().len(),
            forall|k: int|
                0 <= k < final(self).entries().len() ==> #[trigger] final(self).entries()[k].0
                    == old(self).entries()[k].0,
    {
        let ghost before = self.entries();
        let mut body = copy_exprs(self.value_at(i));
        let ghost b0 = body@;
        body.push(e);
        assert(stmts(body@) =~= stmts(b0).push(e@));
        let ghost nb = body;
        self.set_value_at(i, body);
        assert(self.entries() == before.update(i as int, (before[i as int].0, nb)));
        assert(block_views(self.entries()) =~= block_views(before).update(
            i as int,
            (before[i as int].0, stmts(before[i as int].1@).push(e@)),
        ));
    }
}

/// Copies of a list of statements.
pub fn copy_exprs(v: &Vec<Expr>) -> (r: Vec<Expr>)
    ensures
        stmts(r@) == stmts(v@),
{
    let mut r: Vec<Expr> = Vec::new();
    let mut i: usize = 0;
    while i < v.len()
        invariant
            i <= v@.len(),
            stmts(r@) == stmts(v@).take(i as int),
        decreases v@.len() - i,
    {
        let ghost r0 = r@;
        let c = v[i].copy();
        r.push(c);
        assert(stmts(r@) =~= stmts(r0).push(c@));
        i = i + 1;
        assert(stmts(r@) =~= stmts(v@).take(i as int));
    }
    assert(stmts(v@).take(i as int) =~= stmts(v@));
    r
}

/// Setting an entry commutes with viewing the blocks.
proof fn lemma_views_insert(es: Seq<(Seq<char>, Vec<Expr>)>, k: Seq<char>, v: Vec<Expr>)
    requires
        names_distinct(es),
    ensures
        block_views(entries_insert(es, k, v)) == entries_insert(block_views(es), k, stmts(v@)),
{
    let bv = block_views(es);
    if has_name(es, k) {
        let i = choose|i: int| 0 <= i < es.len() && #[trigger] es[i].0 == k;
        assert(bv[i].0 == k);
        let j = choose|j: int| 0 <= j < bv.len() && #[trigger] bv[j].0 == k;
        assert(es[j].0 == k);
        assert(i == j);
        assert(block_views(entries_insert(es, k, v)) =~= entries_insert(bv, k, stmts(v@)));
    } else {
        assert(!has_name(bv, k)) by {
            if has_name(bv, k) {
                let j = choose|j: int| 0 <= j < bv.len() && #[trigger] bv[j].0 == k;
                assert(es[j].0 == k);
            }
        }
        assert(block_views(entries_insert(es, k, v)) =~= entries_insert(bv, k, stmts(v@)));
    }
}

/// Once a line is bad, later lines change nothing.
proof fn lemma_error_persists(lines: Seq<Seq<char>>, k: int)
    requires
        0 <= k <= lines.len(),
        read_stk_lines(lines.take(k)).error is Some,
    ensures
        read_stk_lines(lines) == read_stk_lines(lines.take(k)),
    decreases lines.len() - k,
{
    if k < lines.len() {
        assert(lines.take(k + 1).drop_last() =~= lines.take(k));
        lemma_error_persists(lines, k + 1);
    } else {
        assert(lines.take(k) =~= lines);
    }
}

/// Appending to the block named `n` is appending at its position.
proof fn lemma_append_at(bv: Seq<(Seq<char>, Seq<Stmt>)>, p: int, n: Seq<char>, s: Stmt)
    requires
        names_distinct(bv),
        0 <= p < bv.len(),
        bv[p].0 == n,
    ensures
        append_stmt(bv, n, s) == bv.update(p, (n, bv[p].1.push(s))),
{
    let i = choose|i: int| 0 <= i < bv.len() && #[trigger] bv[i].0 == n;
    assert(i == p);
}

/// Reads a stack program: its blocks and their numbers.
pub fn parse_string(unparsed: &str) -> (r: Result<(LabelMap<Vec<Expr>>, LabelMap<usize>), ParseError>)
    ensures
        match stk_program(unparsed@) {
            Ok((b, i)) => r matches Ok((blocks, index)) && blocks.wf() && index.wf()
                && block_views(blocks.entries()) == b && index.entries() == i,
            Err(l) => r matches Err(e) && e.line as nat == l,
        },
{
    let text = string_chars(unparsed);
    let lines = lines_of(&text);
    let ghost ls = lines_view(lines@);
    let mut blocks: LabelMap<Vec<Expr>> = LabelMap::new();
    let mut index: LabelMap<usize> = LabelMap::new();
    let mut current: Option<usize> = None;
    let mut count: usize = 0;
    let mut k: usize = 0;
    assert(block_views(blocks.entries()) =~= Seq::<(Seq<char>, Seq<Stmt>)>::empty());
    while k < lines.len()
        invariant
            ls == lines_view(lines@),
            ls == split_lines(text@),
            text@ == unparsed@,
            k <= ls.len(),
            blocks.wf(),
            index.wf(),
            ({
                let st = read_stk_lines(ls.take(k as int));
                &&& st.error is None
                &&& block_views(blocks.entries()) == st.blocks
                &&& index.entries() == st.index
                &&& st.count == count as nat
                &&& count <= k
                &&& match current {
                    None => st.current is None,
                    Some(p) => p < blocks.entries().len() && st.current == Some(
                        blocks.entries()[p as int].0,
                    ),
                }
            }),
        decreases ls.len() - k,
    {
        let ghost st = read_stk_lines(ls.take(k as int));
        proof {
            assert(ls.take(k + 1).drop_last() =~= ls.take(k as int));
        }
        match parse_line(&lines[k]) {
            None => {
                proof {
                    lemma_error_persists(ls, k + 1);
                }
                return Err(ParseError { line: k + 1 });
            },
            Some((Some(name), _)) => {
                let ghost n = name@;
                let ghost b0 = blocks.entries();
                let empty: Vec<Expr> = Vec::new();
                let ghost ge = empty;
                blocks.insert(name.clone(), empty);
                index.insert(name.clone(), count);
                count = count + 1;
                proof {
                    lemma_views_insert(b0, n, ge);
                    assert(stmts(ge@) =~= Seq::<Stmt>::empty());
                }
                current = blocks.position(name.as_str());
                proof {
                    let st2 = read_stk_lines(ls.take(k + 1));
                    assert(stk_line(ls[k as int]) == StkLine::Label(n));
                    assert(st2.blocks == entries_insert(st.blocks, n, seq![]));
                    assert(has_name(blocks.entries(), n)) by {
                        let es = blocks.entries();
                        if has_name(b0, n) {
                            let i = choose|i: int| 0 <= i < b0.len() && #[trigger] b0[i].0 == n;
                            assert(es[i].0 == n);
                        } else {
                            assert(es[es.len() - 1].0 == n);
                        }
                    }
                    assert(current is Some);
                }
            },
            Some((None, None)) => {
                assert(stk_line(ls[k as int]) == StkLine::Blank);
            },
            Some((None, Some(e))) => {
                match current {
                    None => {
                        proof {
                            lemma_error_persists(ls, k + 1);
                        }
                        return Err(ParseError { line: k + 1 });
                    },
                    Some(p) => {
                        let ghost b0 = blocks.entries();
                        blocks.push_stmt(p, e);
                        proof {
                            lemma_append_at(block_views(b0), p as int, b0[p as int].0, e@);
                        }
                    },
                }
            },
        }
        k = k + 1;
    }
    assert(ls.take(k as int) =~= ls);
    proof {
        reveal_strlit("term");
    }
    let ghost b0 = blocks.entries();
    let term = String::from_str("term");
    assert(term@ =~= seq!['t', 'e', 'r', 'm']);
    let empty: Vec<Expr> = Vec::new();
    let ghost ge = empty;
    blocks.insert(term.clone(), empty);
    index.insert(term, count);
    proof {
        lemma_views_insert(b0, seq!['t', 'e', 'r', 'm'], ge);
        assert(stmts(ge@) =~= Seq::<Stmt>::empty());
    }
    Ok((blocks, index))
}

} // verus!
