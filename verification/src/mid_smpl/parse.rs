//! Reading mid-level programs from text. A program starts with `use NAME
//! PATH` and `var NAME num|list` lines; then come the statements of block
//! `main`, and blocks each started by `label NAME`. `lib_NAME` includes the
//! text of library `NAME` at that point; `newlabel NAME` makes a fresh block
//! that the library refers to as `@NAME`.

use super::{
    body_view, initial_value_of, mblock_views, mstmts, string_view, text_views, var_views, variable_view,
    Expr, Label, MStmt, SmplExecutor, VarView, Variable, VariableType,
};
use crate::integer::{nat_decimal, Integer};
use crate::label_map::{
    entries_insert, entries_map, has_name, lemma_entries_map_insert, lemma_entries_map_lookup,
    lemma_entries_map_names, lemma_insert_shape, lemma_lookup_insert_other, lookup, names_distinct, LabelMap,
};
use crate::piet_interpreter::{append_chars, Op, CMD};
use crate::piet_stack::parse::{comment_text, keyword_stmt, ParseError};
use crate::piet_stack::expr::Stmt;
use crate::text::{
    chars_to_string, lines_of, lines_view, parse_integer, push_str, push_usize_decimal, split_lines,
    split_words, string_chars, word_integer, word_is, words_of,
};
use vstd::prelude::*;

verus! {

/// How deeply library inclusions may nest.
pub const MAX_LIB_DEPTH: usize = 64;

/// A statement as written, jump targets not yet resolved.
pub enum RawLine {
    Blank,
    Use(Seq<char>, Seq<char>),
    Var(Seq<char>, Seq<char>),
    Label(Seq<char>),
    NewLabel(Seq<char>),
    Lib(Seq<char>),
    Statement(MStmt),
    Bad,
}

/// The number a `push` argument denotes: an integer, or a character
/// written between single quotes.
pub open spec fn push_argument(w: Seq<char>) -> Option<int> {
    if w.len() == 3 && w[0] == '\'' && w[2] == '\'' {
        Some((w[1] as u32) as int)
    } else {
        word_integer(w)
    }
}

/// What a line of a mid-level program says.
pub open spec fn mid_line(line: Seq<char>) -> RawLine {
    if line.len() > 0 && line[0] == '#' {
        RawLine::Statement(MStmt::Comment(comment_text(line)))
    } else {
        let ws = split_words(line);
        if ws.len() == 0 {
            RawLine::Blank
        } else if ws.len() == 1 {
            if ws[0].len() > 4 && ws[0].take(4) == "lib_"@ {
                RawLine::Lib(ws[0].skip(4))
            } else {
                match keyword_stmt(ws[0]) {
                    Some(Stmt::Instr(op)) => RawLine::Statement(MStmt::Instr(op)),
                    Some(Stmt::Debug) => RawLine::Statement(MStmt::Debug),
                    Some(Stmt::GotoStk) => RawLine::Statement(MStmt::GotoStk),
                    _ => RawLine::Bad,
                }
            }
        } else if ws.len() == 2 && ws[0] == "label"@ {
            RawLine::Label(ws[1])
        } else if ws.len() == 2 && ws[0] == "newlabel"@ {
            RawLine::NewLabel(ws[1])
        } else if ws.len() == 2 && ws[0] == "push"@ {
            match push_argument(ws[1]) {
                Some(v) => RawLine::Statement(MStmt::Instr(Op::Push(v))),
                None => RawLine::Bad,
            }
        } else if ws.len() == 2 && ws[0] == "goto"@ {
            RawLine::Statement(MStmt::Goto(ws[1]))
        } else if ws.len() == 3 && ws[0] == "branch"@ {
            RawLine::Statement(MStmt::Branch(ws[1], ws[2]))
        } else if ws.len() == 2 && ws[0] == "set"@ {
            RawLine::Statement(MStmt::SetVar(ws[1]))
        } else if ws.len() == 2 && ws[0] == "get"@ {
            RawLine::Statement(MStmt::GetVar(ws[1]))
        } else if ws.len() == 3 && ws[0] == "use"@ {
            RawLine::Use(ws[1], ws[2])
        } else if ws.len() == 3 && ws[0] == "var"@ {
            RawLine::Var(ws[1], ws[2])
        } else {
            RawLine::Bad
        }
    }
}

/// Progress of reading a program.
pub struct SmplReading {
    pub blocks: Seq<(Seq<char>, Seq<MStmt>)>,
    pub index: Seq<(Seq<char>, usize)>,
    pub variables: Seq<(Seq<char>, VarView)>,
    pub imports: Seq<(Seq<char>, Seq<char>)>,
    pub label_map: Seq<(Seq<char>, Seq<char>)>,
    pub label_count: nat,
    pub current: Seq<char>,
    pub header: bool,
    pub error: Option<nat>,
}

/// The block a label word names: `@NAME` is the block made for the local
/// label `NAME`, any other word names itself.
pub open spec fn resolve_label(label_map: Seq<(Seq<char>, Seq<char>)>, w: Seq<char>) -> Option<Seq<char>> {
    if w.len() > 0 && w[0] == '@' {
        lookup(label_map, w.skip(1))
    } else {
        Some(w)
    }
}

/// A statement with its jump targets resolved.
pub open spec fn resolve_stmt(label_map: Seq<(Seq<char>, Seq<char>)>, s: MStmt) -> Option<MStmt> {
    match s {
        MStmt::Goto(w) => match resolve_label(label_map, w) {
            Some(l) => Some(MStmt::Goto(l)),
            None => None,
        },
        MStmt::Branch(a, b) => match (resolve_label(label_map, a), resolve_label(label_map, b)) {
            (Some(x), Some(y)) => Some(MStmt::Branch(x, y)),
            _ => None,
        },
        _ => Some(s),
    }
}

/// `blocks` with `s` appended to the block named `name`.
pub open spec fn append_mstmt(
    blocks: Seq<(Seq<char>, Seq<MStmt>)>,
    name: Seq<char>,
    s: MStmt,
) -> Seq<(Seq<char>, Seq<MStmt>)> {
    let i = choose|i: int| 0 <= i < blocks.len() && #[trigger] blocks[i].0 == name;
    blocks.update(i, (name, blocks[i].1.push(s)))
}

/// The name made for the `n`-th local label.
pub open spec fn local_label_name(n: nat) -> Seq<char> {
    "l_ref_"@ + nat_decimal(n)
}

/// The reading with an error at line `lineno`.
pub open spec fn failed(st: SmplReading, lineno: nat) -> SmplReading {
    SmplReading { error: Some(lineno), ..st }
}

/// The reading after one line (numbered `lineno`) of a text; `top` tells
/// whether the text is the program itself rather than a library.
pub open spec fn read_mid_line(
    st: SmplReading,
    line: Seq<char>,
    lineno: nat,
    top: bool,
    depth: nat,
    libs: Seq<(Seq<char>, Seq<char>)>,
) -> SmplReading
    decreases depth, 0nat,
{
    match mid_line(line) {
        RawLine::Blank => st,
        RawLine::Bad => failed(st, lineno),
        RawLine::Use(n, p) => if st.header {
            SmplReading { imports: entries_insert(st.imports, n, p), ..st }
        } else {
            failed(st, lineno)
        },
        RawLine::Var(n, t) => if !st.header {
            failed(st, lineno)
        } else if t == "num"@ {
            SmplReading {
                variables: entries_insert(
                    st.variables,
                    n,
                    VarView { var_type: VariableType::NUM, value: 0, var_index: st.variables.len() as usize },
                ),
                ..st
            }
        } else if t == "list"@ {
            SmplReading {
                variables: entries_insert(
                    st.variables,
                    n,
                    VarView { var_type: VariableType::LIST, value: -1, var_index: st.variables.len() as usize },
                ),
                ..st
            }
        } else {
            st
        },
        RawLine::Label(w) => if w.len() > 0 && w[0] == '@' {
            match lookup(st.label_map, w.skip(1)) {
                None => failed(st, lineno),
                Some(a) => if has_name(st.blocks, a) {
                    SmplReading { current: a, header: false, ..st }
                } else {
                    failed(st, lineno)
                },
            }
        } else {
            SmplReading {
                blocks: entries_insert(st.blocks, w, seq![]),
                index: entries_insert(st.index, w, st.index.len() as usize),
                current: w,
                header: false,
                ..st
            }
        },
        RawLine::NewLabel(w) => if st.label_count >= usize::MAX {
            failed(st, lineno)
        } else {
            let a = local_label_name(st.label_count);
            SmplReading {
                blocks: entries_insert(st.blocks, a, seq![MStmt::Instr(Op::Nop)]),
                index: entries_insert(st.index, a, st.index.len() as usize),
                label_map: entries_insert(st.label_map, w, a),
                label_count: st.label_count + 1,
                header: false,
                ..st
            }
        },
        RawLine::Lib(x) => match lookup(libs, x) {
            None => failed(st, lineno),
            Some(src) => if depth == 0 {
                failed(st, lineno)
            } else {
                let s0 = SmplReading { header: false, ..st };
                let s1 = if top {
                    SmplReading {
                        blocks: append_mstmt(s0.blocks, s0.current, MStmt::Comment(seq!['+'] + x)),
                        ..s0
                    }
                } else {
                    s0
                };
                let s2 = read_mid_lines(s1, split_lines(src), false, (depth - 1) as nat, libs);
                if s2.error is Some {
                    failed(st, lineno)
                } else if top {
                    SmplReading {
                        blocks: append_mstmt(s2.blocks, s2.current, MStmt::Comment(seq!['-'] + x)),
                        ..s2
                    }
                } else {
                    s2
                }
            },
        },
        RawLine::Statement(raw) => match resolve_stmt(st.label_map, raw) {
            None => failed(st, lineno),
            Some(s) => SmplReading {
                blocks: append_mstmt(st.blocks, st.current, s),
                header: false,
                ..st
            },
        },
    }
}

/// The reading after the given lines; it stops at the first bad line.
pub open spec fn read_mid_lines(
    st: SmplReading,
    lines: Seq<Seq<char>>,
    top: bool,
    depth: nat,
    libs: Seq<(Seq<char>, Seq<char>)>,
) -> SmplReading
    decreases depth, lines.len(),
{
    if lines.len() == 0 {
        st
    } else {
        let s = read_mid_lines(st, lines.drop_last(), top, depth, libs);
        if s.error is Some {
            s
        } else {
            read_mid_line(s, lines.last(), lines.len(), top, depth, libs)
        }
    }
}

/// The name of register `i`.
pub open spec fn register_name(i: nat) -> Seq<char> {
    "__R"@ + nat_decimal(i) + "__"@
}

/// The registers of a program with `n` of them: number variables named
/// after their slot.
pub open spec fn register_vars(n: nat) -> Seq<(Seq<char>, VarView)>
    decreases n,
{
    if n == 0 {
        seq![]
    } else {
        let p = register_vars((n - 1) as nat);
        entries_insert(
            p,
            register_name(p.len()),
            VarView { var_type: VariableType::NUM, value: 0, var_index: p.len() as usize },
        )
    }
}

/// The reading before the first line.
pub open spec fn initial_reading(registers: nat) -> SmplReading {
    SmplReading {
        blocks: seq![(seq!['m', 'a', 'i', 'n'], seq![])],
        index: seq![(seq!['m', 'a', 'i', 'n'], 0usize)],
        variables: register_vars(registers),
        imports: seq![],
        label_map: seq![],
        label_count: 0,
        current: seq!['m', 'a', 'i', 'n'],
        header: true,
        error: None,
    }
}

/// The program a text denotes, with `registers` registers and the given
/// library texts: what reading all its lines gives, with an empty block
/// `term` numbered after all; or the number of the first line not
/// understood.
pub open spec fn smpl_program(
    text: Seq<char>,
    registers: nat,
    libs: Seq<(Seq<char>, Seq<char>)>,
) -> Result<SmplReading, nat> {
    let st = read_mid_lines(initial_reading(registers), split_lines(text), true, MAX_LIB_DEPTH as nat, libs);
    match st.error {
        Some(l) => Err(l),
        None => Ok(
            SmplReading {
                blocks: entries_insert(st.blocks, seq!['t', 'e', 'r', 'm'], seq![]),
                index: entries_insert(st.index, seq!['t', 'e', 'r', 'm'], st.index.len() as usize),
                ..st
            },
        ),
    }
}

/// A line as the reader sees it, with targets still as written.
enum LineKind {
    Blank,
    Use(String, String),
    Var(String, String),
    Label(String),
    NewLabel(String),
    Lib(String),
    Statement(Expr),
    Bad,
}

/// Whether a line kind is what `mid_line` says, with statement targets
/// still as written.
spec fn kind_matches(k: LineKind, r: RawLine) -> bool {
    match (k, r) {
        (LineKind::Blank, RawLine::Blank) => true,
        (LineKind::Use(a, b), RawLine::Use(x, y)) => a@ == x && b@ == y,
        (LineKind::Var(a, b), RawLine::Var(x, y)) => a@ == x && b@ == y,
        (LineKind::Label(a), RawLine::Label(x)) => a@ == x,
        (LineKind::NewLabel(a), RawLine::NewLabel(x)) => a@ == x,
        (LineKind::Lib(a), RawLine::Lib(x)) => a@ == x,
        (LineKind::Statement(e), RawLine::Statement(s)) => e@ == s,
        (LineKind::Bad, RawLine::Bad) => true,
        _ => false,
    }
}

/// The characters of `v` from position `start` on, as a `String`.
fn tail_string(v: &Vec<char>, start: usize) -> (r: String)
    requires
        start <= v@.len(),
    ensures
        r@ == v@.skip(start as int),
{
    let mut t: Vec<char> = Vec::new();
    let mut i = start;
    while i < v.len()
        invariant
            start <= i <= v@.len(),
            t@ == v@.subrange(start as int, i as int),
        decreases v@.len() - i,
    {
        t.push(v[i]);
        i = i + 1;
        assert(t@ =~= v@.subrange(start as int, i as int));
    }
    assert(t@ =~= v@.skip(start as int));
    chars_to_string(&t)
}

/// Reads a `push` argument.
fn parse_push_argument(w: &Vec<char>) -> (r: Option<Integer>)
    ensures
        r is Some <==> push_argument(w@) is Some,
        r matches Some(v) ==> Some(v@) == push_argument(w@),
{
    if w.len() == 3 && w[0] == '\'' && w[2] == '\'' {
        let code: u32 = w[1] as u32;
        Some(Integer::from_i64(code as i64))
    } else {
        parse_integer(w)
    }
}

/// Classifies a line.
fn classify(line: &Vec<char>) -> (r: LineKind)
    ensures
        kind_matches(r, mid_line(line@)),
{
    proof {
        reveal_strlit("pop");
        reveal_strlit("add");
        reveal_strlit("sub");
        reveal_strlit("mul");
        reveal_strlit("div");
        reveal_strlit("mod");
        reveal_strlit("not");
        reveal_strlit("greater");
        reveal_strlit("dup");
        reveal_strlit("roll");
        reveal_strlit("inN");
        reveal_strlit("inC");
        reveal_strlit("outN");
        reveal_strlit("outC");
        reveal_strlit("debug");
        reveal_strlit("goto_stk");
        reveal_strlit("label");
        reveal_strlit("newlabel");
        reveal_strlit("push");
        reveal_strlit("goto");
        reveal_strlit("branch");
        reveal_strlit("set");
        reveal_strlit("get");
        reveal_strlit("use");
        reveal_strlit("var");
        reveal_strlit("lib_");
    }
    if line.len() > 0 && line[0] == '#' {
        let start: usize = if line.len() >= 2 && line[1] == ' ' { 2 } else { 1 };
        return LineKind::Statement(Expr::Comment(tail_string(line, start)));
    }
    let ws = words_of(line);
    let n = ws.len();
    if n == 0 {
        return LineKind::Blank;
    }
    let w0 = &ws[0];
    if n == 1 {
        if w0.len() > 4 && w0[0] == 'l' && w0[1] == 'i' && w0[2] == 'b' && w0[3] == '_' {
            assert(w0@.take(4) =~= "lib_"@);
            return LineKind::Lib(tail_string(w0, 4));
        }
        assert(!(w0@.len() > 4 && w0@.take(4) == "lib_"@)) by {
            if w0@.len() > 4 && w0@.take(4) == "lib_"@ {
                assert(w0@[0] == w0@.take(4)[0]);
                assert(w0@[1] == w0@.take(4)[1]);
                assert(w0@[2] == w0@.take(4)[2]);
                assert(w0@[3] == w0@.take(4)[3]);
            }
        }
        let e = if word_is(w0, "pop") {
            Expr::Instr(CMD::Pop)
        } else if word_is(w0, "add") {
            Expr::Instr(CMD::Add)
        } else if word_is(w0, "sub") {
            Expr::Instr(CMD::Sub)
        } else if word_is(w0, "mul") {
            Expr::Instr(CMD::Mul)
        } else if word_is(w0, "div") {
            Expr::Instr(CMD::Div)
        } else if word_is(w0, "mod") {
            Expr::Instr(CMD::Mod)
        } else if word_is(w0, "not") {
            Expr::Instr(CMD::Not)
        } else if word_is(w0, "greater") {
            Expr::Instr(CMD::Greater)
        } else if word_is(w0, "dup") {
            Expr::Instr(CMD::Dup)
        } else if word_is(w0, "roll") {
            Expr::Instr(CMD::Roll)
        } else if word_is(w0, "inN") {
            Expr::Instr(CMD::InN)
        } else if word_is(w0, "inC") {
            Expr::Instr(CMD::InC)
        } else if word_is(w0, "outN") {
            Expr::Instr(CMD::OutN)
        } else if word_is(w0, "outC") {
            Expr::Instr(CMD::OutC)
        } else if word_is(w0, "debug") {
            Expr::Debug
        } else if word_is(w0, "goto_stk") {
            Expr::GotoStk
        } else {
            return LineKind::Bad;
        };
        return LineKind::Statement(e);
    }
    if n == 2 && word_is(w0, "label") {
        return LineKind::Label(chars_to_string(&ws[1]));
    }
    if n == 2 && word_is(w0, "newlabel") {
        return LineKind::NewLabel(chars_to_string(&ws[1]));
    }
    if n == 2 && word_is(w0, "push") {
        return match parse_push_argument(&ws[1]) {
            Some(v) => LineKind::Statement(Expr::Instr(CMD::Push(v))),
            None => LineKind::Bad,
        };
    }
    if n == 2 && word_is(w0, "goto") {
        return LineKind::Statement(Expr::Goto(Label::Name(chars_to_string(&ws[1]))));
    }
    if n == 3 && word_is(w0, "branch") {
        return LineKind::Statement(
            Expr::Branch(Label::Name(chars_to_string(&ws[1])), Label::Name(chars_to_string(&ws[2]))),
        );
    }
    if n == 2 && word_is(w0, "set") {
        return LineKind::Statement(Expr::SetVar(chars_to_string(&ws[1])));
    }
    if n == 2 && word_is(w0, "get") {
        return LineKind::Statement(Expr::GetVar(chars_to_string(&ws[1])));
    }
    if n == 3 && word_is(w0, "use") {
        return LineKind::Use(chars_to_string(&ws[1]), chars_to_string(&ws[2]));
    }
    if n == 3 && word_is(w0, "var") {
        return LineKind::Var(chars_to_string(&ws[1]), chars_to_string(&ws[2]));
    }
    LineKind::Bad
}


/// A program being read, as plain values.
struct SmplParser {
    blocks: LabelMap<Vec<Expr>>,
    index: LabelMap<usize>,
    variables: LabelMap<Variable>,
    imports: LabelMap<String>,
    label_map: LabelMap<String>,
    label_count: usize,
    current: usize,
    header: bool,
}

impl SmplParser {
    /// Names are distinct in every map, and the current block exists.
    spec fn inv(&self) -> bool {
        &&& self.blocks.wf()
        &&& self.index.wf()
        &&& self.variables.wf()
        &&& self.imports.wf()
        &&& self.label_map.wf()
        &&& self.current < self.blocks.entries().len()
    }

    /// The reading this state stands for.
    spec fn reading(&self) -> SmplReading {
        SmplReading {
            blocks: mblock_views(self.blocks.entries()),
            index: self.index.entries(),
            variables: var_views(self.variables.entries()),
            imports: text_views(self.imports.entries()),
            label_map: text_views(self.label_map.entries()),
            label_count: self.label_count as nat,
            current: self.blocks.entries()[self.current as int].0,
            header: self.header,
            error: None,
        }
    }

    /// Appends a statement to the current block.
    fn append(&mut self, e: Expr)
        requires
            old(self).inv(),
        ensures
            final(self).inv(),
            final(self).reading() == (SmplReading {
                blocks: append_mstmt(old(self).reading().blocks, old(self).reading().current, e@),
                ..old(self).reading()
            }),
    {
        let ghost b0 = self.blocks.entries();
        let ghost ev = e@;
        let c = self.current;
        self.blocks.push_item(c, e);
        proof {
            let b1 = self.blocks.entries();
            lemma_entries_map_names(b0, body_view());
            lemma_entries_map_names(b1, body_view());
            let bv = mblock_views(b0);
            let i = choose|i: int| 0 <= i < bv.len() && #[trigger] bv[i].0 == b0[c as int].0;
            assert(bv[c as int].0 == b0[c as int].0);
            assert(i == c);
            assert(mstmts(b1[c as int].1@) =~= mstmts(b0[c as int].1@).push(ev));
            assert(mblock_views(b1) =~= append_mstmt(bv, b0[c as int].0, ev));
        }
    }

    /// Starts (or restarts, emptied) the block `name` and makes it current.
    fn start_block(&mut self, name: String)
        requires
            old(self).inv(),
        ensures
            final(self).inv(),
            final(self).reading() == (SmplReading {
                blocks: entries_insert(old(self).reading().blocks, name@, seq![]),
                index: entries_insert(old(self).reading().index, name@, old(self).reading().index.len() as usize),
                current: name@,
                header: false,
                ..old(self).reading()
            }),
    {
        let ghost b0 = self.blocks.entries();
        let n = self.index.len();
        let empty: Vec<Expr> = Vec::new();
        let ghost ge = empty;
        self.blocks.insert(name.clone(), empty);
        self.index.insert(name.clone(), n);
        proof {
            lemma_entries_map_insert(b0, name@, ge, body_view());
            assert(mstmts(ge@) =~= Seq::<MStmt>::empty());
            lemma_insert_shape(b0, name@, ge);
        }
        self.current = self.blocks.position(name.as_str()).unwrap();
        self.header = false;
    }

    /// Makes the block for a fresh local label `w`.
    fn new_label(&mut self, w: String)
        requires
            old(self).inv(),
            old(self).label_count < usize::MAX,
        ensures
            final(self).inv(),
            final(self).reading() == (SmplReading {
                blocks: entries_insert(
                    old(self).reading().blocks,
                    local_label_name(old(self).label_count as nat),
                    seq![MStmt::Instr(Op::Nop)],
                ),
                index: entries_insert(
                    old(self).reading().index,
                    local_label_name(old(self).label_count as nat),
                    old(self).reading().index.len() as usize,
                ),
                label_map: entries_insert(
                    old(self).reading().label_map,
                    w@,
                    local_label_name(old(self).label_count as nat),
                ),
                label_count: (old(self).label_count + 1) as nat,
                header: false,
                ..old(self).reading()
            }),
    {
        let mut cs: Vec<char> = Vec::new();
        push_str(&mut cs, "l_ref_");
        push_usize_decimal(&mut cs, self.label_count);
        let a = chars_to_string(&cs);
        assert(a@ =~= local_label_name(self.label_count as nat));
        let ghost b0 = self.blocks.entries();
        let ghost m0 = self.label_map.entries();
        let n = self.index.len();
        let body: Vec<Expr> = vec![Expr::Instr(CMD::Nop)];
        let ghost gb = body;
        self.blocks.insert(a.clone(), body);
        self.index.insert(a.clone(), n);
        self.label_map.insert(w.clone(), a);
        proof {
            lemma_entries_map_insert(b0, a@, gb, body_view());
            assert(mstmts(gb@) =~= seq![MStmt::Instr(Op::Nop)]);
            lemma_insert_shape(b0, a@, gb);
            lemma_entries_map_insert(m0, w@, a, string_view());
        }
        self.label_count = self.label_count + 1;
        self.header = false;
    }

    /// Declares variable `n` of kind `t` in the next slot.
    fn declare_var(&mut self, n: String, t: VariableType)
        requires
            old(self).inv(),
        ensures
            final(self).inv(),
            final(self).reading() == (SmplReading {
                variables: entries_insert(
                    old(self).reading().variables,
                    n@,
                    VarView {
                        var_type: t,
                        value: initial_value_of(t),
                        var_index: old(self).reading().variables.len() as usize,
                    },
                ),
                ..old(self).reading()
            }),
    {
        let ghost v0 = self.variables.entries();
        proof {
            lemma_entries_map_names(v0, variable_view());
        }
        let idx = self.variables.len();
        let v = t.initialize_var(idx);
        let ghost gv = v;
        self.variables.insert(n, v);
        proof {
            lemma_entries_map_insert(v0, n@, gv, variable_view());
        }
    }

    /// Records that library `n` is read from `path`.
    fn add_import(&mut self, n: String, path: String)
        requires
            old(self).inv(),
        ensures
            final(self).inv(),
            final(self).reading() == (SmplReading {
                imports: entries_insert(old(self).reading().imports, n@, path@),
                ..old(self).reading()
            }),
    {
        let ghost i0 = self.imports.entries();
        let ghost gp = path;
        self.imports.insert(n, path);
        proof {
            lemma_entries_map_insert(i0, n@, gp, string_view());
        }
    }

    /// The label a word written as a jump target names.
    fn resolve(&self, w: String) -> (r: Option<Label>)
        requires
            self.inv(),
        ensures
            r is Some <==> resolve_label(self.reading().label_map, w@) is Some,
            r matches Some(l) ==> resolve_label(self.reading().label_map, w@) == Some(l.name_of()),
    {
        let cs = string_chars(w.as_str());
        if cs.len() > 0 && cs[0] == '@' {
            let rest = tail_string(&cs, 1);
            proof {
                lemma_entries_map_lookup(self.label_map.entries(), rest@, string_view());
            }
            match self.label_map.get(rest.as_str()) {
                Some(a) => Some(Label::Ref(a.clone())),
                None => None,
            }
        } else {
            Some(Label::Name(w))
        }
    }

    /// A statement with its jump targets resolved.
    fn resolve_expr(&self, e: Expr) -> (r: Option<Expr>)
        requires
            self.inv(),
        ensures
            r is Some <==> resolve_stmt(self.reading().label_map, e@) is Some,
            r matches Some(x) ==> resolve_stmt(self.reading().label_map, e@) == Some(x@),
    {
        match e {
            Expr::Goto(l) => match self.resolve(l.get_label_name()) {
                Some(t) => Some(Expr::Goto(t)),
                None => None,
            },
            Expr::Branch(a, b) => {
                let ra = self.resolve(a.get_label_name());
                let rb = self.resolve(b.get_label_name());
                match (ra, rb) {
                    (Some(x), Some(y)) => Some(Expr::Branch(x, y)),
                    _ => None,
                }
            },
            other => Some(other),
        }
    }
}

/// `'c'` followed by the characters of `x`.
fn prefixed(c: char, x: &String) -> (r: String)
    ensures
        r@ == seq![c] + x@,
{
    let mut v: Vec<char> = Vec::new();
    v.push(c);
    push_str(&mut v, x.as_str());
    chars_to_string(&v)
}

/// Once a line is bad, later lines change nothing.
proof fn lemma_mid_error_persists(
    st: SmplReading,
    lines: Seq<Seq<char>>,
    k: int,
    top: bool,
    depth: nat,
    libs: Seq<(Seq<char>, Seq<char>)>,
)
    requires
        0 <= k <= lines.len(),
        read_mid_lines(st, lines.take(k), top, depth, libs).error is Some,
    ensures
        read_mid_lines(st, lines, top, depth, libs) == read_mid_lines(st, lines.take(k), top, depth, libs),
    decreases lines.len() - k,
{
    if k < lines.len() {
        assert(lines.take(k + 1).drop_last() =~= lines.take(k));
        lemma_mid_error_persists(st, lines, k + 1, top, depth, libs);
    } else {
        assert(lines.take(k) =~= lines);
    }
}

/// Reads one line, numbered `lineno`; on failure, the line number that the
/// reading reports.
fn read_line(
    p: &mut SmplParser,
    line: &Vec<char>,
    lineno: usize,
    top: bool,
    depth: usize,
    libs: &LabelMap<String>,
) -> (r: Result<(), usize>)
    requires
        old(p).inv(),
        libs.wf(),
    ensures
        ({
            let st = read_mid_line(old(p).reading(), line@, lineno as nat, top, depth as nat, text_views(libs.entries()));
            match r {
                Ok(_) => st.error is None && final(p).inv() && final(p).reading() == st,
                Err(l) => st.error == Some(l as nat),
            }
        }),
    decreases depth, 0nat,
{
    proof {
        reveal_strlit("num");
        reveal_strlit("list");
    }
    let ghost lv = text_views(libs.entries());
    let kind = classify(line);
    match kind {
        LineKind::Blank => Ok(()),
        LineKind::Bad => Err(lineno),
        LineKind::Use(n, path) => {
            if p.header {
                p.add_import(n, path);
                Ok(())
            } else {
                Err(lineno)
            }
        },
        LineKind::Var(n, t) => {
            if !p.header {
                return Err(lineno);
            }
            let tc = string_chars(t.as_str());
            if word_is(&tc, "num") {
                p.declare_var(n, VariableType::NUM);
            } else if word_is(&tc, "list") {
                p.declare_var(n, VariableType::LIST);
            }
            Ok(())
        },
        LineKind::Label(w) => {
            let cs = string_chars(w.as_str());
            if cs.len() > 0 && cs[0] == '@' {
                let rest = tail_string(&cs, 1);
                proof {
                    lemma_entries_map_lookup(p.label_map.entries(), rest@, string_view());
                }
                let a = match p.label_map.get(rest.as_str()) {
                    Some(a) => a.clone(),
                    None => {
                        return Err(lineno);
                    },
                };
                proof {
                    lemma_entries_map_names(p.blocks.entries(), body_view());
                }
                match p.blocks.position(a.as_str()) {
                    Some(pos) => {
                        p.current = pos;
                        p.header = false;
                        Ok(())
                    },
                    None => Err(lineno),
                }
            } else {
                p.start_block(w);
                Ok(())
            }
        },
        LineKind::NewLabel(w) => {
            if p.label_count == usize::MAX {
                Err(lineno)
            } else {
                p.new_label(w);
                Ok(())
            }
        },
        LineKind::Lib(x) => {
            proof {
                lemma_entries_map_lookup(libs.entries(), x@, string_view());
            }
            let src = match libs.get(x.as_str()) {
                Some(src) => src,
                None => {
                    return Err(lineno);
                },
            };
            if depth == 0 {
                return Err(lineno);
            }
            p.header = false;
            if top {
                p.append(Expr::Comment(prefixed('+', &x)));
            }
            let lines = lines_of(&string_chars(src.as_str()));
            match read_lines(p, &lines, false, depth - 1, libs) {
                Err(_) => Err(lineno),
                Ok(_) => {
                    if top {
                        p.append(Expr::Comment(prefixed('-', &x)));
                    }
                    Ok(())
                },
            }
        },
        LineKind::Statement(e) => match p.resolve_expr(e) {
            None => Err(lineno),
            Some(e2) => {
                p.append(e2);
                p.header = false;
                Ok(())
            },
        },
    }
}

/// Reads the given lines in order; on failure, the line number that the
/// reading reports.
fn read_lines(
    p: &mut SmplParser,
    lines: &Vec<Vec<char>>,
    top: bool,
    depth: usize,
    libs: &LabelMap<String>,
) -> (r: Result<(), usize>)
    requires
        old(p).inv(),
        libs.wf(),
    ensures
        ({
            let st = read_mid_lines(old(p).reading(), lines_view(lines@), top, depth as nat, text_views(libs.entries()));
            match r {
                Ok(_) => st.error is None && final(p).inv() && final(p).reading() == st,
                Err(l) => st.error == Some(l as nat),
            }
        }),
    decreases depth, 1nat,
{
    let ghost st0 = p.reading();
    let ghost ls = lines_view(lines@);
    let ghost lv = text_views(libs.entries());
    let mut k: usize = 0;
    while k < lines.len()
        invariant
            ls == lines_view(lines@),
            st0 == old(p).reading(),
            k <= lines@.len(),
            p.inv(),
            libs.wf(),
            lv == text_views(libs.entries()),
            read_mid_lines(st0, ls.take(k as int), top, depth as nat, lv).error is None,
            p.reading() == read_mid_lines(st0, ls.take(k as int), top, depth as nat, lv),
        decreases lines@.len() - k,
    {
        assert(ls.take(k + 1).drop_last() =~= ls.take(k as int));
        assert(ls.take(k + 1).last() == lines@[k as int]@);
        let ghost pre = p.reading();
        match read_line(p, &lines[k], k + 1, top, depth, libs) {
            Ok(_) => {},
            Err(l) => {
                proof {
                    assert(read_mid_lines(st0, ls.take(k + 1), top, depth as nat, lv) == read_mid_line(
                        pre,
                        lines@[k as int]@,
                        (k + 1) as nat,
                        top,
                        depth as nat,
                        lv,
                    ));
                    assert(read_mid_lines(st0, ls.take(k + 1), top, depth as nat, lv).error == Some(l as nat));
                    lemma_mid_error_persists(st0, ls, k + 1, top, depth as nat, lv);
                    assert(read_mid_lines(st0, ls, top, depth as nat, lv).error == Some(l as nat));
                }
                return Err(l);
            },
        }
        k = k + 1;
    }
    assert(ls.take(k as int) =~= ls);
    Ok(())
}

/// Whether `ex` holds the reading `st` of a program with `registers`
/// registers, ready to run from block `main` on an empty stack.
pub open spec fn executor_reads(ex: SmplExecutor, st: SmplReading, registers: usize) -> bool {
    &&& ex.blocks.wf()
    &&& ex.block_index.wf()
    &&& ex.variables.wf()
    &&& ex.imports.wf()
    &&& ex.label_map.wf()
    &&& mblock_views(ex.blocks.entries()) == st.blocks
    &&& ex.block_index.entries() == st.index
    &&& var_views(ex.variables.entries()) == st.variables
    &&& text_views(ex.imports.entries()) == st.imports
    &&& ex.label_map.entries().len() == 0
    &&& ex.label_count == 0
    &&& ex.stack@.len() == 0
    &&& ex.label@ == seq!['m', 'a', 'i', 'n']
    &&& ex.registers == registers
}

/// The registers of a program: `registers` number variables `__R0__`,
/// `__R1__`, ... in the first slots.
pub(crate) fn make_registers(registers: usize) -> (r: LabelMap<Variable>)
    ensures
        r.wf(),
        var_views(r.entries()) == register_vars(registers as nat),
{
    let mut variables: LabelMap<Variable> = LabelMap::new();
    let mut i: usize = 0;
    assert(var_views(variables.entries()) =~= register_vars(0));
    while i < registers
        invariant
            i <= registers,
            variables.wf(),
            var_views(variables.entries()) == register_vars(i as nat),
        decreases registers - i,
    {
        let idx = variables.len();
        let mut cs: Vec<char> = Vec::new();
        push_str(&mut cs, "__R");
        push_usize_decimal(&mut cs, idx);
        push_str(&mut cs, "__");
        let name = chars_to_string(&cs);
        let ghost gn = name@;
        assert(gn =~= register_name(idx as nat));
        let ghost v0 = variables.entries();
        proof {
            lemma_entries_map_names(v0, variable_view());
        }
        let v = VariableType::NUM.initialize_var(idx);
        let ghost gv = v;
        variables.insert(name, v);
        proof {
            lemma_entries_map_insert(v0, gn, gv, variable_view());
        }
        i = i + 1;
    }
    variables
}

/// The `use` lines among `lines`, in order: the name and file of each
/// library a program refers to by file.
pub open spec fn use_lines(lines: Seq<Seq<char>>) -> Seq<(Seq<char>, Seq<char>)>
    decreases lines.len(),
{
    if lines.len() == 0 {
        seq![]
    } else {
        let rest = use_lines(lines.drop_last());
        match mid_line(lines.last()) {
            RawLine::Use(n, p) => rest.push((n, p)),
            _ => rest,
        }
    }
}

/// Names and files as character sequences.
pub open spec fn file_pairs(v: Seq<(String, String)>) -> Seq<(Seq<char>, Seq<char>)> {
    v.map_values(|e: (String, String)| (e.0@, e.1@))
}

/// Whether every library that reading `lines` includes, down to `depth`
/// levels of libraries including libraries, is among `libs`.
pub open spec fn libs_present(lines: Seq<Seq<char>>, depth: nat, libs: Seq<(Seq<char>, Seq<char>)>) -> bool
    decreases depth, lines.len(),
{
    if lines.len() == 0 {
        true
    } else {
        libs_present(lines.drop_last(), depth, libs) && match mid_line(lines.last()) {
            RawLine::Lib(x) => match lookup(libs, x) {
                None => false,
                Some(src) => depth == 0 || libs_present(split_lines(src), (depth - 1) as nat, libs),
            },
            _ => true,
        }
    }
}

/// A library that reading `lines` includes, down to `depth` levels, but
/// that `libs` does not hold, if any.
fn missing_library_in(lines: &Vec<Vec<char>>, depth: usize, libs: &LabelMap<String>) -> (r: Option<String>)
    requires
        libs.wf(),
    ensures
        r is None <==> libs_present(lines_view(lines@), depth as nat, text_views(libs.entries())),
    decreases depth,
{
    let ghost tv = text_views(libs.entries());
    let ghost lv = lines_view(lines@);
    let mut i: usize = 0;
    assert(lv.take(0) =~= Seq::<Seq<char>>::empty());
    while i < lines.len()
        invariant
            libs.wf(),
            tv == text_views(libs.entries()),
            lv == lines_view(lines@),
            i <= lines@.len(),
            libs_present(lv.take(i as int), depth as nat, tv),
        decreases lines@.len() - i,
    {
        proof {
            assert(lv.take(i + 1).drop_last() =~= lv.take(i as int));
            assert(lv.take(i + 1).last() == lines@[i as int]@);
        }
        let k = classify(&lines[i]);
        match k {
            LineKind::Lib(x) => {
                proof {
                    lemma_entries_map_lookup(libs.entries(), x@, string_view());
                }
                match libs.get(x.as_str()) {
                    None => {
                        proof {
                            if libs_present(lv, depth as nat, tv) {
                                lemma_libs_present_prefix(lv, depth as nat, tv, i + 1);
                            }
                        }
                        return Some(x);
                    },
                    Some(src) => {
                        if depth > 0 {
                            let sub = lines_of(&string_chars(src.as_str()));
                            match missing_library_in(&sub, depth - 1, libs) {
                                Some(m) => {
                                    proof {
                                        if libs_present(lv, depth as nat, tv) {
                                            lemma_libs_present_prefix(lv, depth as nat, tv, i + 1);
                                        }
                                    }
                                    return Some(m);
                                },
                                None => {},
                            }
                        }
                    },
                }
            },
            _ => {},
        }
        i = i + 1;
    }
    assert(lv.take(i as int) =~= lv);
    None
}

/// Whatever `lines` include is present when it is for all their lines.
proof fn lemma_libs_present_prefix(lines: Seq<Seq<char>>, depth: nat, libs: Seq<(Seq<char>, Seq<char>)>, n: int)
    requires
        libs_present(lines, depth, libs),
        0 <= n <= lines.len(),
    ensures
        libs_present(lines.take(n), depth, libs),
    decreases lines.len(),
{
    if n < lines.len() {
        assert(lines.drop_last().take(n) =~= lines.take(n));
        lemma_libs_present_prefix(lines.drop_last(), depth, libs, n);
    } else {
        assert(lines.take(n) =~= lines);
    }
}

/// A library that a mid-level program includes, directly or through
/// other libraries, but that `libs` does not hold, if any.
pub fn missing_library(text: &str, libs: &LabelMap<String>) -> (r: Option<String>)
    requires
        libs.wf(),
    ensures
        r is None <==> libs_present(split_lines(text@), MAX_LIB_DEPTH as nat, text_views(libs.entries())),
{
    let lines = lines_of(&string_chars(text));
    missing_library_in(&lines, MAX_LIB_DEPTH, libs)
}

/// The text stored under `k`, if any.
pub open spec fn lib_text(es: Seq<(Seq<char>, String)>, k: Seq<char>) -> Option<Seq<char>> {
    match lookup(es, k) {
        Some(t) => Some(t@),
        None => None,
    }
}

/// The libraries a program may include: each built-in library, and each
/// imported one whose name no built-in library has (a built-in library
/// wins over an import of the same name).
pub fn merge_libraries(builtin: &LabelMap<String>, imported: &LabelMap<String>) -> (r: LabelMap<String>)
    requires
        builtin.wf(),
        imported.wf(),
    ensures
        r.wf(),
        forall|k: Seq<char>|
            #[trigger] lib_text(r.entries(), k) == if has_name(builtin.entries(), k) {
                lib_text(builtin.entries(), k)
            } else {
                lib_text(imported.entries(), k)
            },
{
    let mut r: LabelMap<String> = LabelMap::new();
    let ghost be = builtin.entries();
    let ghost ie = imported.entries();
    let mut i: usize = 0;
    while i < builtin.len()
        invariant
            r.wf(),
            be == builtin.entries(),
            names_distinct(be),
            i <= be.len(),
            forall|k: Seq<char>|
                #[trigger] lib_text(r.entries(), k) == if has_name(be.take(i as int), k) {
                    lib_text(be, k)
                } else {
                    None
                },
        decreases be.len() - i,
    {
        let name = builtin.name_at(i);
        let text = builtin.value_at(i);
        let ghost r0 = r.entries();
        let n2 = name.clone();
        let t2 = text.clone();
        let ghost tv = t2;
        r.insert(n2, t2);
        proof {
            lemma_insert_shape(r0, name@, tv);
            assert forall|k: Seq<char>|
                #[trigger] lib_text(r.entries(), k) == if has_name(be.take(i + 1), k) {
                    lib_text(be, k)
                } else {
                    None
                } by {
                assert(be.take(i + 1)[i as int] == be[i as int]);
                if k == name@ {
                    assert(has_name(be.take(i + 1), k));
                    let j = choose|j: int| 0 <= j < be.len() && #[trigger] be[j].0 == k;
                    assert(j == i);
                } else {
                    lemma_lookup_insert_other(r0, name@, tv, k);
                    assert(lib_text(r0, k) == lib_text(r.entries(), k));
                    if has_name(be.take(i + 1), k) {
                        let j = choose|j: int| 0 <= j < i + 1 && #[trigger] be.take(i + 1)[j].0 == k;
                        assert(be.take(i as int)[j].0 == k);
                    }
                    if has_name(be.take(i as int), k) {
                        let j = choose|j: int| 0 <= j < i && #[trigger] be.take(i as int)[j].0 == k;
                        assert(be.take(i + 1)[j].0 == k);
                    }
                }
            }
        }
        i = i + 1;
    }
    proof {
        assert(be.take(i as int) =~= be);
    }
    let mut j: usize = 0;
    while j < imported.len()
        invariant
            r.wf(),
            be == builtin.entries(),
            ie == imported.entries(),
            names_distinct(ie),
            j <= ie.len(),
            forall|k: Seq<char>|
                #[trigger] lib_text(r.entries(), k) == if has_name(be, k) {
                    lib_text(be, k)
                } else if has_name(ie.take(j as int), k) {
                    lib_text(ie, k)
                } else {
                    None
                },
        decreases ie.len() - j,
    {
        let name = imported.name_at(j);
        let text = imported.value_at(j);
        let ghost r0 = r.entries();
        proof {
            assert(ie.take(j + 1)[j as int] == ie[j as int]);
            assert forall|k: Seq<char>| k != name@ implies (has_name(ie.take(j + 1), k) <==> has_name(
                ie.take(j as int),
                k,
            )) by {
                if has_name(ie.take(j + 1), k) {
                    let q = choose|q: int| 0 <= q < j + 1 && #[trigger] ie.take(j + 1)[q].0 == k;
                    assert(ie.take(j as int)[q].0 == k);
                }
                if has_name(ie.take(j as int), k) {
                    let q = choose|q: int| 0 <= q < j && #[trigger] ie.take(j as int)[q].0 == k;
                    assert(ie.take(j + 1)[q].0 == k);
                }
            }
            assert(has_name(ie.take(j + 1), name@));
            if has_name(ie.take(j as int), name@) {
                let q = choose|q: int| 0 <= q < j && #[trigger] ie.take(j as int)[q].0 == name@;
                assert(ie[q].0 == name@);
            }
            let q = choose|q: int| 0 <= q < ie.len() && #[trigger] ie[q].0 == name@;
            assert(q == j);
        }
        if !r.contains_key(name.as_str()) {
            let n2 = name.clone();
            let t2 = text.clone();
            let ghost tv = t2;
            r.insert(n2, t2);
            proof {
                lemma_insert_shape(r0, name@, tv);
                assert forall|k: Seq<char>|
                    #[trigger] lib_text(r.entries(), k) == if has_name(be, k) {
                        lib_text(be, k)
                    } else if has_name(ie.take(j + 1), k) {
                        lib_text(ie, k)
                    } else {
                        None
                    } by {
                    if k != name@ {
                        lemma_lookup_insert_other(r0, name@, tv, k);
                        assert(lib_text(r0, k) == lib_text(r.entries(), k));
                    } else {
                        assert(!has_name(be, k));
                    }
                }
            }
        } else {
            proof {
                assert forall|k: Seq<char>|
                    #[trigger] lib_text(r.entries(), k) == if has_name(be, k) {
                        lib_text(be, k)
                    } else if has_name(ie.take(j + 1), k) {
                        lib_text(ie, k)
                    } else {
                        None
                    } by {
                    if k == name@ {
                        assert(lib_text(r.entries(), k) is Some);
                    }
                }
            }
        }
        j = j + 1;
    }
    proof {
        assert(ie.take(j as int) =~= ie);
    }
    r
}

/// The libraries a program text refers to by file: the name and file of
/// each of its `use` lines, in order.
pub fn imported_files(text: &str) -> (r: Vec<(String, String)>)
    ensures
        file_pairs(r@) == use_lines(split_lines(text@)),
{
    let lines = lines_of(&string_chars(text));
    let ghost lv = lines_view(lines@);
    let mut r: Vec<(String, String)> = Vec::new();
    let mut i: usize = 0;
    assert(lv.take(0) =~= Seq::<Seq<char>>::empty());
    while i < lines.len()
        invariant
            i <= lines@.len(),
            lv == lines_view(lines@),
            lv.len() == lines@.len(),
            file_pairs(r@) == use_lines(lv.take(i as int)),
        decreases lines@.len() - i,
    {
        let ghost rb = r@;
        assert(lv.take(i + 1).drop_last() =~= lv.take(i as int));
        assert(lv[i as int] == lines@[i as int]@);
        match classify(&lines[i]) {
            LineKind::Use(n, p) => {
                r.push((n, p));
                assert(file_pairs(r@) =~= file_pairs(rb).push((r@.last().0@, r@.last().1@)));
            },
            _ => {},
        }
        i = i + 1;
    }
    assert(lv.take(lines@.len() as int) =~= lv);
    r
}

impl SmplExecutor {
    /// Reads a mid-level program with `registers` registers; `libs` holds
    /// the text of each library by name. The result is what
    /// `smpl_program` says: the program, or the number of the first line
    /// of `text` that could not be read (a line including a library counts
    /// as bad when the library cannot be read). Every library the program
    /// includes must be among `libs` (`missing_library` finds one that is
    /// not).
    pub fn from_source(text: &str, registers: usize, libs: &LabelMap<String>) -> (r: Result<
        SmplExecutor,
        ParseError,
    >)
        requires
            libs.wf(),
            libs_present(split_lines(text@), MAX_LIB_DEPTH as nat, text_views(libs.entries())),
        ensures
            match smpl_program(text@, registers as nat, text_views(libs.entries())) {
                Ok(st) => r matches Ok(ex) && executor_reads(ex, st, registers),
                Err(l) => r matches Err(e) && e.line as nat == l,
            },
    {
        proof {
            reveal_strlit("main");
            reveal_strlit("term");
        }
        let variables = make_registers(registers);
        let main = String::from_str("main");
        assert(main@ =~= seq!['m', 'a', 'i', 'n']);
        let mut blocks: LabelMap<Vec<Expr>> = LabelMap::new();
        let mut index: LabelMap<usize> = LabelMap::new();
        let empty: Vec<Expr> = Vec::new();
        let ghost ge = empty;
        blocks.insert(main.clone(), empty);
        index.insert(main, 0);
        let mut p = SmplParser {
            blocks,
            index,
            variables,
            imports: LabelMap::new(),
            label_map: LabelMap::new(),
            label_count: 0,
            current: 0,
            header: true,
        };
        proof {
            assert(mstmts(ge@) =~= Seq::<MStmt>::empty());
            assert(p.blocks.entries() =~= seq![(seq!['m', 'a', 'i', 'n'], ge)]);
            assert(mblock_views(p.blocks.entries()) =~= seq![(seq!['m', 'a', 'i', 'n'], Seq::<MStmt>::empty())]);
            assert(p.index.entries() =~= seq![(seq!['m', 'a', 'i', 'n'], 0usize)]);
            assert(text_views(p.imports.entries()) =~= Seq::<(Seq<char>, Seq<char>)>::empty());
            assert(text_views(p.label_map.entries()) =~= Seq::<(Seq<char>, Seq<char>)>::empty());
            assert(p.reading() == initial_reading(registers as nat));
        }
        let lines = lines_of(&string_chars(text));
        match read_lines(&mut p, &lines, true, MAX_LIB_DEPTH, libs) {
            Err(l) => Err(ParseError { line: l }),
            Ok(_) => {
                let ghost b0 = p.blocks.entries();
                let term = String::from_str("term");
                assert(term@ =~= seq!['t', 'e', 'r', 'm']);
                let n = p.index.len();
                let tail: Vec<Expr> = Vec::new();
                let ghost gt = tail;
                p.blocks.insert(term.clone(), tail);
                p.index.insert(term, n);
                proof {
                    lemma_entries_map_insert(b0, seq!['t', 'e', 'r', 'm'], gt, body_view());
                    assert(mstmts(gt@) =~= Seq::<MStmt>::empty());
                }
                Ok(
                    SmplExecutor {
                        blocks: p.blocks,
                        block_index: p.index,
                        variables: p.variables,
                        stack: Vec::new(),
                        label: String::from_str("main"),
                        registers,
                        imports: p.imports,
                        label_map: LabelMap::new(),
                        label_count: 0,
                    },
                )
            },
        }
    }
}

} // verus!
