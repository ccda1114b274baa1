//! Stack programs: named blocks of statements run by the Piet stack machine.

pub mod expr;
pub mod optimize;
pub mod parse;
pub mod read_back;
pub mod run_block;
pub mod stk_to_file;
pub mod stk_to_piet;

use crate::integer::Integer;
use crate::io::ByteInput;
use crate::label_map::{has_name, lookup, text_eq, LabelMap};
use crate::piet_interpreter::{cmd_crashes, cmd_effect, values};
use crate::text::{chars_to_string, decimal_list, push_decimal_list, push_str};
use expr::{stmts, Expr, Stmt};
use vstd::prelude::*;
use vstd::string::StringSliceAdditionalSpecFns;

verus! {

/// How a run ended.
#[derive(Copy, Clone, PartialEq, Eq, Debug, Structural)]
pub enum RunOutcome {
    /// The program reached the `term` block.
    Finished,
    /// The program aborted: a missing block, a branch on an empty stack, or
    /// a command that aborts the machine.
    Crashed,
    /// The step budget ran out first.
    OutOfFuel,
}

/// The name of the block that ends a program.
pub open spec fn term_label() -> Seq<char> {
    seq!['t', 'e', 'r', 'm']
}

/// The first name whose index is `n`, if any.
pub open spec fn name_with_index(es: Seq<(Seq<char>, usize)>, n: int) -> Option<Seq<char>>
    decreases es.len(),
{
    if es.len() == 0 {
        None
    } else if es[0].1 as int == n {
        Some(es[0].0)
    } else {
        name_with_index(es.drop_first(), n)
    }
}

/// The line a `Debug` statement writes for a stack.
pub open spec fn debug_line(stack: Seq<int>) -> Seq<char> {
    seq!['D', 'e', 'b', 'u', 'g', ':', ' ', '['] + decimal_list(stack) + seq![']', '\n']
}

/// The state of a running stack program.
pub struct StkMachine {
    pub label: Seq<char>,
    pub pc: nat,
    pub stack: Seq<int>,
    pub input: Seq<u8>,
    pub output: Seq<char>,
    pub log: Seq<char>,
}

/// One step of a running program: the next state, and `false` when the
/// program aborts (the state is then left as it was).
pub open spec fn stk_step(
    blocks: Seq<(Seq<char>, Vec<Expr>)>,
    index: Seq<(Seq<char>, usize)>,
    m: StkMachine,
) -> (StkMachine, bool) {
    match lookup(blocks, m.label) {
        None => (m, false),
        Some(body) => if m.pc >= body@.len() {
            (StkMachine { pc: 0, ..m }, true)
        } else {
            match body@[m.pc as int]@ {
                Stmt::Instr(c) => if cmd_crashes(c, m.stack, m.input) {
                    (m, false)
                } else {
                    let (s, i, o, ok) = cmd_effect(c, m.stack, m.input);
                    (StkMachine { pc: m.pc + 1, stack: s, input: i, output: m.output + o, ..m }, true)
                },
                Stmt::Goto(l) => (StkMachine { label: l, pc: 0, ..m }, true),
                Stmt::Branch(t, e) => if m.stack.len() == 0 {
                    (m, false)
                } else {
                    (StkMachine {
                        label: if m.stack.last() == 0 { e } else { t },
                        pc: 0,
                        stack: m.stack.drop_last(),
                        ..m
                    }, true)
                },
                Stmt::Debug => (StkMachine { pc: m.pc + 1, log: m.log + debug_line(m.stack), ..m }, true),
                Stmt::Comment(_) => (StkMachine { pc: m.pc + 1, ..m }, true),
                Stmt::GotoStk => if m.stack.len() == 0 {
                    (m, false)
                } else {
                    match name_with_index(index, m.stack.last()) {
                        None => (m, false),
                        Some(l) => (StkMachine { label: l, pc: 0, stack: m.stack.drop_last(), ..m }, true),
                    }
                },
            }
        },
    }
}

/// Runs a program for at most `fuel` steps.
pub open spec fn stk_run(
    blocks: Seq<(Seq<char>, Vec<Expr>)>,
    index: Seq<(Seq<char>, usize)>,
    m: StkMachine,
    fuel: nat,
) -> (StkMachine, RunOutcome)
    decreases fuel,
{
    if m.label == term_label() {
        (m, RunOutcome::Finished)
    } else if fuel == 0 {
        (m, RunOutcome::OutOfFuel)
    } else {
        let (m2, ok) = stk_step(blocks, index, m);
        if ok {
            stk_run(blocks, index, m2, (fuel - 1) as nat)
        } else {
            (m2, RunOutcome::Crashed)
        }
    }
}

/// A stack program with the state of its machine.
pub struct PietStackExecutor {
    /// The statements of each block.
    pub blocks: LabelMap<Vec<Expr>>,
    /// The number of each block.
    pub block_index: LabelMap<usize>,
    /// The machine's stack, bottom first.
    pub stack: Vec<Integer>,
    /// The block being run.
    pub label: String,
}

impl PietStackExecutor {
    /// The maps have distinct names.
    pub open spec fn wf(&self) -> bool {
        self.blocks.wf() && self.block_index.wf()
    }

    /// The machine state at the start of the current block.
    pub open spec fn machine(&self, input: Seq<u8>, output: Seq<char>, log: Seq<char>) -> StkMachine {
        StkMachine { label: self.label@, pc: 0, stack: values(self.stack@), input, output, log }
    }

    /// The first block whose number is `n`.
    fn block_with_index(&self, n: &Integer) -> (r: Option<String>)
        ensures
            r matches Some(l) ==> name_with_index(self.block_index.entries(), n@) == Some(l@),
            r is None ==> name_with_index(self.block_index.entries(), n@) is None,
    {
        let ghost es = self.block_index.entries();
        assert(es.skip(0) =~= es);
        let mut i: usize = 0;
        while i < self.block_index.len()
            invariant
                i <= es.len(),
                es == self.block_index.entries(),
                name_with_index(es, n@) == name_with_index(es.skip(i as int), n@),
            decreases es.len() - i,
        {
            let v = Integer::from_usize(*self.block_index.value_at(i));
            proof {
                assert(es.skip(i as int).drop_first() =~= es.skip(i + 1));
            }
            if v.equals(n) {
                return Some(self.block_index.name_at(i).clone());
            }
            i = i + 1;
        }
        None
    }

    /// Runs the program from the start of the current block until it reaches
    /// `term`, aborts, or has taken `fuel` steps. Output goes to `output`,
    /// the lines of `Debug` statements to `log`.
    pub fn interpret(
        &mut self,
        input: &mut ByteInput,
        output: &mut Vec<char>,
        log: &mut Vec<char>,
        fuel: usize,
    ) -> (r: RunOutcome)
        requires
            old(self).wf(),
        ensures
            ({
                let (m, o) = stk_run(
                    old(self).blocks.entries(),
                    old(self).block_index.entries(),
                    old(self).machine(old(input)@, old(output)@, old(log)@),
                    fuel as nat,
                );
                &&& r == o
                &&& final(self).label@ == m.label
                &&& values(final(self).stack@) == m.stack
                &&& final(input)@ == m.input
                &&& final(output)@ == m.output
                &&& final(log)@ == m.log
            }),
            final(self).blocks == old(self).blocks,
            final(self).block_index == old(self).block_index,
    {
        let ghost blocks = self.blocks.entries();
        let ghost index = self.block_index.entries();
        let ghost m0 = self.machine(input@, output@, log@);
        let mut pc: usize = 0;
        let mut steps_left = fuel;
        loop
            invariant
                self.wf(),
                self.blocks == old(self).blocks,
                self.block_index == old(self).block_index,
                blocks == self.blocks.entries(),
                index == self.block_index.entries(),
                m0 == old(self).machine(old(input)@, old(output)@, old(log)@),
                stk_run(blocks, index, m0, fuel as nat) == stk_run(
                    blocks,
                    index,
                    StkMachine {
                        label: self.label@,
                        pc: pc as nat,
                        stack: values(self.stack@),
                        input: input@,
                        output: output@,
                        log: log@,
                    },
                    steps_left as nat,
                ),
            decreases steps_left,
        {
            let ghost m = StkMachine {
                label: self.label@,
                pc: pc as nat,
                stack: values(self.stack@),
                input: input@,
                output: output@,
                log: log@,
            };
            proof {
                reveal_strlit("term");
                assert("term"@ =~= term_label());
            }
            if text_eq(self.label.as_str(), "term") {
                return RunOutcome::Finished;
            }
            if steps_left == 0 {
                return RunOutcome::OutOfFuel;
            }
            let bi = match self.blocks.position(self.label.as_str()) {
                Some(bi) => bi,
                None => {
                    return RunOutcome::Crashed;
                },
            };
            proof {
                let j = choose|j: int| 0 <= j < blocks.len() && #[trigger] blocks[j].0 == m.label;
                assert(j == bi);
                assert(lookup(blocks, m.label) == Some(blocks[bi as int].1));
            }
            let body = self.blocks.value_at(bi);
            assert(lookup(blocks, m.label) == Some(*body));
            if pc >= body.len() {
                pc = 0;
            } else {
                match &body[pc] {
                    Expr::Instr(c) => {
                        if c.crashes(&self.stack, input) {
                            return RunOutcome::Crashed;
                        }
                        let c2 = c.copy();
                        c2.interpret(&mut self.stack, input, output);
                        pc = pc + 1;
                    },
                    Expr::Goto(l) => {
                        self.label = l.clone();
                        pc = 0;
                    },
                    Expr::Branch(t, e) => {
                        match self.stack.pop() {
                            None => {
                                return RunOutcome::Crashed;
                            },
                            Some(a) => {
                                let zero = Integer::from_i64(0);
                                if a.equals(&zero) {
                                    self.label = e.clone();
                                } else {
                                    self.label = t.clone();
                                }
                                assert(values(self.stack@) =~= m.stack.drop_last());
                                pc = 0;
                            },
                        }
                    },
                    Expr::Debug => {
                        push_str(log, "Debug: ");
                        push_decimal_list(log, &self.stack);
                        log.push('\n');
                        proof {
                            reveal_strlit("Debug: ");
                            assert(log@ =~= m.log + debug_line(m.stack));
                        }
                        pc = pc + 1;
                    },
                    Expr::Comment(_) => {
                        pc = pc + 1;
                    },
                    Expr::GotoStk => {
                        let n = self.stack.len();
                        if n == 0 {
                            return RunOutcome::Crashed;
                        }
                        match self.block_with_index(&self.stack[n - 1]) {
                            None => {
                                return RunOutcome::Crashed;
                            },
                            Some(l) => {
                                self.stack.pop();
                                assert(values(self.stack@) =~= m.stack.drop_last());
                                self.label = l;
                                pc = 0;
                            },
                        }
                    },
                }
            }
            proof {
                let m2 = StkMachine {
                    label: self.label@,
                    pc: pc as nat,
                    stack: values(self.stack@),
                    input: input@,
                    output: output@,
                    log: log@,
                };
                assert(stk_step(blocks, index, m) == (m2, true));
            }
            steps_left = steps_left - 1;
        }
    }

    /// A program read from text, ready to run from block `main` with an
    /// empty stack.
    pub fn from_source(unparsed: &str) -> (r: Result<PietStackExecutor, parse::ParseError>)
        ensures
            match parse::stk_program(unparsed@) {
                Ok((b, i)) => r matches Ok(e) && e.wf() && parse::block_views(e.blocks.entries()) == b
                    && e.block_index.entries() == i && e.stack@.len() == 0 && e.label@ == "main"@,
                Err(l) => r matches Err(err) && err.line as nat == l,
            },
    {
        match parse::parse_string(unparsed) {
            Ok((blocks, block_index)) => Ok(
                PietStackExecutor {
                    blocks,
                    block_index,
                    stack: Vec::new(),
                    label: String::from_str("main"),
                },
            ),
            Err(e) => Err(e),
        }
    }

    /// Reads a program from text and runs it from block `main` with an
    /// empty stack, as `interpret` does; the number of the first line not
    /// understood when the text is no program.
    pub fn interpret_from_string(
        unparsed: &str,
        input: &mut ByteInput,
        output: &mut Vec<char>,
        log: &mut Vec<char>,
        fuel: usize,
    ) -> (r: Result<RunOutcome, parse::ParseError>)
        ensures
            match parse::stk_program(unparsed@) {
                Ok((b, i)) => exists|e: PietStackExecutor|
                    #![trigger e.wf()]
                    e.wf() && parse::block_views(e.blocks.entries()) == b && e.block_index.entries() == i
                        && e.stack@.len() == 0 && e.label@ == "main"@ && ({
                        let (m, o) = stk_run(
                            e.blocks.entries(),
                            e.block_index.entries(),
                            e.machine(old(input)@, old(output)@, old(log)@),
                            fuel as nat,
                        );
                        &&& r == Ok::<RunOutcome, parse::ParseError>(o)
                        &&& final(input)@ == m.input
                        &&& final(output)@ == m.output
                        &&& final(log)@ == m.log
                    }),
                Err(l) => r matches Err(err) && err.line as nat == l && final(input)@ == old(input)@
                    && final(output)@ == old(output)@ && final(log)@ == old(log)@,
            },
    {
        match PietStackExecutor::from_source(unparsed) {
            Ok(e) => {
                let mut exec = e;
                let ghost e0 = exec;
                let o = exec.interpret(input, output, log, fuel);
                assert(e0.wf());
                Ok(o)
            },
            Err(err) => Err(err),
        }
    }

    /// Runs the program from block `main` on the UTF-8 bytes of `input`
    /// with a budget of `fuel` steps; the text written when it reaches
    /// `term`, `None` when it aborts or runs out of steps first.
    pub fn run_on_string(self, input: &str, fuel: usize) -> (r: Option<String>)
        requires
            self.wf(),
        ensures
            ({
                let (m, o) = stk_run(
                    self.blocks.entries(),
                    self.block_index.entries(),
                    self.machine(input.spec_bytes(), seq![], seq![]),
                    fuel as nat,
                );
                &&& r is Some <==> o == RunOutcome::Finished
                &&& r matches Some(s) ==> s@ == m.output
            }),
    {
        let mut exec = self;
        let mut inp = ByteInput::from_text(input);
        let mut out: Vec<char> = Vec::new();
        let mut log: Vec<char> = Vec::new();
        let outcome = exec.interpret(&mut inp, &mut out, &mut log, fuel);
        match outcome {
            RunOutcome::Finished => Some(chars_to_string(&out)),
            _ => None,
        }
    }
}

} // verus!
