use piet::advc::{AdvcExecutor, Expr, Label, VariableType};
use piet::integer::Integer;
use piet::io::ByteInput;
use piet::label_map::LabelMap;
use piet::piet_interpreter::CMD;
use piet::piet_stack::RunOutcome;

const FUEL: usize = 10_000;

fn push(v: i64) -> Expr {
    Expr::Instr(CMD::Push(Integer::from_i64(v)))
}

fn goto(l: &str) -> Expr {
    Expr::Goto(Label::Name(String::from(l)))
}

/// A program of the given blocks (in order) with the given variables and
/// no registers.
fn program(blocks: Vec<(&str, Vec<Expr>)>, vars: Vec<(&str, VariableType)>) -> AdvcExecutor {
    let mut bs = LabelMap::new();
    let mut index = LabelMap::new();
    let mut n: usize = 0;
    for (name, body) in blocks {
        bs.insert(String::from(name), body);
        index.insert(String::from(name), n);
        n += 1;
    }
    bs.insert(String::from("term"), Vec::new());
    index.insert(String::from("term"), n);
    let declared: Vec<(String, VariableType)> = vars.into_iter().map(|(n, t)| (String::from(n), t)).collect();
    AdvcExecutor::new(0, &declared, bs, index)
}

/// Runs a program on `input`: the outcome, the output and the log.
fn run(mut p: AdvcExecutor, input: &str) -> (RunOutcome, String, String) {
    let mut inp = ByteInput::from_text(input);
    let mut out: Vec<char> = Vec::new();
    let mut log: Vec<char> = Vec::new();
    let o = p.interpret(&mut inp, &mut out, &mut log, FUEL);
    (o, out.into_iter().collect(), log.into_iter().collect())
}

fn out_n() -> Expr {
    Expr::Instr(CMD::OutN)
}

fn out_c(c: char) -> Vec<Expr> {
    vec![push(c as i64), Expr::Instr(CMD::OutC)]
}

#[test]
fn advc_echo_number() {
    let p = program(vec![("main", vec![Expr::Instr(CMD::InN), out_n(), goto("term")])], vec![]);
    let (o, out, _) = run(p, "100");
    assert_eq!(o, RunOutcome::Finished);
    assert_eq!(out, "100");
}

#[test]
fn advc_if_picks_branch() {
    let p = |input: &str| {
        let prog = program(
            vec![
                (
                    "main",
                    vec![
                        Expr::Instr(CMD::InN),
                        Expr::If(Label::Name(String::from("yes")), Label::Name(String::from("no"))),
                    ],
                ),
                ("yes", vec![push(10), out_n(), goto("term")]),
                ("no", vec![push(11), out_n(), goto("term")]),
            ],
            vec![],
        );
        run(prog, input).1
    };
    assert_eq!(p("1"), "10");
    assert_eq!(p("0"), "11");
}

#[test]
fn advc_variables_hold_values() {
    let p = program(
        vec![(
            "main",
            vec![
                push(42),
                Expr::SetVar(String::from("x")),
                Expr::GetVar(String::from("y")),
                out_n(),
                Expr::GetVar(String::from("x")),
                out_n(),
                goto("term"),
            ],
        )],
        vec![("x", VariableType::NUM), ("y", VariableType::LIST)],
    );
    let (o, out, _) = run(p, "");
    assert_eq!(o, RunOutcome::Finished);
    assert_eq!(out, "-142");
}

#[test]
fn advc_missing_variable_aborts() {
    // Reading a variable that was never declared is refused before running.
    let p = program(vec![("main", vec![Expr::GetVar(String::from("nope")), goto("term")])], vec![]);
    assert_eq!(p.undeclared_variable(), Some(String::from("nope")));
    let q = program(vec![("main", vec![Expr::SetVar(String::from("x")), goto("term")])], vec![]);
    assert_eq!(q.undeclared_variable(), Some(String::from("x")));
}

#[test]
fn advc_eq_compares_present_values() {
    let mut body = vec![push(3), push(3), Expr::Eq, out_n(), push(3), push(4), Expr::Eq, out_n()];
    // On an empty stack both missing values compare equal.
    body.push(Expr::Eq);
    body.push(out_n());
    // With one value, a value and a missing one differ.
    body.push(push(9));
    body.push(Expr::Eq);
    body.push(out_n());
    body.push(goto("term"));
    let (o, out, _) = run(program(vec![("main", body)], vec![]), "");
    assert_eq!(o, RunOutcome::Finished);
    assert_eq!(out, "1010");
}

#[test]
fn advc_append_grows_list() {
    // Append 7, 8, 9 to an empty list; print its length and elements.
    let mut body = Vec::new();
    for v in [7, 8, 9] {
        body.push(push(v));
        body.push(Expr::GetVar(String::from("xs")));
        body.push(Expr::Append);
        body.push(Expr::SetVar(String::from("xs")));
    }
    body.push(Expr::GetVar(String::from("xs")));
    body.push(Expr::Length);
    body.push(out_n());
    for i in 0..3 {
        body.push(push(i));
        body.push(Expr::GetVar(String::from("xs")));
        body.push(Expr::GetElem);
        body.push(out_n());
    }
    body.push(Expr::Debug);
    body.push(goto("term"));
    let (o, out, log) = run(program(vec![("main", body)], vec![("xs", VariableType::LIST)]), "");
    assert_eq!(o, RunOutcome::Finished);
    assert_eq!(out, "3789");
    // The first list [1, 0, 0] is full after one element and is copied to a
    // list of capacity 2, which is copied again to one of capacity 4.
    assert_eq!(
        log,
        "\nHeap: [1, 1, 7, 2, 2, 7, 8, 4, 3, 7, 8, 9, 0]\nVariables: [(\"xs\", 7)]\nStack: []\n\n"
    );
}

#[test]
fn advc_length_of_unallocated_list_is_zero() {
    let body = vec![Expr::GetVar(String::from("xs")), Expr::Length, out_n(), goto("term")];
    let (o, out, _) = run(program(vec![("main", body)], vec![("xs", VariableType::LIST)]), "");
    assert_eq!(o, RunOutcome::Finished);
    assert_eq!(out, "0");
}

#[test]
fn advc_readlines_and_in() {
    // Read two lines; print the number of lines, then the position of 'a'
    // in the second line searched from position 0, then that of 'z'.
    let mut body = vec![
        Expr::Readlines,
        Expr::SetVar(String::from("ls")),
        Expr::GetVar(String::from("ls")),
        Expr::Length,
        out_n(),
    ];
    for c in ['a', 'z'] {
        body.push(push(c as i64));
        body.push(push(1));
        body.push(Expr::GetVar(String::from("ls")));
        body.push(Expr::GetElem);
        body.push(push(0));
        body.push(Expr::In);
        body.push(out_n());
    }
    body.push(goto("term"));
    let (o, out, _) = run(program(vec![("main", body)], vec![("ls", VariableType::LIST)]), "xy\nbna\nrest");
    assert_eq!(o, RunOutcome::Finished);
    assert_eq!(out, "22-1");
}

#[test]
fn advc_index_follows_path() {
    // ls holds the list of line addresses; ls[i][j] with i = 1, j = 0 + 1.
    let body = vec![
        Expr::Readlines,
        Expr::SetVar(String::from("ls")),
        push(1),
        Expr::SetVar(String::from("i")),
        push(0),
        Expr::SetVar(String::from("j")),
        Expr::Index(
            String::from("ls"),
            vec![(String::from("i"), Integer::from_i64(0)), (String::from("j"), Integer::from_i64(1))],
        ),
        Expr::Instr(CMD::OutC),
        goto("term"),
    ];
    let vars = vec![("ls", VariableType::LIST), ("i", VariableType::NUM), ("j", VariableType::NUM)];
    let (o, out, _) = run(program(vec![("main", body)], vars), "ab\ncd\n");
    assert_eq!(o, RunOutcome::Finished);
    assert_eq!(out, "d");
}

#[test]
fn advc_heap_cells() {
    let mut body = vec![Expr::Readlines, Expr::Instr(CMD::Pop)];
    // heap[0] is the capacity of the first line; overwrite it and read it back.
    body.push(push(77));
    body.push(push(0));
    body.push(Expr::SetHeap);
    body.push(push(0));
    body.push(Expr::GetHeap);
    body.push(out_n());
    body.extend(out_c(','));
    // Set element 1 of the first line to 65 and read it back.
    body.push(push(65));
    body.push(push(1));
    body.push(push(0));
    body.push(Expr::SetElem);
    body.push(push(1));
    body.push(push(0));
    body.push(Expr::GetElem);
    body.push(Expr::Instr(CMD::OutC));
    body.push(goto("term"));
    let (o, out, _) = run(program(vec![("main", body)], vec![]), "xy\n");
    assert_eq!(o, RunOutcome::Finished);
    assert_eq!(out, "77,A");
}

#[test]
fn advc_unimplemented_statements_abort() {
    for e in [Expr::Malloc, Expr::PrintCListOfList] {
        let p = program(vec![("main", vec![e, goto("term")])], vec![]);
        assert_eq!(run(p, "").0, RunOutcome::Crashed);
    }
}

#[test]
fn advc_falling_off_a_block_repeats_it() {
    // The block never jumps, so the program runs until its fuel is spent.
    let p = program(vec![("main", vec![Expr::Comment(String::from("loop"))])], vec![]);
    assert_eq!(run(p, "").0, RunOutcome::OutOfFuel);
}

#[test]
fn advc_for_jumps_to_its_label() {
    let body = vec![
        Expr::For(String::from("i"), String::from("xs"), Label::Name(String::from("body"))),
    ];
    let p = program(vec![("main", body), ("body", vec![push(5), out_n(), goto("term")])], vec![]);
    let (o, out, _) = run(p, "");
    assert_eq!(o, RunOutcome::Finished);
    assert_eq!(out, "5");
}
