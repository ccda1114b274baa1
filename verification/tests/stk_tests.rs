use piet::integer::Integer;
use piet::label_map::LabelMap;
use piet::piet_interpreter::CMD;
use piet::piet_stack::expr::Expr;
use piet::optimize_stk::StackOptimizer;
use piet::piet_stack::PietStackExecutor;

const FUEL: usize = 1_000_000;

/// Reads a stack program, checks that it can be drawn as a Piet image two
/// grid cells wide (one block and `term`), and runs it on `input`.
fn run_stk(source: &str, input: &str) -> String {
    let ex = PietStackExecutor::from_source(source).unwrap();
    assert_eq!(ex.missing_jump_target(), None);
    let mut optimizer = StackOptimizer::new();
    let img = ex.to_png(&mut optimizer, FUEL).unwrap();
    assert_eq!(img.width(), 4 + 81 * 2);
    ex.run_on_string(input, FUEL).unwrap()
}

#[test]
pub fn stk_tests_test_roll() {
    let src = "label main\ninN\ninC\npop\ninN\npush 2\npush 1\nroll\noutN\npush 32\noutC\noutN\ngoto term\n";
    assert_eq!(run_stk(src, "1 2"), "1 2");
}

#[test]
pub fn lib_test_set_var_get_var() {
    // A register slot below the working values: set it to 6 * 7 by rolling
    // the result under the old value and dropping that, then read it.
    let src = "label main\npush 0\npush 6\npush 7\nmul\npush 2\npush 1\nroll\npop\ndup\noutN\ngoto term\n";
    assert_eq!(run_stk(src, ""), "42");
}

#[test]
pub fn lib_test_eq0() {
    let src = "label main\npush 3\npush 4\nsub\nnot\noutN\npush 10\noutC\ngoto term\n";
    assert_eq!(run_stk(src, ""), "0\n");
}

#[test]
pub fn lib_test_eq1() {
    let src = "label main\npush 4\npush 4\nsub\nnot\noutN\npush 10\noutC\ngoto term\n";
    assert_eq!(run_stk(src, ""), "1\n");
}

#[test]
pub fn lib_test_dup_at_depth() {
    let src = "label main\npush 43\npush 1\npush 2\npush 3\npush -1\nroll\ndup\noutN\npush 10\noutC\ngoto term\n";
    assert_eq!(run_stk(src, ""), "43\n");
}

#[test]
fn listing_reads_back_to_same_program() {
    let src = "label main\n# start\npush -12\npush 3\ndiv\noutN\nbranch main other\nlabel other\ndebug\ngoto term\n";
    let first = PietStackExecutor::from_source(src).unwrap();
    assert!(first.is_printable());
    let text = first.to_file_string();
    let second = PietStackExecutor::from_source(&text).unwrap();
    // `term` is listed too, so it is numbered once more on reading back.
    let again = second.to_file_string();
    assert_eq!(text, again);
    assert_eq!(
        text,
        "label main\n# start\npush -12\npush 3\ndiv\noutN\nbranch main other\nlabel other\ndebug\ngoto term\nlabel term\n"
    );
}

#[test]
fn direction_commands_are_not_printable() {
    let mut blocks = LabelMap::new();
    blocks.insert(String::from("main"), vec![Expr::Instr(CMD::Pointer)]);
    let mut index = LabelMap::new();
    index.insert(String::from("main"), 0usize);
    let exec = PietStackExecutor { blocks, block_index: index, stack: Vec::new(), label: String::from("main") };
    assert!(!exec.is_printable());
}

#[test]
fn decimal_text_of_integers() {
    assert_eq!(Integer::from_i64(-4051).to_text(), "-4051");
    assert_eq!(Integer::from_i64(0).to_text(), "0");
}

#[test]
fn interpret_from_string_runs_and_reports_bad_lines() {
    let mut input = piet::io::ByteInput::from_text("41");
    let mut out: Vec<char> = Vec::new();
    let mut log: Vec<char> = Vec::new();
    let src = "label main\ninN\npush 1\nadd\noutN\ngoto term\n";
    let r = PietStackExecutor::interpret_from_string(src, &mut input, &mut out, &mut log, FUEL);
    assert_eq!(r, Ok(piet::piet_stack::RunOutcome::Finished));
    assert_eq!(out.into_iter().collect::<String>(), "42");
    let mut out2: Vec<char> = Vec::new();
    let bad = PietStackExecutor::interpret_from_string("label main\nfrobnicate\n", &mut input, &mut out2, &mut log, FUEL);
    assert_eq!(bad.unwrap_err().line, 2);
}
