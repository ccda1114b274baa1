use piet::optimize_stk::{int_root, StackOptimizer};
use piet::piet_color::ValidColor;
use piet::piet_interpreter::CMD;
use piet::label_map::LabelMap;
use piet::piet_stack::expr::Expr;
use piet::piet_stack::PietStackExecutor;
use piet::util::test_io_string;

const FUEL: usize = 1_000_000;

/// A stack program that runs `cmds` and writes the top value.
fn program_of(cmds: Vec<CMD>) -> PietStackExecutor {
    let mut body: Vec<Expr> = cmds.into_iter().map(Expr::Instr).collect();
    body.push(Expr::Instr(CMD::OutN));
    body.push(Expr::Goto(String::from("term")));
    let mut blocks: LabelMap<Vec<Expr>> = LabelMap::new();
    blocks.insert(String::from("main"), body);
    blocks.insert(String::from("term"), Vec::new());
    let mut block_index: LabelMap<usize> = LabelMap::new();
    block_index.insert(String::from("main"), 0);
    block_index.insert(String::from("term"), 1);
    PietStackExecutor { blocks, block_index, stack: Vec::new(), label: String::from("main") }
}

#[test]
fn int_root_floors() {
    assert_eq!(int_root(0, 3), 0);
    assert_eq!(int_root(10, 1), 10);
    assert_eq!(int_root(16, 2), 4);
    assert_eq!(int_root(17, 2), 4);
    assert_eq!(int_root(15, 2), 3);
    assert_eq!(int_root(1000, 3), 10);
    assert_eq!(int_root(999, 3), 9);
    assert_eq!(int_root(usize::MAX, 2), 4294967295);
}

#[test]
fn optimized_numbers_push_their_value() {
    let mut optimizer = StackOptimizer::new();
    for n in [0usize, 1, 2, 7, 42, 173, 174, 1000, 12345] {
        let cmds = optimizer.optimize_number(n, FUEL).unwrap();
        let program = program_of(cmds);
        let text = program.to_file_string();
        for line in text.lines() {
            if let Some(v) = line.strip_prefix("push ") {
                assert!(["1", "2", "3", "5"].contains(&v), "push {}", v);
            }
        }
        let out = program.run_on_string("", FUEL).unwrap();
        assert_eq!(out, n.to_string());
    }
}

#[test]
fn zero_is_pushed_as_one_not() {
    let mut optimizer = StackOptimizer::new();
    let cmds = optimizer.optimize_number(0, FUEL).unwrap();
    assert_eq!(cmds.len(), 2);
    assert_eq!(
        program_of(cmds).to_file_string(),
        "label main\npush 1\nnot\noutN\ngoto term\nlabel term\n"
    );
}

#[test]
fn peephole_folds_constants() {
    let src = "label main\n# note\npush 3\npush 4\nadd\noutN\ngoto term\n";
    let mut ex = PietStackExecutor::from_source(src).unwrap();
    assert!(ex.optimize());
    assert_eq!(ex.to_file_string(), "label main\npush 7\noutN\ngoto term\nlabel term\n");
}

#[test]
fn peephole_removes_push_pop_and_keeps_behaviour() {
    let src = "label main\npush 9\npush 5\npop\npush 0\nadd\npush 1\nmul\noutN\ngoto term\n";
    let before = PietStackExecutor::from_source(src).unwrap().run_on_string("", FUEL).unwrap();
    let mut ex = PietStackExecutor::from_source(src).unwrap();
    assert!(ex.optimize());
    assert_eq!(ex.to_file_string(), "label main\npush 9\noutN\ngoto term\nlabel term\n");
    assert_eq!(ex.run_on_string("", FUEL).unwrap(), before);
}

#[test]
fn peephole_refolds_repeated_pushes() {
    let src = "label main\npush 5\npush 5\npush 5\noutN\noutN\noutN\ngoto term\n";
    let mut ex = PietStackExecutor::from_source(src).unwrap();
    assert!(ex.optimize());
    assert_eq!(
        ex.to_file_string(),
        "label main\npush 5\ndup\ndup\noutN\noutN\noutN\ngoto term\nlabel term\n"
    );
}

#[test]
fn peephole_refuses_division_by_zero() {
    let src = "label main\npush 4\npush 0\ndiv\noutN\ngoto term\n";
    let mut ex = PietStackExecutor::from_source(src).unwrap();
    assert!(!ex.optimize());
    assert_eq!(ex.to_file_string(), "label main\npush 4\npush 0\ndiv\noutN\ngoto term\nlabel term\n");
}

#[test]
fn image_of_small_program() {
    let src = "label main\npush 3\noutN\ngoto term\n";
    let ex = PietStackExecutor::from_source(src).unwrap();
    let mut optimizer = StackOptimizer::new();
    let img = ex.to_png(&mut optimizer, FUEL).unwrap();
    // Two blocks: a grid two cells wide, strips 70 cells wide.
    assert_eq!(img.width(), 4 + 81 * 2);
    assert!(img.height() >= 1);
    // The first row starts with the code that pushes block number 0.
    assert_eq!(img.color_at(0, 0), ValidColor::Red);
    assert_eq!(img.color_at(1, 0), ValidColor::StrongRed);
    assert_eq!(img.color_at(2, 0), ValidColor::Green);
}

#[test]
fn text_io_collects_output() {
    let out = test_io_string("abc", |mut input| {
        let mut written = Vec::new();
        while let Some(b) = input.next() {
            written.push((b as char).to_ascii_uppercase());
        }
        written
    });
    assert_eq!(out, "ABC");
}

#[test]
fn colours_round_trip_through_symbols_and_rgb() {
    let all = piet::piet_color::all_colors();
    assert_eq!(all.len(), 20);
    for c in all {
        assert_eq!(ValidColor::from_char(c.symbol()), c);
        assert_eq!(ValidColor::from_rgb(c.to_rgb()), c);
        assert_eq!(ValidColor::from_str(c.into_str()), c);
    }
}

#[test]
fn optimized_program_with_jumps_runs_alike() {
    let src = "label main\ninN\npush 0\nadd\nbranch yes no\nlabel yes\npush 2\npush 3\nmul\noutN\ngoto term\nlabel no\npush 7\npush 7\nsub\nnot\noutN\ngoto term\n";
    for input in ["1", "0"] {
        let before = PietStackExecutor::from_source(src).unwrap().run_on_string(input, FUEL).unwrap();
        let mut ex = PietStackExecutor::from_source(src).unwrap();
        assert!(ex.optimize());
        assert_eq!(ex.run_on_string(input, FUEL).unwrap(), before);
    }
}

#[test]
fn found_numbers_need_no_search() {
    let mut optimizer = StackOptimizer::new();
    // Zero is found from the start, so no search step is needed.
    let cmds = optimizer.optimize_number(0, 0).unwrap();
    assert_eq!(cmds.len(), 2);
    // Seven is not found yet: with no search steps it is built by
    // doubling: push 3, dup, add, push 1, add.
    let direct = optimizer.optimize_number(7, 0).unwrap();
    assert_eq!(
        program_of(direct).to_file_string(),
        "label main\npush 3\ndup\nadd\npush 1\nadd\noutN\ngoto term\nlabel term\n"
    );
    // After a search has found it, seven needs no more steps.
    assert!(optimizer.optimize_number(7, FUEL).is_some());
    let again = optimizer.optimize_number(7, 0).unwrap();
    assert!(!again.is_empty());
}

#[test]
fn missing_jump_targets_are_found() {
    let src = "label main\npush 3\noutN\ngoto nowhere\n";
    let ex = PietStackExecutor::from_source(src).unwrap();
    assert_eq!(ex.missing_jump_target(), Some(String::from("nowhere")));
    let ok = PietStackExecutor::from_source("label main\npush 3\noutN\ngoto term\n").unwrap();
    assert_eq!(ok.missing_jump_target(), None);
}

#[test]
fn empty_main_block_image_size() {
    let mut finals: LabelMap<(Vec<Vec<ValidColor>>, Vec<ValidColor>)> = LabelMap::new();
    finals.insert(String::from("main"), (Vec::new(), Vec::new()));
    let mut index: LabelMap<usize> = LabelMap::new();
    index.insert(String::from("main"), 0);
    let mut optimizer = StackOptimizer::new();
    let img = PietStackExecutor::to_png_draw(&mut optimizer, 1, 1, &finals, &index, 70, FUEL).unwrap();
    assert_eq!(img.width(), 85);
    assert_eq!(img.height(), 19);
}

#[test]
fn optimizing_twice_changes_nothing() {
    let src = "label main\npush 4\npush 4\npush 4\npush 2\npush 3\nadd\noutN\npush 7\npop\ngoto term\n";
    let mut ex = PietStackExecutor::from_source(src).unwrap();
    assert!(ex.optimize());
    let once = ex.to_file_string();
    assert!(ex.optimize());
    assert_eq!(ex.to_file_string(), once);
}
