use piet::label_map::LabelMap;
use piet::mid_smpl::mid_smpl_to_stk::SmplToStk;
use piet::mid_smpl::parse::{imported_files, merge_libraries, missing_library};
use piet::mid_smpl::SmplExecutor;
use piet::piet_stack::PietStackExecutor;

const FUEL: usize = 1_000_000;

/// Translates a mid-level program and writes the stack program as text.
fn smpl_to_stk(source: &str, registers: usize) -> String {
    let libs: LabelMap<String> = LabelMap::new();
    let smpl_executor = SmplExecutor::from_source(source, registers, &libs).unwrap();
    assert!(SmplToStk::can_lower(&smpl_executor));
    let stk_executor = SmplToStk::to_stk(smpl_executor);
    stk_executor.to_file_string()
}

/// Translates a mid-level program, reads the stack program back from its
/// text and runs it on `input`.
fn test_simpl_vs_stk(source: &str, input: &str, output: &str, registers: usize) {
    let stk_text = smpl_to_stk(source, registers);
    let stk_str = PietStackExecutor::from_source(&stk_text)
        .unwrap()
        .run_on_string(input, FUEL)
        .unwrap();
    assert_eq!(stk_str, output, "STACK FAILED");
}

/// Pushes `v` above the frame counter and counts it.
fn frame_push(v: i64) -> String {
    format!("push {}\npush 2\npush 1\nroll\npush 1\nadd\n", v)
}

/// Writes the value just below the frame counter and uncounts it.
fn frame_out() -> String {
    String::from("push 2\npush 1\nroll\noutN\npush 1\nsub\n")
}

#[test]
pub fn test_push() {
    test_simpl_vs_stk("push 42\noutN\ngoto term\n", "", "42", 0);
}

#[test]
pub fn test_pop() {
    test_simpl_vs_stk("push 41\npush 7\npop\noutN\ngoto term\n", "", "41", 0);
}

#[test]
pub fn test_add() {
    test_simpl_vs_stk("push 60\npush 7\nadd\noutN\ngoto term\n", "", "67", 0);
}

#[test]
pub fn test_sub() {
    test_simpl_vs_stk("push 40\npush 3\nsub\noutN\ngoto term\n", "", "37", 0);
}

#[test]
pub fn test_mul() {
    test_simpl_vs_stk("push 26\npush 30\nmul\noutN\ngoto term\n", "", "780", 0);
}

#[test]
pub fn test_div() {
    test_simpl_vs_stk("push 10\npush 3\ndiv\noutN\ngoto term\n", "", "3", 0);
}

#[test]
pub fn test_mod() {
    test_simpl_vs_stk("push 17\npush 10\nmod\noutN\ngoto term\n", "", "7", 0);
}

#[test]
pub fn smpl_tests_test_roll() {
    test_simpl_vs_stk(
        "push 0\npush 1\npush 2\npush 3\npush -1\nroll\noutN\noutN\noutN\ngoto term\n",
        "",
        "021",
        0,
    );
}

#[test]
pub fn test_dup() {
    test_simpl_vs_stk("push 15\ndup\noutN\npush 32\noutC\noutN\ngoto term\n", "", "15 15", 0);
}

#[test]
pub fn test_stack_size() {
    let mut src = String::new();
    for v in (0..10).rev() {
        src.push_str(&frame_push(v));
    }
    src.push_str("outN\npush ' '\n");
    src = src.replace("push ' '\n", "push 32\noutC\n");
    for _ in 0..10 {
        src.push_str("outN\n");
    }
    src.push_str("goto term\n");
    test_simpl_vs_stk(&src, "", "11 0123456789", 0);
}

#[test]
pub fn test_var_num() {
    test_simpl_vs_stk(
        "var x num\noutN\npush 44\noutC\noutN\npush 44\noutC\noutN\ngoto term\n",
        "",
        "2,0,0",
        0,
    );
}

#[test]
pub fn test_var_list() {
    test_simpl_vs_stk(
        "var x list\noutN\npush 44\noutC\noutN\npush 44\noutC\noutN\ngoto term\n",
        "",
        "2,-1,0",
        0,
    );
}

#[test]
pub fn smpl_tests_test_set_var_get_var() {
    let mut src = String::from("var a num\nvar b num\nvar c num\n");
    src.push_str(&frame_push(42));
    src.push_str("set a\n");
    src.push_str(&frame_push(15));
    src.push_str("set b\n");
    src.push_str(&frame_push(13));
    src.push_str("set c\n");
    src.push_str("get a\n");
    src.push_str(&frame_out());
    src.push_str("push 10\noutC\nget b\n");
    src.push_str(&frame_out());
    src.push_str("push 10\noutC\nget c\n");
    src.push_str(&frame_out());
    src.push_str("goto term\n");
    test_simpl_vs_stk(&src, "", "42\n15\n13", 5);
}

#[test]
pub fn smpl_tests_test_eq0() {
    test_simpl_vs_stk("push 3\npush 4\nsub\nnot\noutN\npush 10\noutC\ngoto term\n", "", "0\n", 0);
}

#[test]
pub fn smpl_tests_test_eq1() {
    test_simpl_vs_stk("push 4\npush 4\nsub\nnot\noutN\npush 10\noutC\ngoto term\n", "", "1\n", 0);
}

#[test]
#[allow(non_snake_case)]
pub fn test_inC() {
    test_simpl_vs_stk("inC\noutC\ngoto term\n", "abcd", "a", 0);
}

#[test]
pub fn test_registers() {
    let mut src = String::new();
    for (i, v) in [10, 11, 12].iter().enumerate() {
        src.push_str(&frame_push(*v));
        src.push_str(&format!("set __R{}__\n", i));
    }
    for i in 0..3 {
        src.push_str(&format!("get __R{}__\n", i));
        src.push_str(&frame_out());
    }
    src.push_str("goto term\n");
    test_simpl_vs_stk(&src, "", "101112", 5);
}

#[test]
#[allow(non_snake_case)]
pub fn test_readC_until() {
    test_simpl_vs_stk(
        "goto loop\nlabel loop\ninC\ndup\npush 32\nsub\nbranch more stop\nlabel more\noutC\ngoto loop\nlabel stop\npop\ngoto term\n",
        "hello\nworld how\nare you\ndoing\n",
        "hello\nworld",
        1,
    );
}

#[test]
pub fn test_readlines() {
    test_simpl_vs_stk(
        "goto loop\nlabel loop\ninC\ndup\npush 1\nadd\nbranch more done\nlabel more\noutC\ngoto loop\nlabel done\npop\ngoto term\n",
        "hello\nworld how\nare you\ndoing\n",
        "hello\nworld how\nare you\ndoing\n",
        1,
    );
}

#[test]
pub fn test_swap() {
    test_simpl_vs_stk(
        "inN\ninC\npop\ninN\npush 2\npush 1\nroll\noutN\npush 32\noutC\noutN\ngoto term\n",
        "23 43\n",
        "23 43",
        0,
    );
}

#[test]
pub fn smpl_tests_test_dup_at_depth() {
    test_simpl_vs_stk(
        "push 43\npush 1\npush 2\npush 3\npush -1\nroll\ndup\noutN\npush 10\noutC\ngoto term\n",
        "",
        "43\n",
        0,
    );
}

#[test]
pub fn smpl_tests_test_in() {
    test_simpl_vs_stk(
        "push 1\noutN\npush 32\noutC\npush 3\noutN\npush 32\noutC\ninN\noutN\npush 32\noutC\ninN\noutN\ngoto term\n",
        "",
        "1 3 -1 -1",
        2,
    );
}

#[test]
fn imported_files_lists_use_lines() {
    let src = "use tools ./lib/tools.lib\nvar x num\nuse more other.lib\nlabel main\ngoto term\n";
    let files = imported_files(src);
    assert_eq!(
        files,
        vec![
            (String::from("tools"), String::from("./lib/tools.lib")),
            (String::from("more"), String::from("other.lib")),
        ]
    );
}

#[test]
fn mid_level_program_is_printable() {
    let libs: LabelMap<String> = LabelMap::new();
    let smpl = SmplExecutor::from_source("var x num\nlabel main\npush 3\nset x\ngoto term\n", 0, &libs).unwrap();
    assert!(smpl.is_printable());
}

#[test]
fn mid_level_text_reads_back() {
    let libs: LabelMap<String> = LabelMap::new();
    let src = "use tools tools.lib\nvar x num\nvar xs list\n# first\npush 'a'\nset x\nget x\noutC\nbranch next term\nlabel next\npush -3\noutN\ngoto term\n";
    let first = SmplExecutor::from_source(src, 2, &libs).unwrap();
    assert!(first.is_printable());
    let text = first.to_file_string();
    let second = SmplExecutor::from_source(&text, 2, &libs).unwrap();
    assert_eq!(second.to_file_string(), text);
}

#[test]
fn built_in_libraries_win_over_imports() {
    let mut builtin: LabelMap<String> = LabelMap::new();
    builtin.insert(String::from("list"), String::from("built in"));
    let mut imported: LabelMap<String> = LabelMap::new();
    imported.insert(String::from("list"), String::from("imported"));
    imported.insert(String::from("extra"), String::from("only imported"));
    let libs = merge_libraries(&builtin, &imported);
    assert_eq!(libs.get("list"), Some(&String::from("built in")));
    assert_eq!(libs.get("extra"), Some(&String::from("only imported")));
    assert_eq!(libs.get("none"), None);
}

#[test]
fn missing_libraries_are_found() {
    let mut libs: LabelMap<String> = LabelMap::new();
    libs.insert(String::from("a"), String::from("lib_b\n"));
    assert_eq!(missing_library("label main\nlib_a\n", &libs), Some(String::from("b")));
    libs.insert(String::from("b"), String::from("push 1\n"));
    assert_eq!(missing_library("label main\nlib_a\n", &libs), None);
    assert_eq!(missing_library("label main\nlib_c\n", &libs), Some(String::from("c")));
}
