use brainfuck::interpreter::{interpret, RunErr};
use brainfuck::lex::lex;
use brainfuck::location::{Loc, Pos};
use brainfuck::parse::{into_tree, parse, Error, ParseErr};
use brainfuck::token::{Op, Token};
use brainfuck::tree::Node;

fn run(src: &str, steps: usize) -> (Result<Vec<char>, RunErr>, Vec<u8>, usize, usize) {
    let tree = parse(src.to_string()).expect("program should parse");
    let mut mem: Vec<u8> = Vec::new();
    let mut ptr: usize = 0;
    let mut budget = steps;
    let out = interpret(&tree, &mut mem, &mut ptr, &mut budget);
    (out, mem, ptr, budget)
}

#[test]
fn multiply_six_by_ten_outputs_byte_sixty() {
    let (out, _, _, _) = run("++++++[>++++++++++<-]>.", 10_000);
    let out = out.expect("run should finish");
    assert_eq!(out.len(), 1);
    assert_eq!(out[0] as u32, 60);
    assert_eq!(out, vec!['<']);
}

#[test]
fn empty_loop_never_terminates_within_budget() {
    let (out, _, _, budget) = run("+[]", 50);
    assert_eq!(out, Err(RunErr::StepLimit));
    assert_eq!(budget, 0);
}

#[test]
fn lone_close_bracket_is_error_at_origin() {
    let r = parse("]".to_string());
    assert_eq!(
        r.unwrap_err(),
        Error::ParseErr(ParseErr::UnmatchedBracket(Some(Pos { line: 0, col: 0 })))
    );
}

#[test]
fn unclosed_open_bracket_reports_opener_position() {
    let r = parse("[+".to_string());
    assert_eq!(
        r.unwrap_err(),
        Error::ParseErr(ParseErr::UnmatchedBracket(Some(Pos { line: 0, col: 0 })))
    );
}

#[test]
fn unclosed_nested_brackets_report_outermost_opener() {
    let r = parse("+[[".to_string());
    assert_eq!(
        r.unwrap_err(),
        Error::ParseErr(ParseErr::UnmatchedBracket(Some(Pos { line: 0, col: 1 })))
    );
}

#[test]
fn move_left_on_fresh_tape_underflows() {
    let (out, mem, ptr, _) = run("<", 10);
    assert_eq!(out, Err(RunErr::PointerUnderflow));
    assert_eq!(mem, Vec::<u8>::new());
    assert_eq!(ptr, 0);
}

#[test]
fn balanced_program_parses() {
    assert!(parse("[[][]]".to_string()).is_ok());
    assert!(parse("+[->+<]".to_string()).is_ok());
}

#[test]
fn close_before_open_after_balanced_pair_reports_its_position() {
    let r = parse("[]]".to_string());
    assert_eq!(
        r.unwrap_err(),
        Error::ParseErr(ParseErr::UnmatchedBracket(Some(Pos { line: 0, col: 2 })))
    );
}

#[test]
fn decrement_wraps_below_zero() {
    let (out, mem, _, _) = run("-.", 10);
    assert_eq!(out.unwrap(), vec![255u8 as char]);
    assert_eq!(mem, vec![255]);
}

#[test]
fn increment_wraps_above_255() {
    let mut src = String::new();
    for _ in 0..256 {
        src.push('+');
    }
    let (out, mem, _, _) = run(&src, 10);
    assert!(out.unwrap().is_empty());
    assert_eq!(mem, vec![0]);
}

#[test]
fn output_repeats_current_cell() {
    let (out, _, _, _) = run("+..", 10);
    assert_eq!(out.unwrap(), vec![1u8 as char, 1u8 as char]);
}

#[test]
fn tape_grows_to_pointer_on_access() {
    let (out, mem, ptr, _) = run(">>>+", 10);
    assert!(out.unwrap().is_empty());
    assert_eq!(mem, vec![0, 0, 0, 1]);
    assert_eq!(ptr, 3);
}

#[test]
fn output_grows_tape_to_pointer() {
    let (out, mem, _, _) = run(".", 10);
    assert_eq!(out.unwrap(), vec![0u8 as char]);
    assert_eq!(mem, vec![0]);
}

#[test]
fn input_operator_is_unsupported() {
    let (out, _, _, _) = run(",", 10);
    assert_eq!(out, Err(RunErr::InputUnsupported));
}

#[test]
fn loop_on_zero_cell_is_skipped_without_spending_steps() {
    let (out, mem, _, budget) = run("[-]", 7);
    assert!(out.unwrap().is_empty());
    assert_eq!(mem, vec![0]);
    assert_eq!(budget, 7);
}

#[test]
fn each_loop_reentry_costs_one_step() {
    let tree = parse("++[-]".to_string()).unwrap();
    let mut mem: Vec<u8> = Vec::new();
    let mut ptr: usize = 0;
    let mut budget: usize = 0;
    assert_eq!(
        interpret(&tree, &mut mem, &mut ptr, &mut budget),
        Err(RunErr::StepLimit)
    );
    let mut mem: Vec<u8> = Vec::new();
    let mut ptr: usize = 0;
    let mut budget: usize = 1;
    assert!(interpret(&tree, &mut mem, &mut ptr, &mut budget).is_ok());
    assert_eq!(mem, vec![0]);
    assert_eq!(budget, 0);
}

#[test]
fn pointer_overflow_is_a_fault() {
    let tree = vec![Node::Leaf(Op {
        token: Token::Right,
        count: usize::MAX,
        loc: Loc::Single { pos: Pos { line: 0, col: 0 } },
    })];
    let mut mem: Vec<u8> = Vec::new();
    let mut ptr: usize = 1;
    let mut budget: usize = 10;
    assert_eq!(
        interpret(&tree, &mut mem, &mut ptr, &mut budget),
        Err(RunErr::PointerOverflow)
    );
    assert_eq!(ptr, 1);
}

#[test]
fn collapsed_and_uncollapsed_programs_run_alike() {
    let src = "++[>+++<-]>.";
    let collapsed_tree = parse(src.to_string()).unwrap();
    let unit_tree = into_tree(lex(src.to_string())).unwrap();
    let mut mem1: Vec<u8> = Vec::new();
    let mut ptr1: usize = 0;
    let mut b1: usize = 1000;
    let out1 = interpret(&collapsed_tree, &mut mem1, &mut ptr1, &mut b1).unwrap();
    let mut mem2: Vec<u8> = Vec::new();
    let mut ptr2: usize = 0;
    let mut b2: usize = 1000;
    let out2 = interpret(&unit_tree, &mut mem2, &mut ptr2, &mut b2).unwrap();
    assert_eq!(out1, out2);
    assert_eq!(mem1, mem2);
    assert_eq!(ptr1, ptr2);
    assert_eq!(out1, vec![6u8 as char]);
}

#[test]
fn nested_loop_output_is_kept() {
    let (out, _, _, _) = run("++[>+.<-]", 100);
    assert_eq!(out.unwrap(), vec![1u8 as char, 2u8 as char]);
}
