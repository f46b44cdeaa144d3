use stackexpr::opcodes::{Opcode, Registry};
use stackexpr::parser::parse;
use stackexpr::printer::{process, render_function, render_program, StackOrder};

fn reg() -> Registry {
    let mut r = Registry::new();
    r.push(Opcode { name: String::from("ADD"), pops: 2, sign: Some(String::from("+")), output: None });
    r.push(Opcode { name: String::from("MUL"), pops: 2, sign: Some(String::from("*")), output: None });
    r.push(Opcode { name: String::from("STORE"), pops: 1, sign: None, output: Some(String::from("STORE")) });
    r.push(Opcode { name: String::from("PAIR"), pops: 2, sign: None, output: None });
    r
}

fn words(ws: &[&str]) -> Vec<String> {
    ws.iter().map(|w| w.to_string()).collect()
}

#[test]
fn scenario_add_infix() {
    let fns = parse(&words(&["0x1", "0x2", "ADD"]), &reg()).unwrap();
    assert_eq!(fns.len(), 1);
    let lines = render_function(&fns[0], StackOrder::Left, false);
    assert_eq!(lines.len(), 2);
    assert_eq!(lines[0], "");
    assert_eq!(lines[1], "0x2 + 0x1");
}

#[test]
fn scenario_add_operand_binding() {
    let fns = parse(&words(&["0x1", "0x2", "ADD"]), &reg()).unwrap();
    let add = fns[0].stack.get(2).unwrap();
    assert_eq!(add.operands.len(), 2);
    assert_eq!(add.operands[0].value, "0x2");
    assert_eq!(add.operands[1].value, "0x1");
}

#[test]
fn scenario_mul_consumes_add() {
    let fns = parse(&words(&["0x1", "0x2", "ADD", "0x3", "MUL"]), &reg()).unwrap();
    let lines = render_function(&fns[0], StackOrder::Left, false);
    assert_eq!(lines.len(), 2);
    assert_eq!(lines[0], "");
    assert_eq!(lines[1], "0x3 * 0x2 + 0x1");
}

#[test]
fn scenario_store_alternate_literal() {
    let fns = parse(&words(&["<x", "STORE"]), &reg()).unwrap();
    let lines = render_function(&fns[0], StackOrder::Left, true);
    assert_eq!(lines.len(), 2);
    assert_eq!(lines[1], "STORE");
}

#[test]
fn store_without_stack_output_renders_call() {
    let fns = parse(&words(&["<x", "STORE"]), &reg()).unwrap();
    let lines = render_function(&fns[0], StackOrder::Left, false);
    assert_eq!(lines[1], "store(<x)");
}

#[test]
fn scenario_unknown_mnemonic() {
    let fns = parse(&words(&["0x1", "0x2", "FOO"]), &reg()).unwrap();
    let lines = render_function(&fns[0], StackOrder::Left, false);
    assert_eq!(lines.len(), 4);
    assert_eq!(lines[0], "");
    assert_eq!(lines[1], "0x1");
    assert_eq!(lines[2], "0x2");
    assert_eq!(lines[3], "foo()");
}

#[test]
fn underflow_is_a_structural_error() {
    let err = parse(&words(&["ADD"]), &reg()).unwrap_err();
    assert_eq!(err.position, 0);
    assert_eq!(err.function, "");
}

#[test]
fn underflow_reports_first_position_and_function() {
    let err = parse(&words(&["_f", "0x1", "ADD", "MUL"]), &reg()).unwrap_err();
    assert_eq!(err.function, "_f");
    assert_eq!(err.position, 1);
}

#[test]
fn right_order_reverses_root_lines() {
    let fns = parse(&words(&["0x1", "0x2", "FOO"]), &reg()).unwrap();
    let left = render_function(&fns[0], StackOrder::Left, false);
    let right = render_function(&fns[0], StackOrder::Right, false);
    assert_eq!(right.len(), left.len());
    assert_eq!(right[0], left[0]);
    assert_eq!(right[1], left[3]);
    assert_eq!(right[2], left[2]);
    assert_eq!(right[3], left[1]);
}

#[test]
fn call_style_joins_operands_with_comma() {
    let fns = parse(&words(&["0x1", "0x2", "PAIR"]), &reg()).unwrap();
    let lines = render_function(&fns[0], StackOrder::Left, false);
    assert_eq!(lines[1], "pair(0x2, 0x1)");
}

#[test]
fn function_markers_segment_the_stream() {
    let fns = parse(&words(&["0x5", "_f", "0x1", "0x2", "ADD"]), &reg()).unwrap();
    assert_eq!(fns.len(), 2);
    assert_eq!(fns[0].name.value, "");
    assert_eq!(fns[1].name.value, "_f");
    let lines = render_program(&fns, StackOrder::Left, false);
    assert_eq!(lines, vec!["", "0x5", "_f", "0x2 + 0x1"]);
}

#[test]
fn no_implicit_function_when_stream_starts_with_marker() {
    let fns = parse(&words(&["_main", "0x1"]), &reg()).unwrap();
    assert_eq!(fns.len(), 1);
    assert_eq!(fns[0].name.value, "_main");
}

#[test]
fn empty_input_parses_to_no_functions() {
    let fns = parse(&words(&[]), &reg()).unwrap();
    assert_eq!(fns.len(), 0);
    let lines = render_program(&fns, StackOrder::Left, false);
    assert_eq!(lines.len(), 0);
}

#[test]
fn marker_alone_makes_an_empty_function() {
    let fns = parse(&words(&["_f"]), &reg()).unwrap();
    assert_eq!(fns.len(), 1);
    let lines = render_program(&fns, StackOrder::Left, false);
    assert_eq!(lines, vec!["_f"]);
}

#[test]
fn jump_labels_stay_inert_and_positional() {
    let fns = parse(&words(&["0x1", "loop:", "0x2", "ADD"]), &reg()).unwrap();
    let lines = render_function(&fns[0], StackOrder::Left, false);
    assert_eq!(lines, vec!["", "0x1", "0x2 + loop:"]);
}

#[test]
fn stacks_do_not_cross_function_boundaries() {
    let err = parse(&words(&["0x1", "0x2", "_f", "ADD"]), &reg()).unwrap_err();
    assert_eq!(err.function, "_f");
    assert_eq!(err.position, 0);
}

#[test]
fn right_order_keeps_function_order_and_reverses_lines_within() {
    let fns = parse(&words(&["0x7", "0x8", "_f", "0x1", "0x2"]), &reg()).unwrap();
    let left = render_program(&fns, StackOrder::Left, false);
    assert_eq!(left, vec!["", "0x7", "0x8", "_f", "0x1", "0x2"]);
    let right = render_program(&fns, StackOrder::Right, false);
    assert_eq!(right, vec!["", "0x8", "0x7", "_f", "0x2", "0x1"]);
}

#[test]
fn process_renders_the_whole_program() {
    let ws = words(&["0x5", "_f", "0x1", "0x2", "ADD"]);
    let lines = process(&ws, &reg(), StackOrder::Left, false).unwrap();
    assert_eq!(lines, vec!["", "0x5", "_f", "0x2 + 0x1"]);
}

#[test]
fn process_propagates_the_structural_error() {
    let err = process(&words(&["MUL"]), &reg(), StackOrder::Left, false).unwrap_err();
    assert_eq!(err.position, 0);
    assert_eq!(err.function, "");
}

#[test]
fn a_value_may_feed_two_instructions() {
    let fns = parse(&words(&["0x1", "0x2", "ADD", "MUL"]), &reg()).unwrap();
    let lines = render_function(&fns[0], StackOrder::Left, false);
    assert_eq!(lines, vec!["", "0x2 + 0x1 * 0x2"]);
}
