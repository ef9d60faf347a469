use std::collections::HashMap;

use bfc::bfir::{parse, Instruction};
use bfc::display::fmt_with_indent;

#[test]
fn display_simple_instructions() {
    assert_eq!(
        Instruction::Increment { amount: -128, offset: 0 }.to_string(),
        "Increment { amount: -128, offset: 0 }"
    );
    assert_eq!(Instruction::PointerIncrement(-1).to_string(), "PointerIncrement(-1)");
    assert_eq!(Instruction::Read.to_string(), "Read");
    assert_eq!(Instruction::Write.to_string(), "Write");
    assert_eq!(
        Instruction::SetCell { amount: 127, offset: -30 }.to_string(),
        "SetCell { amount: 127, offset: -30 }"
    );
}

#[test]
fn display_nested_loops() {
    let program = parse("", "[+[<]]").unwrap();
    let expected = "Loop\n  Increment { amount: 1, offset: 0 }\n  Loop\n    PointerIncrement(-1)";
    assert_eq!(program[0].to_string(), expected);
    assert_eq!(Instruction::Loop(vec![]).to_string(), "Loop");
}

#[test]
fn display_with_indent_appends() {
    let mut out = String::from("x");
    fmt_with_indent(&Instruction::PointerIncrement(1234567), "    ", &mut out);
    assert_eq!(out, "x    PointerIncrement(1234567)");
}

#[test]
fn display_multiply_move() {
    let mut map = HashMap::new();
    map.insert(2isize, 3i8);
    assert_eq!(Instruction::MultiplyMove(map).to_string(), "MultiplyMove({2: 3})");
}

#[test]
fn display_multiply_move_in_offset_order() {
    let mut map = HashMap::new();
    map.insert(3isize, 1i8);
    map.insert(-2isize, -4i8);
    map.insert(10isize, 127i8);
    map.insert(1isize, 0i8);
    let expected = "MultiplyMove({-2: -4, 1: 0, 3: 1, 10: 127})";
    for _ in 0..3 {
        assert_eq!(Instruction::MultiplyMove(map.clone()).to_string(), expected);
    }
    assert_eq!(Instruction::MultiplyMove(HashMap::new()).to_string(), "MultiplyMove({})");
}

#[test]
fn display_loop_holding_multiply_move() {
    let mut map = HashMap::new();
    map.insert(1isize, 2i8);
    map.insert(-1isize, 1i8);
    let program = Instruction::Loop(vec![
        Instruction::Write,
        Instruction::Loop(vec![Instruction::MultiplyMove(map)]),
        Instruction::Read,
    ]);
    let expected = "Loop\n  Write\n  Loop\n    MultiplyMove({-1: 1, 1: 2})\n  Read";
    assert_eq!(program.to_string(), expected);
    let mut out = String::from(">");
    fmt_with_indent(&program, "  ", &mut out);
    assert_eq!(out, format!(">  {}", expected.replace('\n', "\n  ")));
}

#[test]
fn clone_copies_loops_and_maps() {
    let mut map = HashMap::new();
    map.insert(-1isize, 5i8);
    let program = Instruction::Loop(vec![
        Instruction::MultiplyMove(map),
        Instruction::Loop(vec![Instruction::Read]),
    ]);
    assert_eq!(program.clone(), program);
}
