use bfc::bfir::{parse, Instruction};
use bfc::optimize::{
    combine_increments, combine_ptr_increments, combine_set_and_increments, optimize,
    remove_dead_loops, remove_redundant_sets, simplify_loops,
};

fn p(source: &str) -> Vec<Instruction> {
    parse("", source).unwrap()
}

fn inc(amount: i8) -> Instruction {
    Instruction::Increment { amount, offset: 0 }
}

fn inc_at(amount: i8, offset: isize) -> Instruction {
    Instruction::Increment { amount, offset }
}

fn set(amount: i8) -> Instruction {
    Instruction::SetCell { amount, offset: 0 }
}

fn set_at(amount: i8, offset: isize) -> Instruction {
    Instruction::SetCell { amount, offset }
}

#[test]
fn combine_increments_flat() {
    let initial = p("++");
    let expected = vec![inc(2)];
    assert_eq!(combine_increments(initial), expected);
}

#[test]
fn combine_increments_unrelated() {
    let initial = p("+>+.");
    let expected = initial.clone();
    assert_eq!(combine_increments(initial), expected);
}

#[test]
fn combine_increments_nested() {
    let initial = p("[++]");
    let expected = vec![Instruction::Loop(vec![inc(2)])];
    assert_eq!(combine_increments(initial), expected);
}

#[test]
fn combine_increments_remove_redundant() {
    let initial = p("+-");
    assert_eq!(combine_increments(initial), vec![]);
}

#[test]
fn combine_increments_wraps() {
    let initial = vec![inc(127), inc(1)];
    assert_eq!(combine_increments(initial), vec![inc(-128)]);
    let initial = vec![inc(-128), inc(-128)];
    assert_eq!(combine_increments(initial), vec![]);
}

#[test]
fn combine_increments_keeps_offsets_apart() {
    let initial = vec![inc_at(1, 0), inc_at(2, 1), inc_at(3, 1), inc_at(4, 0)];
    let expected = vec![inc_at(1, 0), inc_at(5, 1), inc_at(4, 0)];
    assert_eq!(combine_increments(initial), expected);
}

#[test]
fn combine_ptr_increments_flat() {
    let initial = p(">>");
    let expected = vec![Instruction::PointerIncrement(2)];
    assert_eq!(combine_ptr_increments(initial), expected);
}

#[test]
fn combine_ptr_increments_unrelated() {
    let initial = p(">+>.");
    let expected = initial.clone();
    assert_eq!(combine_ptr_increments(initial), expected);
}

#[test]
fn combine_ptr_increments_nested() {
    let initial = p("[>>]");
    let expected = vec![Instruction::Loop(vec![Instruction::PointerIncrement(2)])];
    assert_eq!(combine_ptr_increments(initial), expected);
}

#[test]
fn combine_ptr_increments_remove_redundant() {
    let initial = p("><");
    assert_eq!(combine_ptr_increments(initial), vec![]);
}

#[test]
fn simplify_zeroing_loop() {
    let initial = p("[-]");
    let expected = vec![set(0)];
    assert_eq!(simplify_loops(initial), expected);
}

#[test]
fn simplify_nested_zeroing_loop() {
    let initial = p("[[-]]");
    let expected = vec![Instruction::Loop(vec![set(0)])];
    assert_eq!(simplify_loops(initial), expected);
}

#[test]
fn dont_simplify_multiple_decrement_loop() {
    let initial = p("[--]");
    assert_eq!(simplify_loops(initial.clone()), initial);
}

#[test]
fn dont_simplify_increment_loop() {
    assert_eq!(simplify_loops(p("[+]")), p("[+]"));
}

#[test]
fn should_remove_dead_loops() {
    let initial = vec![set(0), Instruction::Loop(vec![]), Instruction::Loop(vec![])];
    let expected = vec![set(0)];
    assert_eq!(remove_dead_loops(initial), expected);
}

#[test]
fn should_remove_dead_loops_nested() {
    let initial = vec![Instruction::Loop(vec![set(0), Instruction::Loop(vec![])])];
    let expected = vec![Instruction::Loop(vec![set(0)])];
    assert_eq!(remove_dead_loops(initial), expected);
}

#[test]
fn keep_loops_after_nonzero_set() {
    let initial = vec![set(1), Instruction::Loop(vec![])];
    let expected = vec![set(1), Instruction::Loop(vec![])];
    assert_eq!(remove_dead_loops(initial), expected);
}

#[test]
fn should_combine_set_and_increment() {
    let initial = vec![set(0), inc(1)];
    let expected = vec![set(1)];
    assert_eq!(combine_set_and_increments(initial), expected);
}

#[test]
fn should_combine_set_and_set() {
    let initial = vec![set(0), set(1)];
    let expected = vec![set(1)];
    assert_eq!(combine_set_and_increments(initial), expected);
}

#[test]
fn should_combine_set_and_set_nested() {
    let initial = vec![Instruction::Loop(vec![set(0), set(1)])];
    let expected = vec![Instruction::Loop(vec![set(1)])];
    assert_eq!(combine_set_and_increments(initial), expected);
}

#[test]
fn should_combine_increment_and_set() {
    let initial = vec![inc(2), set(3)];
    let expected = vec![set(3)];
    assert_eq!(combine_set_and_increments(initial), expected);
}

#[test]
fn set_and_increment_wraps() {
    let initial = vec![set(100), inc(100)];
    assert_eq!(combine_set_and_increments(initial), vec![set(-56)]);
}

#[test]
fn set_rules_need_equal_offsets() {
    let initial = vec![set_at(1, 0), set_at(2, 1), inc_at(3, 2), set_at(4, 3)];
    let expected = vec![set_at(1, 0), set_at(2, 1), inc_at(3, 2), set_at(4, 3)];
    assert_eq!(combine_set_and_increments(initial), expected);
}

#[test]
fn should_remove_redundant_set() {
    let initial = vec![Instruction::Loop(vec![]), set(0)];
    let expected = vec![Instruction::Loop(vec![])];
    assert_eq!(remove_redundant_sets(initial), expected);
}

#[test]
fn keep_nonzero_set_after_loop() {
    let initial = vec![Instruction::Loop(vec![]), set(2)];
    let expected = vec![Instruction::Loop(vec![]), set(2)];
    assert_eq!(remove_redundant_sets(initial), expected);
}

#[test]
fn passes_keep_empty_programs_empty() {
    assert_eq!(combine_increments(vec![]), vec![]);
    assert_eq!(combine_ptr_increments(vec![]), vec![]);
    assert_eq!(simplify_loops(vec![]), vec![]);
    assert_eq!(remove_dead_loops(vec![]), vec![]);
    assert_eq!(combine_set_and_increments(vec![]), vec![]);
    assert_eq!(remove_redundant_sets(vec![]), vec![]);
    assert_eq!(optimize(vec![]), vec![]);
}

#[test]
fn optimize_zeroing_then_increment() {
    let expected = vec![Instruction::Read, set(3), Instruction::Write];
    assert_eq!(optimize(p(",[-]+++.")), expected);
}

#[test]
fn optimize_removes_dead_and_redundant_work() {
    let initial = p("[-][>+<]>>><<[.][-]");
    let expected = vec![
        set(0),
        Instruction::PointerIncrement(1),
        Instruction::Loop(vec![Instruction::Write]),
    ];
    assert_eq!(optimize(initial), expected);
}

#[test]
fn optimize_twice_is_optimize_once() {
    for source in ["+++[->++<]>.", "[-]+[[-]>]", ",[.,]", "+>>--<<[-]+"] {
        let once = optimize(p(source));
        let twice = optimize(optimize(p(source)));
        assert_eq!(twice, once);
    }
}

#[test]
fn optimize_output_has_no_zero_amounts_or_adjacent_moves() {
    let out = optimize(p("+-><>>+<<-[+-]"));
    let expected = vec![
        Instruction::PointerIncrement(2),
        inc(1),
        Instruction::PointerIncrement(-2),
        inc(-1),
        Instruction::Loop(vec![]),
    ];
    assert_eq!(out, expected);
}

#[test]
fn optimize_keeps_increments_split_by_a_vanished_move() {
    // The move pair cancels only after increments were combined.
    let out = optimize(p("+><+"));
    assert_eq!(out, vec![inc(1), inc(1)]);
    assert_eq!(optimize(out), vec![inc(2)]);
}
