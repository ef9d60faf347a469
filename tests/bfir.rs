use bfc::bfir::{parse, Instruction};
use bfc::diagnostics::Level;

fn inc(amount: i8) -> Instruction {
    Instruction::Increment { amount, offset: 0 }
}

#[test]
fn parse_increment() {
    assert_eq!(parse("", "+").unwrap(), [inc(1)]);
    assert_eq!(parse("", "++").unwrap(), [inc(1), inc(1)]);
}

#[test]
fn parse_decrement() {
    assert_eq!(parse("", "-").unwrap(), [inc(-1)]);
}

#[test]
fn parse_pointer_increment() {
    assert_eq!(parse("", ">").unwrap(), [Instruction::PointerIncrement(1)]);
}

#[test]
fn parse_pointer_decrement() {
    assert_eq!(parse("", "<").unwrap(), [Instruction::PointerIncrement(-1)]);
}

#[test]
fn parse_read() {
    assert_eq!(parse("", ",").unwrap(), [Instruction::Read]);
}

#[test]
fn parse_write() {
    assert_eq!(parse("", ".").unwrap(), [Instruction::Write]);
}

#[test]
fn parse_empty_loop() {
    let expected = [Instruction::Loop(vec![])];
    assert_eq!(parse("", "[]").unwrap(), expected);
}

#[test]
fn parse_simple_loop() {
    let loop_body = vec![inc(1)];
    let expected = [Instruction::Loop(loop_body)];
    assert_eq!(parse("", "[+]").unwrap(), expected);
}

#[test]
fn parse_complex_loop() {
    let loop_body = vec![Instruction::Read, inc(1)];
    let expected = [Instruction::Write, Instruction::Loop(loop_body), inc(-1)];
    assert_eq!(parse("", ".[,+]-").unwrap(), expected);
}

#[test]
fn parse_unbalanced_loop() {
    assert!(parse("", "[").is_err());
    assert!(parse("", "]").is_err());
    assert!(parse("", "][").is_err());
    assert!(parse("", "[][").is_err());
}

#[test]
fn parse_comment() {
    assert_eq!(parse("", "foo! ").unwrap(), []);
}

#[test]
fn parse_empty_source() {
    assert_eq!(parse("", "").unwrap(), []);
}

#[test]
fn parse_nested_loops() {
    let expected = [Instruction::Loop(vec![
        Instruction::PointerIncrement(1),
        Instruction::Loop(vec![inc(-1)]),
    ])];
    assert_eq!(parse("", "[>[-]]").unwrap(), expected);
}

#[test]
fn parse_skips_non_ascii() {
    assert_eq!(parse("", "é+ü").unwrap(), [inc(1)]);
}

#[test]
fn unmatched_close_points_at_it() {
    let info = parse("prog.bf", "+]").unwrap_err();
    assert_eq!(info.level, Level::Error);
    assert_eq!(info.filename, "prog.bf");
    assert_eq!(info.message, "This ] has no matching [");
    assert_eq!(info.position, Some(1..1));
    assert_eq!(info.source, Some("+]".to_string()));
}

#[test]
fn close_before_open_points_at_index_zero() {
    let info = parse("", "][").unwrap_err();
    assert_eq!(info.message, "This ] has no matching [");
    assert_eq!(info.position, Some(0..0));
}

#[test]
fn unmatched_open_points_at_outermost() {
    let info = parse("a", "+[[]").unwrap_err();
    assert_eq!(info.level, Level::Error);
    assert_eq!(info.filename, "a");
    assert_eq!(info.message, "This [ has no matching ]");
    assert_eq!(info.position, Some(1..1));
    assert_eq!(info.source, Some("+[[]".to_string()));

    let info = parse("", "[][").unwrap_err();
    assert_eq!(info.position, Some(2..2));
    let info = parse("", "x[[").unwrap_err();
    assert_eq!(info.position, Some(1..1));
}

#[test]
fn byte_positions_count_bytes() {
    let info = parse("", "é]").unwrap_err();
    assert_eq!(info.position, Some(2..2));
}
