use std::collections::HashMap;

use bfc::bfir::{parse, Instruction};
use bfc::optimize::optimize;

struct Tape {
    cells: HashMap<i64, i8>,
    head: i64,
    input: Vec<i8>,
    output: Vec<i8>,
}

impl Tape {
    fn new(input: &[u8]) -> Tape {
        Tape {
            cells: HashMap::new(),
            head: 0,
            input: input.iter().rev().map(|b| *b as i8).collect(),
            output: vec![],
        }
    }

    fn cell(&self, offset: isize) -> i8 {
        *self.cells.get(&(self.head + offset as i64)).unwrap_or(&0)
    }

    fn set(&mut self, offset: isize, v: i8) {
        self.cells.insert(self.head + offset as i64, v);
    }

    fn snapshot(&self) -> Vec<(i64, i8)> {
        let mut cells: Vec<(i64, i8)> =
            self.cells.iter().filter(|(_, v)| **v != 0).map(|(k, v)| (*k, *v)).collect();
        cells.sort();
        cells
    }
}

fn run(program: &[Instruction], tape: &mut Tape) {
    for instr in program {
        match instr {
            Instruction::Increment { amount, offset } => {
                let v = tape.cell(*offset).wrapping_add(*amount);
                tape.set(*offset, v);
            }
            Instruction::PointerIncrement(a) => tape.head += *a as i64,
            Instruction::Read => {
                if let Some(b) = tape.input.pop() {
                    tape.set(0, b);
                }
            }
            Instruction::Write => {
                let v = tape.cell(0);
                tape.output.push(v);
            }
            Instruction::Loop(body) => {
                while tape.cell(0) != 0 {
                    run(body, tape);
                }
            }
            Instruction::SetCell { amount, offset } => tape.set(*offset, *amount),
            Instruction::MultiplyMove(map) => {
                let c = tape.cell(0);
                for (d, k) in map {
                    let v = tape.cell(*d).wrapping_add(k.wrapping_mul(c));
                    tape.set(*d, v);
                }
                tape.set(0, 0);
            }
        }
    }
}

fn same_behaviour(source: &str, input: &[u8]) -> Vec<i8> {
    let program = parse("", source).unwrap();
    let mut before = Tape::new(input);
    run(&program, &mut before);
    let optimized = optimize(parse("", source).unwrap());
    let mut after = Tape::new(input);
    run(&optimized, &mut after);
    assert_eq!(before.output, after.output);
    assert_eq!(before.snapshot(), after.snapshot());
    assert_eq!(before.head, after.head);
    before.output
}

#[test]
fn optimize_keeps_output_and_tape() {
    let out = same_behaviour("++++++++[>++++++++<-]>+.[-]+-<<>>[-]++.", b"");
    assert_eq!(out, vec![65, 2]);
    let out = same_behaviour(",[.,]", b"echo\0");
    assert_eq!(out, vec![101, 99, 104, 111]);
    same_behaviour("+[-]-[+]>+><<+-[>]", b"");
    let out = same_behaviour("--[-->+<]>.", b"");
    assert_eq!(out, vec![127]);
}

#[test]
fn optimize_keeps_wrapping_behaviour() {
    let out = same_behaviour("-.+.", b"");
    assert_eq!(out, vec![-1, 0]);
}
