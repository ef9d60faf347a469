use std::collections::HashMap;
use vstd::prelude::*;

use vstd::string::StringSliceAdditionalSpecFns;

use crate::diagnostics::{Info, Level};

verus! {

/// The value held by one tape cell: eight bits, wrapping on overflow.
pub type Cell = i8;

/// One instruction of the intermediate representation.
#[derive(Debug, PartialEq, Eq)]
pub enum Instruction {
    /// Add `amount` (wrapping) to the cell at head + `offset`.
    Increment { amount: Cell, offset: isize },
    /// Move the head by the given amount.
    PointerIncrement(isize),
    /// Read one byte of input into the current cell.
    Read,
    /// Write the current cell as one byte of output.
    Write,
    /// Run the body while the current cell is nonzero.
    Loop(Vec<Instruction>),
    /// Assign `amount` to the cell at head + `offset`; made by the optimiser.
    SetCell { amount: Cell, offset: isize },
    /// For each `(d, k)`, add `k` times the current cell to the cell at
    /// head + `d`, then clear the current cell; made by the optimiser.
    MultiplyMove(HashMap<isize, Cell>),
}

/// The mathematical value of an instruction: loop bodies become sequences.
pub enum Op {
    Increment { amount: i8, offset: isize },
    PointerIncrement(isize),
    Read,
    Write,
    Loop(Seq<Op>),
    SetCell { amount: i8, offset: isize },
    MultiplyMove(Map<isize, i8>),
}

/// The value of an instruction.
pub open spec fn op_of(i: Instruction) -> Op
    decreases i,
{
    match i {
        Instruction::Increment { amount, offset } => Op::Increment { amount, offset },
        Instruction::PointerIncrement(a) => Op::PointerIncrement(a),
        Instruction::Read => Op::Read,
        Instruction::Write => Op::Write,
        Instruction::Loop(body) => Op::Loop(ops_of(body@)),
        Instruction::SetCell { amount, offset } => Op::SetCell { amount, offset },
        Instruction::MultiplyMove(m) => Op::MultiplyMove(m@),
    }
}

/// The value of a sequence of instructions, element by element.
pub open spec fn ops_of(s: Seq<Instruction>) -> Seq<Op>
    decreases s,
{
    if s.len() == 0 {
        Seq::empty()
    } else {
        ops_of(s.drop_last()).push(op_of(s.last()))
    }
}

pub proof fn lemma_ops_of(s: Seq<Instruction>)
    ensures
        ops_of(s).len() == s.len(),
        forall|k: int| 0 <= k < s.len() ==> #[trigger] ops_of(s)[k] == op_of(s[k]),
    decreases s.len(),
{
    if s.len() > 0 {
        lemma_ops_of(s.drop_last());
    }
}

pub proof fn lemma_ops_of_push(s: Seq<Instruction>, i: Instruction)
    ensures
        ops_of(s.push(i)) == ops_of(s).push(op_of(i)),
{
    assert(s.push(i).drop_last() =~= s);
}

/// The instruction that a source byte stands for, if it stands for one
/// other than a bracket.
pub open spec fn token_op(b: u8) -> Option<Op> {
    if b == 43 {
        Some(Op::Increment { amount: 1, offset: 0 })
    } else if b == 45 {
        Some(Op::Increment { amount: -1i8, offset: 0isize })
    } else if b == 62 {
        Some(Op::PointerIncrement(1))
    } else if b == 60 {
        Some(Op::PointerIncrement(-1isize))
    } else if b == 44 {
        Some(Op::Read)
    } else if b == 46 {
        Some(Op::Write)
    } else {
        None
    }
}

/// The state of a left-to-right scan after the first `n` bytes of `src`:
/// the instructions of the innermost open block, and for each open loop
/// (outermost first) the instructions before it in its enclosing block and
/// the index of its `[`. It is `Err(i)` when the byte at `i` is a `]` with
/// no open loop.
pub open spec fn scan(src: Seq<u8>, n: nat) -> Result<(Seq<Op>, Seq<(Seq<Op>, int)>), int>
    decreases n,
{
    if n == 0 {
        Ok((Seq::empty(), Seq::empty()))
    } else {
        match scan(src, (n - 1) as nat) {
            Err(i) => Err(i),
            Ok((cur, frames)) => {
                let i = n - 1;
                let b = src[i];
                if b == 91 {
                    Ok((Seq::empty(), frames.push((cur, i))))
                } else if b == 93 {
                    if frames.len() == 0 {
                        Err(i)
                    } else {
                        Ok((frames.last().0.push(Op::Loop(cur)), frames.drop_last()))
                    }
                } else {
                    match token_op(b) {
                        Some(o) => Ok((cur.push(o), frames)),
                        None => Ok((cur, frames)),
                    }
                }
            },
        }
    }
}

/// Why a source text does not parse.
pub enum ParseError {
    /// The `]` at this byte index closes no loop.
    UnmatchedClose(int),
    /// The `[` at this byte index, the outermost one left open, is never closed.
    UnmatchedOpen(int),
}

/// The program that the bytes of a source text stand for, or why there is none.
pub open spec fn parse_spec(src: Seq<u8>) -> Result<Seq<Op>, ParseError> {
    match scan(src, src.len()) {
        Err(i) => Err(ParseError::UnmatchedClose(i)),
        Ok((cur, frames)) => if frames.len() > 0 {
            Err(ParseError::UnmatchedOpen(frames[0].1))
        } else {
            Ok(cur)
        },
    }
}

/// An instruction that source text can stand for: an increment or decrement
/// by one of the current cell, a move by one, `Read`, `Write`, or a loop
/// whose body is made of such instructions.
pub open spec fn source_op(o: Op) -> bool
    decreases o,
{
    match o {
        Op::Increment { amount, offset } => offset == 0 && (amount == 1 || amount == -1),
        Op::PointerIncrement(a) => a == 1 || a == -1,
        Op::Read => true,
        Op::Write => true,
        Op::Loop(b) => forall|k: int| 0 <= k < b.len() ==> source_op(#[trigger] b[k]),
        Op::SetCell { .. } => false,
        Op::MultiplyMove(_) => false,
    }
}

/// A block made only of instructions that source text can stand for.
pub open spec fn source_form(s: Seq<Op>) -> bool {
    forall|k: int| 0 <= k < s.len() ==> source_op(#[trigger] s[k])
}

proof fn lemma_scan_source_form(src: Seq<u8>, n: nat)
    requires
        n <= src.len(),
    ensures
        scan(src, n) matches Ok((cur, frames)) ==> source_form(cur) && forall|j: int|
            0 <= j < frames.len() ==> source_form(#[trigger] frames[j].0),
    decreases n,
{
    if n > 0 {
        lemma_scan_source_form(src, (n - 1) as nat);
        match scan(src, (n - 1) as nat) {
            Err(_) => {},
            Ok((cur, frames)) => {
                let i = n - 1;
                let b = src[i];
                if b == 91 {
                    let f2 = frames.push((cur, i));
                    assert forall|j: int| 0 <= j < f2.len() implies source_form(#[trigger] f2[j].0) by {
                        if j < frames.len() {
                            assert(f2[j] == frames[j]);
                        }
                    }
                } else if b == 93 {
                    if frames.len() > 0 {
                        let parent = frames.last().0;
                        assert(source_form(parent));
                        assert(source_op(Op::Loop(cur)));
                        let c2 = parent.push(Op::Loop(cur));
                        assert forall|k: int| 0 <= k < c2.len() implies source_op(#[trigger] c2[k]) by {
                            if k < parent.len() {
                                assert(c2[k] == parent[k]);
                            }
                        }
                        let f2 = frames.drop_last();
                        assert forall|j: int| 0 <= j < f2.len() implies source_form(#[trigger] f2[j].0) by {
                            assert(f2[j] == frames[j]);
                        }
                    }
                } else {
                    match token_op(b) {
                        Some(o) => {
                            let c2 = cur.push(o);
                            assert forall|k: int| 0 <= k < c2.len() implies source_op(#[trigger] c2[k]) by {
                                if k < cur.len() {
                                    assert(c2[k] == cur[k]);
                                }
                            }
                        },
                        None => {},
                    }
                }
            },
        }
    }
}

/// Source text stands only for instructions that source text can stand for:
/// no assignment, no multiply-move, and no offset but zero.
pub proof fn lemma_parse_source_form(src: Seq<u8>)
    ensures
        parse_spec(src) matches Ok(ops) ==> source_form(ops),
{
    lemma_scan_source_form(src, src.len());
}

/// The value of the open-loop frames of the parser.
pub open spec fn frames_of(f: Seq<(Vec<Instruction>, usize)>) -> Seq<(Seq<Op>, int)> {
    f.map_values(|x: (Vec<Instruction>, usize)| (ops_of(x.0@), x.1 as int))
}

proof fn lemma_scan_stops(src: Seq<u8>, i: int, n: nat)
    requires
        0 <= i < n,
        scan(src, (i + 1) as nat) == Err::<(Seq<Op>, Seq<(Seq<Op>, int)>), int>(i),
    ensures
        scan(src, n) == Err::<(Seq<Op>, Seq<(Seq<Op>, int)>), int>(i),
    decreases n,
{
    if n > i + 1 {
        lemma_scan_stops(src, i, (n - 1) as nat);
    }
}

/// The diagnostic for a bracket at byte `index` of `source` that has no match.
fn bracket_error(filename: &str, source: &str, message: &str, index: usize) -> (r: Info)
    ensures
        r.level == Level::Error,
        r.filename@ == filename@,
        r.message@ == message@,
        r.position == Some(std::ops::Range { start: index, end: index }),
        r.source is Some && r.source->Some_0@ == source@,
{
    Info {
        level: Level::Error,
        filename: filename.to_owned(),
        message: message.to_owned(),
        position: Some(std::ops::Range { start: index, end: index }),
        source: Some(source.to_owned()),
    }
}

/// Parses source text into instructions. Bytes other than the eight tokens
/// are comments. Fails on a `]` that closes no loop, pointing at it, and on
/// a `[` that is never closed, pointing at the outermost such one.
pub fn parse(filename: &str, source: &str) -> (r: Result<Vec<Instruction>, Info>)
    ensures
        match parse_spec(source.spec_bytes()) {
            Ok(ops) => r is Ok && ops_of(r->Ok_0@) == ops,
            Err(e) => r is Err && ({
                let info = r->Err_0;
                let (index, message) = match e {
                    ParseError::UnmatchedClose(i) => (i, "This ] has no matching ["@),
                    ParseError::UnmatchedOpen(i) => (i, "This [ has no matching ]"@),
                };
                &&& info.level == Level::Error
                &&& info.filename@ == filename@
                &&& info.message@ == message
                &&& info.position is Some
                &&& info.position->Some_0.start == index
                &&& info.position->Some_0.end == index
                &&& info.source is Some
                &&& info.source->Some_0@ == source@
            }),
        },
        r is Ok ==> source_form(ops_of(r->Ok_0@)),
{
    proof {
        lemma_parse_source_form(source.spec_bytes());
    }
    let bytes = source.as_bytes();
    let ghost src = bytes@;
    let mut instructions: Vec<Instruction> = Vec::new();
    let mut stack: Vec<(Vec<Instruction>, usize)> = Vec::new();
    let mut index: usize = 0;
    proof {
        assert(ops_of(instructions@) =~= Seq::<Op>::empty());
        assert(frames_of(stack@) =~= Seq::<(Seq<Op>, int)>::empty());
    }
    while index < bytes.len()
        invariant
            src == bytes@,
            src == source.spec_bytes(),
            index <= src.len(),
            scan(src, index as nat) == Ok::<(Seq<Op>, Seq<(Seq<Op>, int)>), int>(
                (ops_of(instructions@), frames_of(stack@)),
            ),
        decreases src.len() - index,
    {
        let c = bytes[index];
        let ghost cur = ops_of(instructions@);
        let ghost frames = frames_of(stack@);
        if c == 91u8 {
            let parent = instructions;
            stack.push((parent, index));
            instructions = Vec::new();
            proof {
                assert(frames_of(stack@) =~= frames.push((cur, index as int)));
                assert(ops_of(instructions@) =~= Seq::<Op>::empty());
            }
        } else if c == 93u8 {
            match stack.pop() {
                Some((mut parent_instr, _)) => {
                    proof {
                        assert(frames_of(stack@) =~= frames.drop_last());
                        lemma_ops_of_push(parent_instr@, Instruction::Loop(instructions));
                    }
                    parent_instr.push(Instruction::Loop(instructions));
                    instructions = parent_instr;
                },
                None => {
                    proof {
                        lemma_scan_stops(src, index as int, src.len());
                    }
                    return Err(bracket_error(filename, source, "This ] has no matching [", index));
                },
            }
        } else {
            let op = if c == 43u8 {
                Some(Instruction::Increment { amount: 1, offset: 0 })
            } else if c == 45u8 {
                Some(Instruction::Increment { amount: -1, offset: 0 })
            } else if c == 62u8 {
                Some(Instruction::PointerIncrement(1))
            } else if c == 60u8 {
                Some(Instruction::PointerIncrement(-1))
            } else if c == 44u8 {
                Some(Instruction::Read)
            } else if c == 46u8 {
                Some(Instruction::Write)
            } else {
                None
            };
            match op {
                Some(o) => {
                    proof {
                        lemma_ops_of_push(instructions@, o);
                    }
                    instructions.push(o);
                },
                None => {},
            }
        }
        index = index + 1;
    }
    if stack.len() > 0 {
        let pos = stack[0].1;
        return Err(bracket_error(filename, source, "This [ has no matching ]", pos));
    }
    Ok(instructions)
}

/// A copy of an instruction, loop bodies included.
fn copy_instr(instr: &Instruction) -> (r: Instruction)
    ensures
        op_of(r) == op_of(*instr),
    decreases instr,
{
    match instr {
        Instruction::Increment { amount, offset } => Instruction::Increment {
            amount: *amount,
            offset: *offset,
        },
        Instruction::PointerIncrement(a) => Instruction::PointerIncrement(*a),
        Instruction::Read => Instruction::Read,
        Instruction::Write => Instruction::Write,
        Instruction::Loop(body) => {
            let mut copy: Vec<Instruction> = Vec::new();
            let mut i: usize = 0;
            proof {
                lemma_ops_of(body@);
            }
            while i < body.len()
                invariant
                    i <= body@.len(),
                    *instr == Instruction::Loop(*body),
                    ops_of(body@).len() == body@.len(),
                    forall|k: int| 0 <= k < body@.len() ==> #[trigger] ops_of(body@)[k] == op_of(body@[k]),
                    ops_of(copy@) == ops_of(body@).take(i as int),
                decreases body@.len() - i,
            {
                proof {
                    vstd::std_specs::vec::axiom_vec_index_decreases(*body, i as int);
                    assert(decreases_to!(*instr => instr->Loop_0));
                    assert(decreases_to!(*instr => body[i as int]));
                }
                let x = copy_instr(&body[i]);
                proof {
                    lemma_ops_of_push(copy@, x);
                    assert(ops_of(body@).take(i + 1) =~= ops_of(body@).take(i as int).push(op_of(x)));
                }
                copy.push(x);
                i = i + 1;
            }
            proof {
                assert(ops_of(body@).take(i as int) =~= ops_of(body@));
            }
            Instruction::Loop(copy)
        },
        Instruction::SetCell { amount, offset } => Instruction::SetCell {
            amount: *amount,
            offset: *offset,
        },
        Instruction::MultiplyMove(m) => Instruction::MultiplyMove(m.clone()),
    }
}

impl Clone for Instruction {
    fn clone(&self) -> Self {
        copy_instr(self)
    }
}

} // verus!
