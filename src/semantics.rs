use vstd::prelude::*;

use crate::bfir::Op;
use crate::optimize::{
    Pass, Rule, merge_spec, coalesce_from, coalesced, is_noop, drop_noops, is_decrement_body,
    pass_op, each_op, block_rewrite, pass_ops, optimized,
};

verus! {

/// The state of the tape machine: every cell of the tape (addressed by a
/// wrapping machine-width index), the head, the input still unread and the
/// output written so far.
#[verifier::ext_equal]
pub struct Machine {
    pub tape: spec_fn(isize) -> i8,
    pub head: isize,
    pub input: Seq<i8>,
    pub output: Seq<i8>,
}

/// The address of the cell at `offset` from the head.
pub open spec fn address(m: Machine, offset: isize) -> isize {
    m.head.wrapping_add(offset)
}

/// The cell at `offset` from the head.
pub open spec fn cell_at(m: Machine, offset: isize) -> i8 {
    (m.tape)(address(m, offset))
}

/// The machine with the cell at `offset` from the head set to `v`.
pub open spec fn with_cell(m: Machine, offset: isize, v: i8) -> Machine {
    let at = address(m, offset);
    Machine {
        tape: |a: isize| if a == at { v } else { (m.tape)(a) },
        head: m.head,
        input: m.input,
        output: m.output,
    }
}

/// `MultiplyMove`: each mapped cell gains its factor times the current cell
/// (wrapping), then the current cell is cleared.
pub open spec fn multiply_moved(map: Map<isize, i8>, m: Machine) -> Machine {
    let c = cell_at(m, 0);
    Machine {
        tape: |a: isize|
            if a == m.head {
                0i8
            } else if exists|d: isize| #[trigger] map.contains_key(d) && address(m, d) == a {
                let d = choose|d: isize| #[trigger] map.contains_key(d) && address(m, d) == a;
                (m.tape)(a).wrapping_add(map[d].wrapping_mul(c))
            } else {
                (m.tape)(a)
            },
        head: m.head,
        input: m.input,
        output: m.output,
    }
}

/// Runs one instruction with at most `fuel` loop iterations at each depth;
/// `None` when that is not enough. At the end of input, `Read` leaves the
/// cell unchanged.
pub open spec fn step(o: Op, m: Machine, fuel: nat) -> Option<Machine>
    decreases fuel, o,
{
    match o {
        Op::Increment { amount, offset } => Some(
            with_cell(m, offset, cell_at(m, offset).wrapping_add(amount)),
        ),
        Op::PointerIncrement(a) => Some(
            Machine { tape: m.tape, head: m.head.wrapping_add(a), input: m.input, output: m.output },
        ),
        Op::Read => if m.input.len() == 0 {
            Some(m)
        } else {
            let w = with_cell(m, 0, m.input[0]);
            Some(Machine { tape: w.tape, head: w.head, input: m.input.drop_first(), output: w.output })
        },
        Op::Write => Some(
            Machine {
                tape: m.tape,
                head: m.head,
                input: m.input,
                output: m.output.push(cell_at(m, 0)),
            },
        ),
        Op::Loop(b) => if cell_at(m, 0) == 0 {
            Some(m)
        } else if fuel == 0 {
            None
        } else {
            match run(b, m, (fuel - 1) as nat) {
                None => None,
                Some(m2) => step(Op::Loop(b), m2, (fuel - 1) as nat),
            }
        },
        Op::SetCell { amount, offset } => Some(with_cell(m, offset, amount)),
        Op::MultiplyMove(map) => Some(multiply_moved(map, m)),
    }
}

/// Runs a block of instructions in order.
pub open spec fn run(s: Seq<Op>, m: Machine, fuel: nat) -> Option<Machine>
    decreases fuel, s,
{
    if s.len() == 0 {
        Some(m)
    } else {
        match step(s[0], m, fuel) {
            None => None,
            Some(m2) => run(s.drop_first(), m2, fuel),
        }
    }
}

/// Running `a + b` is running `a`, then `b`.
pub proof fn lemma_run_concat(a: Seq<Op>, b: Seq<Op>, m: Machine, fuel: nat)
    ensures
        run(a + b, m, fuel) == match run(a, m, fuel) {
            None => None,
            Some(m2) => run(b, m2, fuel),
        },
    decreases a.len(),
{
    if a.len() == 0 {
        assert(a + b =~= b);
    } else {
        assert((a + b).drop_first() =~= a.drop_first() + b);
        assert((a + b)[0] == a[0]);
        match step(a[0], m, fuel) {
            None => {},
            Some(m2) => {
                lemma_run_concat(a.drop_first(), b, m2, fuel);
            },
        }
    }
}

proof fn lemma_wrapping_add_assoc_i8(a: i8, b: i8, c: i8)
    ensures
        a.wrapping_add(b).wrapping_add(c) == a.wrapping_add(b.wrapping_add(c)),
{
}

proof fn lemma_wrapping_add_assoc_isize(a: isize, b: isize, c: isize)
    ensures
        a.wrapping_add(b).wrapping_add(c) == a.wrapping_add(b.wrapping_add(c)),
{
}

proof fn lemma_run_one(o: Op, m: Machine, fuel: nat)
    ensures
        run(seq![o], m, fuel) == step(o, m, fuel),
{
    assert(seq![o].drop_first() =~= Seq::<Op>::empty());
    assert(seq![o][0] == o);
    match step(o, m, fuel) {
        None => {},
        Some(m2) => {
            assert(run(Seq::<Op>::empty(), m2, fuel) == Some(m2));
        },
    }
}

proof fn lemma_run_two(x: Op, y: Op, m: Machine, fuel: nat)
    ensures
        run(seq![x, y], m, fuel) == match step(x, m, fuel) {
            None => None,
            Some(m1) => step(y, m1, fuel),
        },
{
    assert(seq![x, y].drop_first() =~= seq![y]);
    assert(seq![x, y][0] == x);
    match step(x, m, fuel) {
        None => {},
        Some(m1) => {
            lemma_run_one(y, m1, fuel);
        },
    }
}

/// A loop that finishes leaves the current cell zero.
proof fn lemma_loop_exit(b: Seq<Op>, m: Machine, fuel: nat)
    requires
        step(Op::Loop(b), m, fuel) is Some,
    ensures
        cell_at(step(Op::Loop(b), m, fuel)->Some_0, 0) == 0,
    decreases fuel,
{
    if cell_at(m, 0) != 0 {
        let m2 = run(b, m, (fuel - 1) as nat)->Some_0;
        lemma_loop_exit(b, m2, (fuel - 1) as nat);
    }
}

/// Two instructions that a rule folds run as the instruction they fold into.
proof fn lemma_merge_runs_alike(rule: Rule, x: Op, y: Op, m: Machine, fuel: nat)
    requires
        merge_spec(rule, x, y) is Some,
    ensures
        run(seq![x, y], m, fuel) == run(seq![merge_spec(rule, x, y)->Some_0], m, fuel),
{
    let z = merge_spec(rule, x, y)->Some_0;
    lemma_run_two(x, y, m, fuel);
    lemma_run_one(z, m, fuel);
    match rule {
        Rule::Increments => {
            let a = x->Increment_amount;
            let b = y->Increment_amount;
            let o = x->Increment_offset;
            let m1 = step(x, m, fuel)->Some_0;
            lemma_wrapping_add_assoc_i8(cell_at(m, o), a, b);
            assert(cell_at(m1, o) == cell_at(m, o).wrapping_add(a));
            assert(step(y, m1, fuel)->Some_0 =~= step(z, m, fuel)->Some_0);
        },
        Rule::PointerIncrements => {
            lemma_wrapping_add_assoc_isize(m.head, x->PointerIncrement_0, y->PointerIncrement_0);
            let m1 = step(x, m, fuel)->Some_0;
            assert(step(y, m1, fuel)->Some_0 =~= step(z, m, fuel)->Some_0);
        },
        Rule::DeadLoop => {
            let m1 = step(x, m, fuel)->Some_0;
            assert(cell_at(m1, 0) == 0);
        },
        Rule::SetThenSet => {
            let m1 = step(x, m, fuel)->Some_0;
            assert(step(y, m1, fuel)->Some_0 =~= step(z, m, fuel)->Some_0);
        },
        Rule::SetThenIncrement => {
            let m1 = step(x, m, fuel)->Some_0;
            assert(step(y, m1, fuel)->Some_0 =~= step(z, m, fuel)->Some_0);
        },
        Rule::IncrementThenSet => {
            let m1 = step(x, m, fuel)->Some_0;
            assert(step(y, m1, fuel)->Some_0 =~= step(z, m, fuel)->Some_0);
        },
        Rule::RedundantSet => {
            match step(x, m, fuel) {
                None => {},
                Some(m1) => {
                    lemma_loop_exit(x->Loop_0, m, fuel);
                    assert(step(y, m1, fuel)->Some_0 =~= m1);
                },
            }
        },
    }
}

proof fn lemma_coalesce_runs_alike(rule: Rule, acc: Op, rest: Seq<Op>, m: Machine, fuel: nat)
    ensures
        run(coalesce_from(rule, acc, rest), m, fuel) == run(seq![acc] + rest, m, fuel),
    decreases rest.len(),
{
    if rest.len() == 0 {
        assert(seq![acc] + rest =~= seq![acc]);
    } else {
        let tail = rest.drop_first();
        assert(seq![acc] + rest =~= seq![acc, rest[0]] + tail);
        lemma_run_concat(seq![acc, rest[0]], tail, m, fuel);
        match merge_spec(rule, acc, rest[0]) {
            Some(z) => {
                lemma_coalesce_runs_alike(rule, z, tail, m, fuel);
                lemma_run_concat(seq![z], tail, m, fuel);
                lemma_merge_runs_alike(rule, acc, rest[0], m, fuel);
            },
            None => {
                let sub = coalesce_from(rule, rest[0], tail);
                lemma_run_concat(seq![acc], sub, m, fuel);
                lemma_run_concat(seq![acc], seq![rest[0]] + tail, m, fuel);
                assert(seq![acc] + (seq![rest[0]] + tail) =~= seq![acc] + rest);
                lemma_run_one(acc, m, fuel);
                match step(acc, m, fuel) {
                    None => {},
                    Some(m2) => {
                        lemma_coalesce_runs_alike(rule, rest[0], tail, m2, fuel);
                    },
                }
            },
        }
    }
}

proof fn lemma_coalesced_runs_alike(rule: Rule, s: Seq<Op>, m: Machine, fuel: nat)
    ensures
        run(coalesced(rule, s), m, fuel) == run(s, m, fuel),
{
    if s.len() > 0 {
        lemma_coalesce_runs_alike(rule, s[0], s.drop_first(), m, fuel);
        assert(seq![s[0]] + s.drop_first() =~= s);
    }
}

proof fn lemma_drop_noops_runs_alike(rule: Rule, s: Seq<Op>, m: Machine, fuel: nat)
    ensures
        run(drop_noops(rule, s), m, fuel) == run(s, m, fuel),
    decreases s.len(),
{
    if s.len() > 0 {
        let init = s.drop_last();
        let last = s.last();
        assert(init + seq![last] =~= s);
        lemma_run_concat(init, seq![last], m, fuel);
        lemma_drop_noops_runs_alike(rule, init, m, fuel);
        let d = drop_noops(rule, init);
        lemma_run_concat(d, seq![last], m, fuel);
        assert(d.push(last) =~= d + seq![last]);
        match run(init, m, fuel) {
            None => {},
            Some(m2) => {
                lemma_run_one(last, m2, fuel);
                if is_noop(rule, last) {
                    assert(step(last, m2, fuel)->Some_0 =~= m2);
                }
            },
        }
    }
}

/// A loop that only decrements the current cell by one, when it finishes,
/// has only cleared that cell.
proof fn lemma_decrement_loop(b: Seq<Op>, m: Machine, fuel: nat)
    requires
        is_decrement_body(b),
        step(Op::Loop(b), m, fuel) is Some,
    ensures
        step(Op::Loop(b), m, fuel)->Some_0 == with_cell(m, 0, 0),
    decreases fuel,
{
    if cell_at(m, 0) == 0 {
        assert(with_cell(m, 0, 0) =~= m);
    } else {
        let f = (fuel - 1) as nat;
        lemma_run_one(b[0], m, f);
        assert(b =~= seq![b[0]]);
        let m1 = run(b, m, f)->Some_0;
        lemma_decrement_loop(b, m1, f);
        assert(with_cell(m1, 0, 0) =~= with_cell(m, 0, 0));
    }
}

proof fn lemma_pass_op_runs_alike(p: Pass, o: Op, m: Machine, fuel: nat)
    requires
        step(o, m, fuel) is Some,
    ensures
        step(pass_op(p, o), m, fuel) == step(o, m, fuel),
    decreases o, fuel,
{
    match o {
        Op::Loop(b) => {
            if p == Pass::SimplifyLoops && is_decrement_body(b) {
                lemma_decrement_loop(b, m, fuel);
            } else if cell_at(m, 0) != 0 {
                let f = (fuel - 1) as nat;
                lemma_pass_runs_alike(p, b, m, f);
                let m2 = run(b, m, f)->Some_0;
                lemma_pass_op_runs_alike(p, o, m2, f);
            }
        },
        _ => {},
    }
}

proof fn lemma_each_op_runs_alike(p: Pass, s: Seq<Op>, m: Machine, fuel: nat)
    requires
        run(s, m, fuel) is Some,
    ensures
        run(each_op(p, s), m, fuel) == run(s, m, fuel),
    decreases s, 0nat,
{
    if s.len() > 0 {
        let init = s.drop_last();
        let last = s.last();
        assert(init + seq![last] =~= s);
        lemma_run_concat(init, seq![last], m, fuel);
        let e = each_op(p, init);
        assert(each_op(p, s) =~= e + seq![pass_op(p, last)]);
        lemma_run_concat(e, seq![pass_op(p, last)], m, fuel);
        lemma_each_op_runs_alike(p, init, m, fuel);
        let m2 = run(init, m, fuel)->Some_0;
        lemma_run_one(last, m2, fuel);
        lemma_run_one(pass_op(p, last), m2, fuel);
        lemma_pass_op_runs_alike(p, last, m2, fuel);
    }
}

/// Each pass, on a block that finishes, gives the same final machine.
pub proof fn lemma_pass_runs_alike(p: Pass, s: Seq<Op>, m: Machine, fuel: nat)
    requires
        run(s, m, fuel) is Some,
    ensures
        run(pass_ops(p, s), m, fuel) == run(s, m, fuel),
    decreases s, 1nat,
{
    lemma_each_op_runs_alike(p, s, m, fuel);
    let t = each_op(p, s);
    assert(pass_ops(p, s) == block_rewrite(p, t));
    match p {
        Pass::CombineIncrements => {
            lemma_coalesced_runs_alike(Rule::Increments, t, m, fuel);
            lemma_drop_noops_runs_alike(Rule::Increments, coalesced(Rule::Increments, t), m, fuel);
        },
        Pass::CombinePtrIncrements => {
            lemma_coalesced_runs_alike(Rule::PointerIncrements, t, m, fuel);
            lemma_drop_noops_runs_alike(
                Rule::PointerIncrements,
                coalesced(Rule::PointerIncrements, t),
                m,
                fuel,
            );
        },
        Pass::SimplifyLoops => {},
        Pass::RemoveDeadLoops => {
            lemma_coalesced_runs_alike(Rule::DeadLoop, t, m, fuel);
        },
        Pass::CombineSetAndIncrements => {
            let t1 = coalesced(Rule::SetThenSet, t);
            let t2 = coalesced(Rule::SetThenIncrement, t1);
            lemma_coalesced_runs_alike(Rule::SetThenSet, t, m, fuel);
            lemma_coalesced_runs_alike(Rule::SetThenIncrement, t1, m, fuel);
            lemma_coalesced_runs_alike(Rule::IncrementThenSet, t2, m, fuel);
        },
        Pass::RemoveRedundantSets => {
            lemma_coalesced_runs_alike(Rule::RedundantSet, t, m, fuel);
        },
    }
}

/// Whenever a program finishes, the optimised program finishes too, in the
/// same final machine: the same tape, head, input left and output written.
pub proof fn lemma_optimize_preserves_runs(s: Seq<Op>, m: Machine, fuel: nat)
    requires
        run(s, m, fuel) is Some,
    ensures
        run(optimized(s), m, fuel) == run(s, m, fuel),
{
    let s1 = pass_ops(Pass::CombineIncrements, s);
    let s2 = pass_ops(Pass::CombinePtrIncrements, s1);
    let s3 = pass_ops(Pass::SimplifyLoops, s2);
    let s4 = pass_ops(Pass::CombineSetAndIncrements, s3);
    let s5 = pass_ops(Pass::RemoveDeadLoops, s4);
    lemma_pass_runs_alike(Pass::CombineIncrements, s, m, fuel);
    lemma_pass_runs_alike(Pass::CombinePtrIncrements, s1, m, fuel);
    lemma_pass_runs_alike(Pass::SimplifyLoops, s2, m, fuel);
    lemma_pass_runs_alike(Pass::CombineSetAndIncrements, s3, m, fuel);
    lemma_pass_runs_alike(Pass::RemoveDeadLoops, s4, m, fuel);
    lemma_pass_runs_alike(Pass::RemoveRedundantSets, s5, m, fuel);
}

} // verus!
