use itertools::Itertools;
use vstd::prelude::*;

use crate::bfir::{Instruction, Op, op_of, ops_of, lemma_ops_of, lemma_ops_of_push};
use crate::normal_form::{
    no_dead_loop, no_redundant_set, noop_free, lemma_optimized_has_no_dead_loop_or_redundant_set,
    lemma_optimized_has_no_noops, moves_apart, lemma_optimized_moves_apart,
};
use crate::seqs::reversed;

verus! {

/// A rule for folding two adjacent instructions of one block into one.
#[derive(Clone, Copy, Debug, PartialEq, Eq, Structural)]
pub enum Rule {
    /// Two increments of one cell become one increment by the wrapping sum.
    Increments,
    /// Two head moves become one move by the (wrapping) sum.
    PointerIncrements,
    /// A loop right after the current cell is cleared never runs.
    DeadLoop,
    /// Of two assignments to one cell the later one wins.
    SetThenSet,
    /// An increment after an assignment of one cell folds into the assigned value.
    SetThenIncrement,
    /// An increment before an assignment of one cell is overwritten.
    IncrementThenSet,
    /// Clearing the current cell right after a loop does nothing.
    RedundantSet,
}

/// Whether an instruction is `Set { 0, 0 }`, the clearing of the current cell.
pub open spec fn is_clear(o: Op) -> bool {
    o == Op::SetCell { amount: 0i8, offset: 0isize }
}

/// What `rule` folds `prev` and `cur` into, when it applies to them.
pub open spec fn merge_spec(rule: Rule, prev: Op, cur: Op) -> Option<Op> {
    match rule {
        Rule::Increments => match (prev, cur) {
            (Op::Increment { amount: a, offset: o }, Op::Increment { amount: b, offset: q }) => {
                if o == q {
                    Some(Op::Increment { amount: a.wrapping_add(b), offset: o })
                } else {
                    None
                }
            },
            _ => None,
        },
        Rule::PointerIncrements => match (prev, cur) {
            (Op::PointerIncrement(a), Op::PointerIncrement(b)) => Some(
                Op::PointerIncrement(a.wrapping_add(b)),
            ),
            _ => None,
        },
        Rule::DeadLoop => if is_clear(prev) && cur is Loop {
            Some(prev)
        } else {
            None
        },
        Rule::SetThenSet => match (prev, cur) {
            (Op::SetCell { amount: _, offset: o }, Op::SetCell { amount: b, offset: q }) => {
                if o == q {
                    Some(cur)
                } else {
                    None
                }
            },
            _ => None,
        },
        Rule::SetThenIncrement => match (prev, cur) {
            (Op::SetCell { amount: a, offset: o }, Op::Increment { amount: b, offset: q }) => {
                if o == q {
                    Some(Op::SetCell { amount: a.wrapping_add(b), offset: o })
                } else {
                    None
                }
            },
            _ => None,
        },
        Rule::IncrementThenSet => match (prev, cur) {
            (Op::Increment { amount: _, offset: o }, Op::SetCell { amount: b, offset: q }) => {
                if o == q {
                    Some(cur)
                } else {
                    None
                }
            },
            _ => None,
        },
        Rule::RedundantSet => if prev is Loop && is_clear(cur) {
            Some(prev)
        } else {
            None
        },
    }
}

/// Folding left to right, starting from `acc`: each next element is merged
/// into the running value while `rule` applies, and otherwise the running
/// value is emitted and the element takes its place.
pub open spec fn coalesce_from(rule: Rule, acc: Op, rest: Seq<Op>) -> Seq<Op>
    decreases rest.len(),
{
    if rest.len() == 0 {
        seq![acc]
    } else {
        match merge_spec(rule, acc, rest[0]) {
            Some(m) => coalesce_from(rule, m, rest.drop_first()),
            None => seq![acc] + coalesce_from(rule, rest[0], rest.drop_first()),
        }
    }
}

/// A block with every run of adjacent elements that `rule` folds folded.
pub open spec fn coalesced(rule: Rule, s: Seq<Op>) -> Seq<Op> {
    if s.len() == 0 {
        Seq::empty()
    } else {
        coalesce_from(rule, s[0], s.drop_first())
    }
}

/// Folds `prev` and `cur` with `rule`, or hands both back unchanged.
fn merge(rule: Rule, prev: Instruction, cur: Instruction) -> (r: Result<
    Instruction,
    (Instruction, Instruction),
>)
    ensures
        match merge_spec(rule, op_of(prev), op_of(cur)) {
            Some(m) => r is Ok && op_of(r->Ok_0) == m,
            None => r == Err::<Instruction, (Instruction, Instruction)>((prev, cur)),
        },
{
    match rule {
        Rule::Increments => match (prev, cur) {
            (
                Instruction::Increment { amount: a, offset: o },
                Instruction::Increment { amount: b, offset: q },
            ) if o == q => Ok(Instruction::Increment { amount: a.wrapping_add(b), offset: o }),
            (prev, cur) => Err((prev, cur)),
        },
        Rule::PointerIncrements => match (prev, cur) {
            (Instruction::PointerIncrement(a), Instruction::PointerIncrement(b)) => Ok(
                Instruction::PointerIncrement(a.wrapping_add(b)),
            ),
            (prev, cur) => Err((prev, cur)),
        },
        Rule::DeadLoop => match (prev, cur) {
            (Instruction::SetCell { amount: 0, offset: 0 }, Instruction::Loop(_)) => Ok(
                Instruction::SetCell { amount: 0, offset: 0 },
            ),
            (prev, cur) => Err((prev, cur)),
        },
        Rule::SetThenSet => match (prev, cur) {
            (
                Instruction::SetCell { amount: _, offset: o },
                Instruction::SetCell { amount: b, offset: q },
            ) if o == q => Ok(Instruction::SetCell { amount: b, offset: q }),
            (prev, cur) => Err((prev, cur)),
        },
        Rule::SetThenIncrement => match (prev, cur) {
            (
                Instruction::SetCell { amount: a, offset: o },
                Instruction::Increment { amount: b, offset: q },
            ) if o == q => Ok(Instruction::SetCell { amount: a.wrapping_add(b), offset: o }),
            (prev, cur) => Err((prev, cur)),
        },
        Rule::IncrementThenSet => match (prev, cur) {
            (
                Instruction::Increment { amount: _, offset: o },
                Instruction::SetCell { amount: b, offset: q },
            ) if o == q => Ok(Instruction::SetCell { amount: b, offset: q }),
            (prev, cur) => Err((prev, cur)),
        },
        Rule::RedundantSet => match (prev, cur) {
            (Instruction::Loop(body), Instruction::SetCell { amount: 0, offset: 0 }) => Ok(
                Instruction::Loop(body),
            ),
            (prev, cur) => Err((prev, cur)),
        },
    }
}

/// Relies on `Itertools::coalesce` from itertools: it folds adjacent items
/// left to right with the given closure, emitting the running value whenever
/// the closure hands the pair back, and emitting the last running value at
/// the end. The closure here is the verified `merge`.
#[verifier::external_body]
fn coalesce(instrs: Vec<Instruction>, rule: Rule) -> (r: Vec<Instruction>)
    ensures
        ops_of(r@) == coalesced(rule, ops_of(instrs@)),
{
    instrs.into_iter().coalesce(|prev, cur| merge(rule, prev, cur)).collect()
}


/// One of the rewriting passes; each rewrites every block, loop bodies included.
#[derive(Clone, Copy, Debug, PartialEq, Eq, Structural)]
pub enum Pass {
    CombineIncrements,
    CombinePtrIncrements,
    SimplifyLoops,
    RemoveDeadLoops,
    CombineSetAndIncrements,
    RemoveRedundantSets,
}

/// The body of a loop that only decrements the current cell by one.
pub open spec fn is_decrement_body(b: Seq<Op>) -> bool {
    b == seq![Op::Increment { amount: -1i8, offset: 0isize }]
}

/// An increment by zero (for `Rule::Increments`) or a move by zero
/// (for `Rule::PointerIncrements`).
pub open spec fn is_noop(rule: Rule, o: Op) -> bool {
    match rule {
        Rule::Increments => o is Increment && o->Increment_amount == 0,
        Rule::PointerIncrements => o is PointerIncrement && o->PointerIncrement_0 == 0,
        _ => false,
    }
}

/// A block without the no-op instructions of `rule`, in order.
pub open spec fn drop_noops(rule: Rule, s: Seq<Op>) -> Seq<Op>
    decreases s.len(),
{
    if s.len() == 0 {
        Seq::empty()
    } else if is_noop(rule, s.last()) {
        drop_noops(rule, s.drop_last())
    } else {
        drop_noops(rule, s.drop_last()).push(s.last())
    }
}

/// What pass `p` makes of one instruction of a block: a loop gets its body
/// rewritten by `p` (or, by `SimplifyLoops`, becomes `Set { 0, 0 }` when it
/// only decrements the current cell); anything else stays.
pub open spec fn pass_op(p: Pass, o: Op) -> Op
    decreases o, 0nat,
{
    match o {
        Op::Loop(b) => if p == Pass::SimplifyLoops && is_decrement_body(b) {
            Op::SetCell { amount: 0i8, offset: 0isize }
        } else {
            Op::Loop(pass_ops(p, b))
        },
        _ => o,
    }
}

/// `pass_op` applied to each element of a block.
pub open spec fn each_op(p: Pass, s: Seq<Op>) -> Seq<Op>
    decreases s, 0nat,
{
    if s.len() == 0 {
        Seq::empty()
    } else {
        each_op(p, s.drop_last()).push(pass_op(p, s.last()))
    }
}

/// The rewriting that pass `p` makes at the level of one block, once its
/// loop bodies are done.
pub open spec fn block_rewrite(p: Pass, s: Seq<Op>) -> Seq<Op> {
    match p {
        Pass::CombineIncrements => drop_noops(Rule::Increments, coalesced(Rule::Increments, s)),
        Pass::CombinePtrIncrements => drop_noops(
            Rule::PointerIncrements,
            coalesced(Rule::PointerIncrements, s),
        ),
        Pass::SimplifyLoops => s,
        Pass::RemoveDeadLoops => coalesced(Rule::DeadLoop, s),
        Pass::CombineSetAndIncrements => coalesced(
            Rule::IncrementThenSet,
            coalesced(Rule::SetThenIncrement, coalesced(Rule::SetThenSet, s)),
        ),
        Pass::RemoveRedundantSets => coalesced(Rule::RedundantSet, s),
    }
}

/// The program that pass `p` makes of block `s`.
pub open spec fn pass_ops(p: Pass, s: Seq<Op>) -> Seq<Op>
    decreases s, 1nat,
{
    block_rewrite(p, each_op(p, s))
}

pub proof fn lemma_each_op(p: Pass, s: Seq<Op>)
    ensures
        each_op(p, s).len() == s.len(),
        forall|k: int| 0 <= k < s.len() ==> #[trigger] each_op(p, s)[k] == pass_op(p, s[k]),
    decreases s.len(),
{
    if s.len() > 0 {
        lemma_each_op(p, s.drop_last());
    }
}

/// Whether `x` is a no-op instruction of `rule`.
fn is_noop_instr(rule: Rule, x: &Instruction) -> (r: bool)
    ensures
        r == is_noop(rule, op_of(*x)),
{
    match rule {
        Rule::Increments => matches!(x, Instruction::Increment { amount: 0, offset: _ }),
        Rule::PointerIncrements => matches!(x, Instruction::PointerIncrement(0)),
        _ => false,
    }
}

/// Removes the no-op instructions of `rule` from a block, keeping the order.
fn remove_noops(rule: Rule, instrs: Vec<Instruction>) -> (r: Vec<Instruction>)
    ensures
        ops_of(r@) == drop_noops(rule, ops_of(instrs@)),
{
    let ghost orig = instrs@;
    let n = instrs.len();
    let mut rest = reversed(instrs);
    let mut out: Vec<Instruction> = Vec::new();
    let mut i: usize = 0;
    proof {
        lemma_ops_of(orig);
        assert(ops_of(orig).take(0) =~= Seq::<Op>::empty());
    }
    while rest.len() > 0
        invariant
            n == orig.len(),
            ops_of(orig).len() == n,
            forall|k: int| 0 <= k < n ==> #[trigger] ops_of(orig)[k] == op_of(orig[k]),
            i + rest@.len() == n,
            forall|k: int| 0 <= k < rest@.len() ==> #[trigger] rest@[k] == orig[n - 1 - k],
            ops_of(out@) == drop_noops(rule, ops_of(orig).take(i as int)),
        decreases rest@.len(),
    {
        let x = rest.pop().unwrap();
        proof {
            let t = ops_of(orig).take(i + 1);
            assert(t.drop_last() =~= ops_of(orig).take(i as int));
            assert(t.last() == op_of(x));
        }
        if !is_noop_instr(rule, &x) {
            proof {
                lemma_ops_of_push(out@, x);
            }
            out.push(x);
        }
        i = i + 1;
    }
    proof {
        assert(ops_of(orig).take(n as int) =~= ops_of(orig));
    }
    out
}

/// Whether a loop body only decrements the current cell by one.
fn is_decrement_loop(body: &Vec<Instruction>) -> (r: bool)
    ensures
        r == is_decrement_body(ops_of(body@)),
{
    proof {
        lemma_ops_of(body@);
    }
    if body.len() == 1 {
        let r = matches!(body[0], Instruction::Increment { amount: -1, offset: 0 });
        proof {
            if !r {
                assert(ops_of(body@)[0] != Op::Increment { amount: -1i8, offset: 0isize });
            } else {
                assert(ops_of(body@) =~= seq![Op::Increment { amount: -1i8, offset: 0isize }]);
            }
        }
        r
    } else {
        proof {
            if ops_of(body@) == seq![Op::Increment { amount: -1i8, offset: 0isize }] {
                assert(ops_of(body@).len() == 1);
            }
        }
        false
    }
}

/// What pass `p` makes of one instruction: loop bodies are rewritten by `p`.
fn rewrite_instr(p: Pass, x: Instruction) -> (r: Instruction)
    ensures
        op_of(r) == pass_op(p, op_of(x)),
    decreases x, 0nat,
{
    match x {
        Instruction::Loop(body) => match p {
            Pass::CombineIncrements => Instruction::Loop(combine_increments(body)),
            Pass::CombinePtrIncrements => Instruction::Loop(combine_ptr_increments(body)),
            Pass::SimplifyLoops => {
                if is_decrement_loop(&body) {
                    Instruction::SetCell { amount: 0, offset: 0 }
                } else {
                    Instruction::Loop(simplify_loops(body))
                }
            },
            Pass::RemoveDeadLoops => Instruction::Loop(remove_dead_loops(body)),
            Pass::CombineSetAndIncrements => Instruction::Loop(combine_set_and_increments(body)),
            Pass::RemoveRedundantSets => Instruction::Loop(remove_redundant_sets(body)),
        },
        other => other,
    }
}

/// Applies `rewrite_instr` to each instruction of a block.
fn descend(p: Pass, instrs: Vec<Instruction>) -> (r: Vec<Instruction>)
    ensures
        ops_of(r@) == each_op(p, ops_of(instrs@)),
    decreases instrs, 1nat,
{
    let ghost whole = instrs;
    let ghost orig = instrs@;
    let n = instrs.len();
    let mut rest = reversed(instrs);
    let mut out: Vec<Instruction> = Vec::new();
    let mut i: usize = 0;
    proof {
        lemma_ops_of(orig);
        lemma_each_op(p, ops_of(orig));
    }
    while rest.len() > 0
        invariant
            whole == instrs,
            whole@ == orig,
            n == orig.len(),
            i + rest@.len() == n,
            forall|k: int| 0 <= k < rest@.len() ==> #[trigger] rest@[k] == orig[n - 1 - k],
            out@.len() == i,
            forall|k: int| 0 <= k < i ==> #[trigger] op_of(out@[k]) == pass_op(p, op_of(orig[k])),
        decreases rest@.len(),
    {
        let x = rest.pop().unwrap();
        proof {
            assert(x == orig[i as int]);
            vstd::std_specs::vec::axiom_vec_index_decreases(whole, i as int);
            assert(decreases_to!(whole => x));
        }
        let y = rewrite_instr(p, x);
        out.push(y);
        i = i + 1;
    }
    proof {
        lemma_ops_of(out@);
        assert(ops_of(out@) =~= each_op(p, ops_of(orig)));
    }
    out
}

/// Folds each run of adjacent increments of one cell into a single increment
/// by their wrapping sum, then drops increments by zero; in every block.
pub fn combine_increments(instrs: Vec<Instruction>) -> (r: Vec<Instruction>)
    ensures
        ops_of(r@) == pass_ops(Pass::CombineIncrements, ops_of(instrs@)),
    decreases instrs, 2nat,
{
    let v = descend(Pass::CombineIncrements, instrs);
    let v = coalesce(v, Rule::Increments);
    remove_noops(Rule::Increments, v)
}

/// Folds each run of adjacent head moves into one move by their sum, then
/// drops moves by zero; in every block.
pub fn combine_ptr_increments(instrs: Vec<Instruction>) -> (r: Vec<Instruction>)
    ensures
        ops_of(r@) == pass_ops(Pass::CombinePtrIncrements, ops_of(instrs@)),
    decreases instrs, 2nat,
{
    let v = descend(Pass::CombinePtrIncrements, instrs);
    let v = coalesce(v, Rule::PointerIncrements);
    remove_noops(Rule::PointerIncrements, v)
}

/// Turns each loop whose body only decrements the current cell by one into
/// `Set { 0, 0 }`; in every block.
pub fn simplify_loops(instrs: Vec<Instruction>) -> (r: Vec<Instruction>)
    ensures
        ops_of(r@) == pass_ops(Pass::SimplifyLoops, ops_of(instrs@)),
    decreases instrs, 2nat,
{
    descend(Pass::SimplifyLoops, instrs)
}

/// Drops each loop that follows `Set { 0, 0 }` (directly or after other
/// dropped loops); in every block.
pub fn remove_dead_loops(instrs: Vec<Instruction>) -> (r: Vec<Instruction>)
    ensures
        ops_of(r@) == pass_ops(Pass::RemoveDeadLoops, ops_of(instrs@)),
    decreases instrs, 2nat,
{
    let v = descend(Pass::RemoveDeadLoops, instrs);
    coalesce(v, Rule::DeadLoop)
}

/// Folds assignments and increments of one cell: a later assignment wins
/// over an earlier one, an increment after an assignment folds into it, and
/// an assignment overwrites an increment before it; in every block.
pub fn combine_set_and_increments(instrs: Vec<Instruction>) -> (r: Vec<Instruction>)
    ensures
        ops_of(r@) == pass_ops(Pass::CombineSetAndIncrements, ops_of(instrs@)),
    decreases instrs, 2nat,
{
    let v = descend(Pass::CombineSetAndIncrements, instrs);
    let v = coalesce(v, Rule::SetThenSet);
    let v = coalesce(v, Rule::SetThenIncrement);
    coalesce(v, Rule::IncrementThenSet)
}

/// Drops each `Set { 0, 0 }` that follows a loop (directly or after other
/// dropped ones); in every block.
pub fn remove_redundant_sets(instrs: Vec<Instruction>) -> (r: Vec<Instruction>)
    ensures
        ops_of(r@) == pass_ops(Pass::RemoveRedundantSets, ops_of(instrs@)),
    decreases instrs, 2nat,
{
    let v = descend(Pass::RemoveRedundantSets, instrs);
    coalesce(v, Rule::RedundantSet)
}

/// The passes in their fixed order.
pub open spec fn optimized(s: Seq<Op>) -> Seq<Op> {
    let s = pass_ops(Pass::CombineIncrements, s);
    let s = pass_ops(Pass::CombinePtrIncrements, s);
    let s = pass_ops(Pass::SimplifyLoops, s);
    let s = pass_ops(Pass::CombineSetAndIncrements, s);
    let s = pass_ops(Pass::RemoveDeadLoops, s);
    pass_ops(Pass::RemoveRedundantSets, s)
}

/// Runs every pass once, in order: combining increments, combining head
/// moves, simplifying zeroing loops, combining assignments and increments,
/// removing dead loops, removing redundant assignments.
pub fn optimize(instrs: Vec<Instruction>) -> (r: Vec<Instruction>)
    ensures
        ops_of(r@) == optimized(ops_of(instrs@)),
        no_dead_loop(ops_of(r@)),
        no_redundant_set(ops_of(r@)),
        noop_free(Rule::Increments, ops_of(r@)),
        noop_free(Rule::PointerIncrements, ops_of(r@)),
        moves_apart(ops_of(r@)),
{
    proof {
        lemma_optimized_moves_apart(ops_of(instrs@));
        lemma_optimized_has_no_dead_loop_or_redundant_set(ops_of(instrs@));
        lemma_optimized_has_no_noops(ops_of(instrs@));
    }
    let combined = combine_ptr_increments(combine_increments(instrs));
    let simplified = remove_dead_loops(combine_set_and_increments(simplify_loops(combined)));
    remove_redundant_sets(simplified)
}

} // verus!
