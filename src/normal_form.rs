use vstd::prelude::*;

use crate::bfir::Op;
use crate::optimize::{
    Pass, Rule, is_clear, merge_spec, coalesce_from, coalesced, pass_op, each_op, pass_ops,
    lemma_each_op, optimized, is_noop, drop_noops, block_rewrite, is_decrement_body,
};

verus! {

/// A pair of adjacent instructions where the first clears the current cell
/// and the second is a loop, which then never runs.
pub open spec fn clear_then_loop(a: Op, b: Op) -> bool {
    is_clear(a) && b is Loop
}

/// A pair of adjacent instructions where a loop is followed by clearing the
/// current cell, which a loop leaves zero already.
pub open spec fn loop_then_clear(a: Op, b: Op) -> bool {
    a is Loop && is_clear(b)
}

/// No block, at any depth, holds a loop right after `Set { 0, 0 }`.
pub open spec fn no_dead_loop(s: Seq<Op>) -> bool
    decreases s,
{
    &&& forall|k: int| 0 <= k < s.len() - 1 ==> !clear_then_loop(#[trigger] s[k], s[k + 1])
    &&& forall|k: int|
        0 <= k < s.len() ==> (#[trigger] s[k] is Loop ==> no_dead_loop(s[k]->Loop_0))
}

/// No block, at any depth, holds `Set { 0, 0 }` right after a loop.
pub open spec fn no_redundant_set(s: Seq<Op>) -> bool
    decreases s,
{
    &&& forall|k: int| 0 <= k < s.len() - 1 ==> !loop_then_clear(#[trigger] s[k], s[k + 1])
    &&& forall|k: int|
        0 <= k < s.len() ==> (#[trigger] s[k] is Loop ==> no_redundant_set(s[k]->Loop_0))
}

/// A rule that, where it applies, keeps the first instruction and drops the second.
pub open spec fn is_absorbing(rule: Rule) -> bool {
    rule == Rule::DeadLoop || rule == Rule::RedundantSet
}

proof fn lemma_absorbing_coalesce(rule: Rule, acc: Op, rest: Seq<Op>)
    requires
        is_absorbing(rule),
    ensures
        coalesce_from(rule, acc, rest).len() >= 1,
        coalesce_from(rule, acc, rest)[0] == acc,
        forall|k: int|
            0 <= k < coalesce_from(rule, acc, rest).len() ==> (seq![acc] + rest).contains(
                #[trigger] coalesce_from(rule, acc, rest)[k],
            ),
        forall|k: int|
            0 <= k < coalesce_from(rule, acc, rest).len() - 1 ==> merge_spec(
                rule,
                #[trigger] coalesce_from(rule, acc, rest)[k],
                coalesce_from(rule, acc, rest)[k + 1],
            ) is None,
    decreases rest.len(),
{
    let out = coalesce_from(rule, acc, rest);
    let w = seq![acc] + rest;
    if rest.len() > 0 {
        let tail = rest.drop_first();
        match merge_spec(rule, acc, rest[0]) {
            Some(m) => {
                lemma_absorbing_coalesce(rule, m, tail);
                assert forall|k: int| 0 <= k < out.len() implies w.contains(#[trigger] out[k]) by {
                    assert((seq![m] + tail).contains(out[k]));
                    let j = choose|j: int| 0 <= j < (seq![m] + tail).len() && (seq![m] + tail)[j] == out[k];
                    if j == 0 {
                        assert(w[0] == out[k]);
                    } else {
                        assert(w[j + 1] == out[k]);
                    }
                }
            },
            None => {
                lemma_absorbing_coalesce(rule, rest[0], tail);
                let sub = coalesce_from(rule, rest[0], tail);
                assert(out == seq![acc] + sub);
                assert(seq![rest[0]] + tail =~= rest);
                assert forall|k: int| 0 <= k < out.len() implies w.contains(#[trigger] out[k]) by {
                    if k == 0 {
                        assert(w[0] == out[k]);
                    } else {
                        assert(out[k] == sub[k - 1]);
                        assert(rest.contains(sub[k - 1]));
                        let j = choose|j: int| 0 <= j < rest.len() && rest[j] == sub[k - 1];
                        assert(w[j + 1] == out[k]);
                    }
                }
                assert forall|k: int| 0 <= k < out.len() - 1 implies merge_spec(
                    rule,
                    #[trigger] out[k],
                    out[k + 1],
                ) is None by {
                    if k > 0 {
                        assert(out[k] == sub[k - 1]);
                        assert(out[k + 1] == sub[k]);
                    }
                }
            },
        }
    } else {
        assert forall|k: int| 0 <= k < out.len() implies w.contains(#[trigger] out[k]) by {
            assert(w[0] == out[k]);
        }
    }
}

/// Elements of `coalesced` under an absorbing rule come from the input, and
/// no two adjacent ones are folded by it.
proof fn lemma_absorbing_coalesced(rule: Rule, s: Seq<Op>)
    requires
        is_absorbing(rule),
    ensures
        forall|k: int|
            0 <= k < coalesced(rule, s).len() ==> s.contains(#[trigger] coalesced(rule, s)[k]),
        forall|k: int|
            0 <= k < coalesced(rule, s).len() - 1 ==> merge_spec(
                rule,
                #[trigger] coalesced(rule, s)[k],
                coalesced(rule, s)[k + 1],
            ) is None,
{
    if s.len() > 0 {
        lemma_absorbing_coalesce(rule, s[0], s.drop_first());
        assert(seq![s[0]] + s.drop_first() =~= s);
    }
}

/// After `remove_dead_loops`, no block holds a loop right after `Set { 0, 0 }`.
pub proof fn lemma_remove_dead_loops_clean(s: Seq<Op>)
    ensures
        no_dead_loop(pass_ops(Pass::RemoveDeadLoops, s)),
    decreases s,
{
    let p = Pass::RemoveDeadLoops;
    let t = each_op(p, s);
    lemma_each_op(p, s);
    assert forall|k: int| 0 <= k < t.len() && #[trigger] t[k] is Loop implies no_dead_loop(
        t[k]->Loop_0,
    ) by {
        assert(t[k] == pass_op(p, s[k]));
        lemma_remove_dead_loops_clean(s[k]->Loop_0);
    }
    let out = coalesced(Rule::DeadLoop, t);
    lemma_absorbing_coalesced(Rule::DeadLoop, t);
    assert forall|k: int| 0 <= k < out.len() && #[trigger] out[k] is Loop implies no_dead_loop(
        out[k]->Loop_0,
    ) by {
        assert(t.contains(out[k]));
        let j = choose|j: int| 0 <= j < t.len() && t[j] == out[k];
        assert(t[j] is Loop);
    }
    assert(pass_ops(p, s) == out);
}

/// After `remove_redundant_sets`, no block holds `Set { 0, 0 }` right after a loop.
pub proof fn lemma_remove_redundant_sets_clean(s: Seq<Op>)
    ensures
        no_redundant_set(pass_ops(Pass::RemoveRedundantSets, s)),
    decreases s,
{
    let p = Pass::RemoveRedundantSets;
    let t = each_op(p, s);
    lemma_each_op(p, s);
    assert forall|k: int| 0 <= k < t.len() && #[trigger] t[k] is Loop implies no_redundant_set(
        t[k]->Loop_0,
    ) by {
        assert(t[k] == pass_op(p, s[k]));
        lemma_remove_redundant_sets_clean(s[k]->Loop_0);
    }
    let out = coalesced(Rule::RedundantSet, t);
    lemma_absorbing_coalesced(Rule::RedundantSet, t);
    assert forall|k: int| 0 <= k < out.len() && #[trigger] out[k] is Loop implies no_redundant_set(
        out[k]->Loop_0,
    ) by {
        assert(t.contains(out[k]));
        let j = choose|j: int| 0 <= j < t.len() && t[j] == out[k];
        assert(t[j] is Loop);
    }
    assert(pass_ops(p, s) == out);
}

proof fn lemma_redundant_set_coalesce_keeps(acc: Op, rest: Seq<Op>)
    requires
        forall|k: int|
            0 <= k < rest.len() ==> !clear_then_loop(
                #[trigger] (seq![acc] + rest)[k],
                (seq![acc] + rest)[k + 1],
            ),
    ensures
        forall|k: int|
            0 <= k < coalesce_from(Rule::RedundantSet, acc, rest).len() - 1 ==> !clear_then_loop(
                #[trigger] coalesce_from(Rule::RedundantSet, acc, rest)[k],
                coalesce_from(Rule::RedundantSet, acc, rest)[k + 1],
            ),
    decreases rest.len(),
{
    let rule = Rule::RedundantSet;
    let out = coalesce_from(rule, acc, rest);
    let w = seq![acc] + rest;
    if rest.len() > 0 {
        let tail = rest.drop_first();
        match merge_spec(rule, acc, rest[0]) {
            Some(m) => {
                let w2 = seq![m] + tail;
                assert forall|k: int| 0 <= k < tail.len() implies !clear_then_loop(
                    #[trigger] w2[k],
                    w2[k + 1],
                ) by {
                    if k > 0 {
                        assert(w2[k] == w[k + 1]);
                        assert(w2[k + 1] == w[k + 2]);
                    }
                }
                lemma_redundant_set_coalesce_keeps(m, tail);
                assert(out == coalesce_from(rule, m, tail));
            },
            None => {
                let w2 = seq![rest[0]] + tail;
                assert forall|k: int| 0 <= k < tail.len() implies !clear_then_loop(
                    #[trigger] w2[k],
                    w2[k + 1],
                ) by {
                    assert(w2[k] == w[k + 1]);
                    assert(w2[k + 1] == w[k + 2]);
                }
                lemma_redundant_set_coalesce_keeps(rest[0], tail);
                lemma_absorbing_coalesce(rule, rest[0], tail);
                let sub = coalesce_from(rule, rest[0], tail);
                assert(out == seq![acc] + sub);
                assert forall|k: int| 0 <= k < out.len() - 1 implies !clear_then_loop(
                    #[trigger] out[k],
                    out[k + 1],
                ) by {
                    if k > 0 {
                        assert(out[k] == sub[k - 1]);
                        assert(out[k + 1] == sub[k]);
                    } else {
                        assert(w[0] == acc && w[1] == rest[0]);
                    }
                }
            },
        }
    }
}

/// `remove_redundant_sets` brings back no loop right after `Set { 0, 0 }`.
pub proof fn lemma_remove_redundant_sets_keeps(s: Seq<Op>)
    requires
        no_dead_loop(s),
    ensures
        no_dead_loop(pass_ops(Pass::RemoveRedundantSets, s)),
    decreases s,
{
    let p = Pass::RemoveRedundantSets;
    let rule = Rule::RedundantSet;
    let t = each_op(p, s);
    lemma_each_op(p, s);
    assert forall|k: int| 0 <= k < t.len() && #[trigger] t[k] is Loop implies no_dead_loop(
        t[k]->Loop_0,
    ) by {
        assert(t[k] == pass_op(p, s[k]));
        assert(s[k] is Loop);
        lemma_remove_redundant_sets_keeps(s[k]->Loop_0);
    }
    assert forall|k: int| 0 <= k < t.len() - 1 implies !clear_then_loop(
        #[trigger] t[k],
        t[k + 1],
    ) by {
        assert(t[k] == pass_op(p, s[k]));
        assert(t[k + 1] == pass_op(p, s[k + 1]));
        assert(!clear_then_loop(s[k], s[k + 1]));
    }
    let out = coalesced(rule, t);
    lemma_absorbing_coalesced(rule, t);
    if t.len() > 0 {
        let tail = t.drop_first();
        assert(seq![t[0]] + tail =~= t);
        lemma_redundant_set_coalesce_keeps(t[0], tail);
    }
    assert forall|k: int| 0 <= k < out.len() && #[trigger] out[k] is Loop implies no_dead_loop(
        out[k]->Loop_0,
    ) by {
        assert(t.contains(out[k]));
        let j = choose|j: int| 0 <= j < t.len() && t[j] == out[k];
        assert(t[j] is Loop);
    }
    assert(pass_ops(p, s) == out);
}

/// Every program the optimiser returns holds, in no block at any depth, a
/// loop right after `Set { 0, 0 }`, nor `Set { 0, 0 }` right after a loop.
pub proof fn lemma_optimized_has_no_dead_loop_or_redundant_set(s: Seq<Op>)
    ensures
        no_dead_loop(optimized(s)),
        no_redundant_set(optimized(s)),
{
    let s1 = pass_ops(Pass::CombineIncrements, s);
    let s2 = pass_ops(Pass::CombinePtrIncrements, s1);
    let s3 = pass_ops(Pass::SimplifyLoops, s2);
    let s4 = pass_ops(Pass::CombineSetAndIncrements, s3);
    let s5 = pass_ops(Pass::RemoveDeadLoops, s4);
    lemma_remove_dead_loops_clean(s4);
    lemma_remove_redundant_sets_keeps(s5);
    lemma_remove_redundant_sets_clean(s5);
}

/// No block, at any depth, holds a no-op instruction of `rule`: an increment
/// by zero for `Rule::Increments`, a move by zero for `Rule::PointerIncrements`.
pub open spec fn noop_free(rule: Rule, s: Seq<Op>) -> bool
    decreases s,
{
    forall|k: int|
        0 <= k < s.len() ==> {
            &&& !is_noop(rule, #[trigger] s[k])
            &&& (s[k] is Loop ==> noop_free(rule, s[k]->Loop_0))
        }
}

/// Loop bodies inside `o`, if any, are free of no-ops of `rule`.
pub open spec fn bodies_noop_free(rule: Rule, o: Op) -> bool {
    o is Loop ==> noop_free(rule, o->Loop_0)
}

/// `o` is no no-op of `rule`, nor holds one at any depth.
pub open spec fn op_noop_free(rule: Rule, o: Op) -> bool {
    !is_noop(rule, o) && bodies_noop_free(rule, o)
}

proof fn lemma_coalesce_keeps(rule: Rule, acc: Op, rest: Seq<Op>, pred: spec_fn(Op) -> bool)
    requires
        pred(acc),
        forall|k: int| 0 <= k < rest.len() ==> pred(#[trigger] rest[k]),
        forall|a: Op, b: Op|
            pred(a) && pred(b) && (#[trigger] merge_spec(rule, a, b)) is Some ==> pred(
                merge_spec(rule, a, b)->Some_0,
            ),
    ensures
        forall|k: int|
            0 <= k < coalesce_from(rule, acc, rest).len() ==> pred(
                #[trigger] coalesce_from(rule, acc, rest)[k],
            ),
    decreases rest.len(),
{
    let out = coalesce_from(rule, acc, rest);
    if rest.len() > 0 {
        let tail = rest.drop_first();
        match merge_spec(rule, acc, rest[0]) {
            Some(m) => {
                assert(pred(rest[0]));
                assert(pred(m));
                assert forall|k: int| 0 <= k < tail.len() implies pred(#[trigger] tail[k]) by {
                    assert(tail[k] == rest[k + 1]);
                }
                lemma_coalesce_keeps(rule, m, tail, pred);
                assert(out == coalesce_from(rule, m, tail));
            },
            None => {
                assert forall|k: int| 0 <= k < tail.len() implies pred(#[trigger] tail[k]) by {
                    assert(tail[k] == rest[k + 1]);
                }
                assert(pred(rest[0]));
                lemma_coalesce_keeps(rule, rest[0], tail, pred);
                let sub = coalesce_from(rule, rest[0], tail);
                assert(out == seq![acc] + sub);
                assert forall|k: int| 0 <= k < out.len() implies pred(#[trigger] out[k]) by {
                    if k > 0 {
                        assert(out[k] == sub[k - 1]);
                    }
                }
            },
        }
    } else {
        assert(out == seq![acc]);
    }
}

/// A property of single instructions that every fold of `rule` keeps holds of
/// every element of `coalesced(rule, s)` when it holds of every element of `s`.
proof fn lemma_coalesced_keeps(rule: Rule, s: Seq<Op>, pred: spec_fn(Op) -> bool)
    requires
        forall|k: int| 0 <= k < s.len() ==> pred(#[trigger] s[k]),
        forall|a: Op, b: Op|
            pred(a) && pred(b) && (#[trigger] merge_spec(rule, a, b)) is Some ==> pred(
                merge_spec(rule, a, b)->Some_0,
            ),
    ensures
        forall|k: int| 0 <= k < coalesced(rule, s).len() ==> pred(#[trigger] coalesced(rule, s)[k]),
{
    if s.len() > 0 {
        lemma_coalesce_keeps(rule, s[0], s.drop_first(), pred);
    }
}

/// `drop_noops` keeps only elements of its input, and none of them a no-op.
proof fn lemma_drop_noops(rule: Rule, s: Seq<Op>, pred: spec_fn(Op) -> bool)
    requires
        forall|k: int| 0 <= k < s.len() ==> pred(#[trigger] s[k]),
    ensures
        forall|k: int|
            0 <= k < drop_noops(rule, s).len() ==> pred(#[trigger] drop_noops(rule, s)[k])
                && !is_noop(rule, drop_noops(rule, s)[k]),
    decreases s.len(),
{
    if s.len() > 0 {
        let init = s.drop_last();
        assert forall|k: int| 0 <= k < init.len() implies pred(#[trigger] init[k]) by {
            assert(init[k] == s[k]);
        }
        lemma_drop_noops(rule, init, pred);
        assert(pred(s[s.len() - 1]));
        let d = drop_noops(rule, s);
        let sub = drop_noops(rule, init);
        if !is_noop(rule, s.last()) {
            assert(d == sub.push(s.last()));
            assert forall|k: int| 0 <= k < d.len() implies pred(#[trigger] d[k]) && !is_noop(
                rule,
                d[k],
            ) by {
                if k < sub.len() {
                    assert(d[k] == sub[k]);
                }
            }
        }
    }
}

/// Each pass keeps a program free of the no-ops of `Rule::Increments` and
/// of `Rule::PointerIncrements`; the pass that folds them also removes them.
pub proof fn lemma_pass_noop_free(p: Pass, rule: Rule, s: Seq<Op>)
    requires
        rule == Rule::Increments || rule == Rule::PointerIncrements,
        noop_free(rule, s) || (p == Pass::CombineIncrements && rule == Rule::Increments) || (p
            == Pass::CombinePtrIncrements && rule == Rule::PointerIncrements),
    ensures
        noop_free(rule, pass_ops(p, s)),
    decreases s,
{
    let folds_it = (p == Pass::CombineIncrements && rule == Rule::Increments) || (p
        == Pass::CombinePtrIncrements && rule == Rule::PointerIncrements);
    let t = each_op(p, s);
    lemma_each_op(p, s);
    let bodies = |o: Op| bodies_noop_free(rule, o);
    let whole = |o: Op| op_noop_free(rule, o);
    assert forall|k: int| 0 <= k < t.len() implies bodies(#[trigger] t[k]) && (!folds_it
        ==> whole(t[k])) by {
        assert(t[k] == pass_op(p, s[k]));
        if s[k] is Loop {
            lemma_pass_noop_free(p, rule, s[k]->Loop_0);
        }
    }
    let out = block_rewrite(p, t);
    assert(pass_ops(p, s) == out);
    if folds_it {
        lemma_coalesced_keeps(rule, t, bodies);
        lemma_drop_noops(rule, coalesced(rule, t), bodies);
    } else {
        assert(forall|k: int| 0 <= k < t.len() ==> whole(#[trigger] t[k]));
        match p {
            Pass::CombineIncrements => {
                lemma_coalesced_keeps(Rule::Increments, t, whole);
                lemma_drop_noops(Rule::Increments, coalesced(Rule::Increments, t), whole);
            },
            Pass::CombinePtrIncrements => {
                lemma_coalesced_keeps(Rule::PointerIncrements, t, whole);
                lemma_drop_noops(
                    Rule::PointerIncrements,
                    coalesced(Rule::PointerIncrements, t),
                    whole,
                );
            },
            Pass::SimplifyLoops => {},
            Pass::RemoveDeadLoops => {
                lemma_coalesced_keeps(Rule::DeadLoop, t, whole);
            },
            Pass::CombineSetAndIncrements => {
                let t1 = coalesced(Rule::SetThenSet, t);
                let t2 = coalesced(Rule::SetThenIncrement, t1);
                lemma_coalesced_keeps(Rule::SetThenSet, t, whole);
                lemma_coalesced_keeps(Rule::SetThenIncrement, t1, whole);
                lemma_coalesced_keeps(Rule::IncrementThenSet, t2, whole);
            },
            Pass::RemoveRedundantSets => {
                lemma_coalesced_keeps(Rule::RedundantSet, t, whole);
            },
        }
    }
}

/// No block of a program the optimiser returns, at any depth, holds an
/// increment by zero or a head move by zero.
pub proof fn lemma_optimized_has_no_noops(s: Seq<Op>)
    ensures
        noop_free(Rule::Increments, optimized(s)),
        noop_free(Rule::PointerIncrements, optimized(s)),
{
    let s1 = pass_ops(Pass::CombineIncrements, s);
    let s2 = pass_ops(Pass::CombinePtrIncrements, s1);
    let s3 = pass_ops(Pass::SimplifyLoops, s2);
    let s4 = pass_ops(Pass::CombineSetAndIncrements, s3);
    let s5 = pass_ops(Pass::RemoveDeadLoops, s4);
    let inc = Rule::Increments;
    let ptr = Rule::PointerIncrements;
    lemma_pass_noop_free(Pass::CombineIncrements, inc, s);
    lemma_pass_noop_free(Pass::CombinePtrIncrements, inc, s1);
    lemma_pass_noop_free(Pass::CombinePtrIncrements, ptr, s1);
    lemma_pass_noop_free(Pass::SimplifyLoops, inc, s2);
    lemma_pass_noop_free(Pass::SimplifyLoops, ptr, s2);
    lemma_pass_noop_free(Pass::CombineSetAndIncrements, inc, s3);
    lemma_pass_noop_free(Pass::CombineSetAndIncrements, ptr, s3);
    lemma_pass_noop_free(Pass::RemoveDeadLoops, inc, s4);
    lemma_pass_noop_free(Pass::RemoveDeadLoops, ptr, s4);
    lemma_pass_noop_free(Pass::RemoveRedundantSets, inc, s5);
    lemma_pass_noop_free(Pass::RemoveRedundantSets, ptr, s5);
}

/// A program that no pass changes: in no block, at any depth, do two adjacent
/// instructions fold under any rule, is there an increment or a move by zero,
/// or a loop whose body only decrements the current cell by one.
pub open spec fn in_normal_form(s: Seq<Op>) -> bool
    decreases s,
{
    &&& forall|k: int, rule: Rule|
        0 <= k < s.len() - 1 ==> (#[trigger] merge_spec(rule, s[k], s[k + 1])) is None
    &&& forall|k: int|
        0 <= k < s.len() ==> {
            &&& !is_noop(Rule::Increments, #[trigger] s[k])
            &&& !is_noop(Rule::PointerIncrements, s[k])
            &&& (s[k] is Loop ==> !is_decrement_body(s[k]->Loop_0) && in_normal_form(
                s[k]->Loop_0,
            ))
        }
}

proof fn lemma_coalesce_unchanged(rule: Rule, acc: Op, rest: Seq<Op>)
    requires
        forall|k: int|
            0 <= k < rest.len() ==> (#[trigger] merge_spec(
                rule,
                (seq![acc] + rest)[k],
                (seq![acc] + rest)[k + 1],
            )) is None,
    ensures
        coalesce_from(rule, acc, rest) == seq![acc] + rest,
    decreases rest.len(),
{
    if rest.len() > 0 {
        let w = seq![acc] + rest;
        let tail = rest.drop_first();
        assert(merge_spec(rule, w[0], w[1]) is None);
        assert forall|k: int| 0 <= k < tail.len() implies (#[trigger] merge_spec(
            rule,
            (seq![rest[0]] + tail)[k],
            (seq![rest[0]] + tail)[k + 1],
        )) is None by {
            let j = k + 1;
            assert((seq![rest[0]] + tail)[k] == w[j]);
            assert((seq![rest[0]] + tail)[k + 1] == w[j + 1]);
            assert(merge_spec(rule, w[j], w[j + 1]) is None);
        }
        lemma_coalesce_unchanged(rule, rest[0], tail);
        assert(seq![rest[0]] + tail =~= rest);
        assert(seq![acc] + (seq![rest[0]] + tail) =~= w);
    } else {
        assert(seq![acc] + rest =~= seq![acc]);
    }
}

proof fn lemma_coalesced_unchanged(rule: Rule, s: Seq<Op>)
    requires
        forall|k: int| 0 <= k < s.len() - 1 ==> (#[trigger] merge_spec(rule, s[k], s[k + 1])) is None,
    ensures
        coalesced(rule, s) == s,
{
    if s.len() > 0 {
        let tail = s.drop_first();
        assert(seq![s[0]] + tail =~= s);
        assert forall|k: int| 0 <= k < tail.len() implies (#[trigger] merge_spec(
            rule,
            (seq![s[0]] + tail)[k],
            (seq![s[0]] + tail)[k + 1],
        )) is None by {
            assert(merge_spec(rule, s[k], s[k + 1]) is None);
        }
        lemma_coalesce_unchanged(rule, s[0], tail);
    } else {
        assert(coalesced(rule, s) =~= s);
    }
}

proof fn lemma_drop_noops_unchanged(rule: Rule, s: Seq<Op>)
    requires
        forall|k: int| 0 <= k < s.len() ==> !is_noop(rule, #[trigger] s[k]),
    ensures
        drop_noops(rule, s) == s,
    decreases s.len(),
{
    if s.len() > 0 {
        let init = s.drop_last();
        assert forall|k: int| 0 <= k < init.len() implies !is_noop(rule, #[trigger] init[k]) by {
            assert(init[k] == s[k]);
        }
        lemma_drop_noops_unchanged(rule, init);
        assert(!is_noop(rule, s[s.len() - 1]));
        assert(init.push(s.last()) =~= s);
    } else {
        assert(drop_noops(rule, s) =~= s);
    }
}

/// No pass changes a program in normal form.
pub proof fn lemma_pass_keeps_normal_form(p: Pass, s: Seq<Op>)
    requires
        in_normal_form(s),
    ensures
        pass_ops(p, s) == s,
    decreases s,
{
    let t = each_op(p, s);
    lemma_each_op(p, s);
    assert forall|k: int| 0 <= k < s.len() implies #[trigger] t[k] == s[k] by {
        assert(t[k] == pass_op(p, s[k]));
        if s[k] is Loop {
            lemma_pass_keeps_normal_form(p, s[k]->Loop_0);
        }
    }
    assert(t =~= s);
    assert forall|rule: Rule| true implies coalesced(rule, s) == s by {
        assert forall|k: int| 0 <= k < s.len() - 1 implies (#[trigger] merge_spec(
            rule,
            s[k],
            s[k + 1],
        )) is None by {}
        lemma_coalesced_unchanged(rule, s);
    }
    assert forall|rule: Rule|
        rule == Rule::Increments || rule == Rule::PointerIncrements implies drop_noops(rule, s)
        == s by {
        assert forall|k: int| 0 <= k < s.len() implies !is_noop(rule, #[trigger] s[k]) by {}
        lemma_drop_noops_unchanged(rule, s);
    }
    assert(coalesced(Rule::Increments, s) == s);
    assert(coalesced(Rule::PointerIncrements, s) == s);
    assert(coalesced(Rule::SetThenSet, s) == s);
    assert(coalesced(Rule::SetThenIncrement, s) == s);
    assert(coalesced(Rule::IncrementThenSet, s) == s);
    assert(drop_noops(Rule::Increments, s) == s);
    assert(drop_noops(Rule::PointerIncrements, s) == s);
    assert(block_rewrite(p, s) == s);
}

/// The optimiser returns a program in normal form unchanged.
pub proof fn lemma_normal_form_is_fixed_point(s: Seq<Op>)
    requires
        in_normal_form(s),
    ensures
        optimized(s) == s,
{
    lemma_pass_keeps_normal_form(Pass::CombineIncrements, s);
    lemma_pass_keeps_normal_form(Pass::CombinePtrIncrements, s);
    lemma_pass_keeps_normal_form(Pass::SimplifyLoops, s);
    lemma_pass_keeps_normal_form(Pass::CombineSetAndIncrements, s);
    lemma_pass_keeps_normal_form(Pass::RemoveDeadLoops, s);
    lemma_pass_keeps_normal_form(Pass::RemoveRedundantSets, s);
}

/// Optimising twice gives what optimising once gives, for every program
/// whose optimised form is in normal form.
pub proof fn lemma_optimize_idempotent(s: Seq<Op>)
    requires
        in_normal_form(optimized(s)),
    ensures
        optimized(optimized(s)) == optimized(s),
{
    lemma_normal_form_is_fixed_point(optimized(s));
}

/// No block, at any depth, holds two adjacent head moves.
pub open spec fn moves_apart(s: Seq<Op>) -> bool
    decreases s,
{
    &&& forall|k: int|
        0 <= k < s.len() - 1 ==> !(#[trigger] s[k] is PointerIncrement && s[k + 1] is PointerIncrement)
    &&& forall|k: int|
        0 <= k < s.len() ==> (#[trigger] s[k] is Loop ==> moves_apart(s[k]->Loop_0))
}

/// No two adjacent elements of `s` are head moves.
pub open spec fn top_moves_apart(s: Seq<Op>) -> bool {
    forall|k: int|
        0 <= k < s.len() - 1 ==> !(#[trigger] s[k] is PointerIncrement && s[k + 1] is PointerIncrement)
}

proof fn lemma_coalesce_moves_apart(rule: Rule, acc: Op, rest: Seq<Op>)
    requires
        rule == Rule::PointerIncrements || top_moves_apart(seq![acc] + rest),
    ensures
        coalesce_from(rule, acc, rest).len() >= 1,
        (coalesce_from(rule, acc, rest)[0] is PointerIncrement) == (acc is PointerIncrement),
        top_moves_apart(coalesce_from(rule, acc, rest)),
    decreases rest.len(),
{
    let out = coalesce_from(rule, acc, rest);
    let w = seq![acc] + rest;
    if rest.len() > 0 {
        let tail = rest.drop_first();
        match merge_spec(rule, acc, rest[0]) {
            Some(m) => {
                let w2 = seq![m] + tail;
                if rule != Rule::PointerIncrements {
                    assert forall|k: int| 0 <= k < w2.len() - 1 implies !(
                    #[trigger] w2[k] is PointerIncrement && w2[k + 1] is PointerIncrement) by {
                        if k > 0 {
                            let j = k + 1;
                            assert(w2[k] == w[j]);
                            assert(w2[k + 1] == w[j + 1]);
                        }
                    }
                }
                lemma_coalesce_moves_apart(rule, m, tail);
                assert(out == coalesce_from(rule, m, tail));
            },
            None => {
                let w2 = seq![rest[0]] + tail;
                assert(w2 =~= rest);
                if rule != Rule::PointerIncrements {
                    assert forall|k: int| 0 <= k < w2.len() - 1 implies !(
                    #[trigger] w2[k] is PointerIncrement && w2[k + 1] is PointerIncrement) by {
                        let j = k + 1;
                        assert(w2[k] == w[j]);
                        assert(w2[k + 1] == w[j + 1]);
                    }
                    assert(!(w[0] is PointerIncrement && w[1] is PointerIncrement));
                }
                lemma_coalesce_moves_apart(rule, rest[0], tail);
                let sub = coalesce_from(rule, rest[0], tail);
                assert(out == seq![acc] + sub);
                assert forall|k: int| 0 <= k < out.len() - 1 implies !(
                #[trigger] out[k] is PointerIncrement && out[k + 1] is PointerIncrement) by {
                    if k > 0 {
                        assert(out[k] == sub[k - 1]);
                        assert(out[k + 1] == sub[k]);
                    }
                }
            },
        }
    } else {
        assert(out == seq![acc]);
    }
}

proof fn lemma_drop_noop_moves_apart(s: Seq<Op>)
    requires
        top_moves_apart(s),
    ensures
        top_moves_apart(drop_noops(Rule::PointerIncrements, s)),
        drop_noops(Rule::PointerIncrements, s).len() > 0 && drop_noops(
            Rule::PointerIncrements,
            s,
        ).last() is PointerIncrement ==> s.len() > 0 && s.last() is PointerIncrement,
    decreases s.len(),
{
    let rule = Rule::PointerIncrements;
    if s.len() > 0 {
        let init = s.drop_last();
        assert forall|k: int| 0 <= k < init.len() - 1 implies !(
        #[trigger] init[k] is PointerIncrement && init[k + 1] is PointerIncrement) by {
            assert(init[k] == s[k]);
            assert(init[k + 1] == s[k + 1]);
        }
        lemma_drop_noop_moves_apart(init);
        let d = drop_noops(rule, s);
        let sub = drop_noops(rule, init);
        if init.len() > 0 {
            let j = init.len() - 1;
            assert(!(s[j] is PointerIncrement && s[j + 1] is PointerIncrement));
        }
        if !is_noop(rule, s.last()) {
            assert(d == sub.push(s.last()));
            assert forall|k: int| 0 <= k < d.len() - 1 implies !(
            #[trigger] d[k] is PointerIncrement && d[k + 1] is PointerIncrement) by {
                assert(d[k] == sub[k]);
                if k < sub.len() - 1 {
                    assert(d[k + 1] == sub[k + 1]);
                }
            }
        }
    }
}

/// After `combine_ptr_increments`, and after every pass that follows it in the
/// optimiser, no block at any depth holds two adjacent head moves.
pub proof fn lemma_pass_moves_apart(p: Pass, s: Seq<Op>)
    requires
        p != Pass::CombineIncrements,
        moves_apart(s) || p == Pass::CombinePtrIncrements,
    ensures
        moves_apart(pass_ops(p, s)),
    decreases s,
{
    let t = each_op(p, s);
    lemma_each_op(p, s);
    let bodies = |o: Op| o is Loop ==> moves_apart(o->Loop_0);
    assert forall|k: int| 0 <= k < t.len() implies bodies(#[trigger] t[k]) by {
        assert(t[k] == pass_op(p, s[k]));
        if s[k] is Loop {
            lemma_pass_moves_apart(p, s[k]->Loop_0);
        }
    }
    if p != Pass::CombinePtrIncrements {
        assert forall|k: int| 0 <= k < t.len() - 1 implies !(#[trigger] t[k] is PointerIncrement
            && t[k + 1] is PointerIncrement) by {
            assert(t[k] == pass_op(p, s[k]));
            assert(t[k + 1] == pass_op(p, s[k + 1]));
        }
    }
    let out = block_rewrite(p, t);
    assert(pass_ops(p, s) == out);
    match p {
        Pass::CombinePtrIncrements => {
            let rule = Rule::PointerIncrements;
            let c = coalesced(rule, t);
            if t.len() > 0 {
                lemma_coalesce_moves_apart(rule, t[0], t.drop_first());
            }
            lemma_coalesced_keeps(rule, t, bodies);
            lemma_drop_noops(rule, c, bodies);
            lemma_drop_noop_moves_apart(c);
        },
        Pass::SimplifyLoops => {},
        Pass::RemoveDeadLoops => {
            let rule = Rule::DeadLoop;
            if t.len() > 0 {
                assert(seq![t[0]] + t.drop_first() =~= t);
                lemma_coalesce_moves_apart(rule, t[0], t.drop_first());
            }
            lemma_coalesced_keeps(rule, t, bodies);
        },
        Pass::CombineSetAndIncrements => {
            let t1 = coalesced(Rule::SetThenSet, t);
            let t2 = coalesced(Rule::SetThenIncrement, t1);
            if t.len() > 0 {
                assert(seq![t[0]] + t.drop_first() =~= t);
                lemma_coalesce_moves_apart(Rule::SetThenSet, t[0], t.drop_first());
            }
            if t1.len() > 0 {
                assert(seq![t1[0]] + t1.drop_first() =~= t1);
                lemma_coalesce_moves_apart(Rule::SetThenIncrement, t1[0], t1.drop_first());
            }
            if t2.len() > 0 {
                assert(seq![t2[0]] + t2.drop_first() =~= t2);
                lemma_coalesce_moves_apart(Rule::IncrementThenSet, t2[0], t2.drop_first());
            }
            lemma_coalesced_keeps(Rule::SetThenSet, t, bodies);
            lemma_coalesced_keeps(Rule::SetThenIncrement, t1, bodies);
            lemma_coalesced_keeps(Rule::IncrementThenSet, t2, bodies);
        },
        Pass::RemoveRedundantSets => {
            let rule = Rule::RedundantSet;
            if t.len() > 0 {
                assert(seq![t[0]] + t.drop_first() =~= t);
                lemma_coalesce_moves_apart(rule, t[0], t.drop_first());
            }
            lemma_coalesced_keeps(rule, t, bodies);
        },
        Pass::CombineIncrements => {},
    }
}

/// No block of a program the optimiser returns, at any depth, holds two
/// adjacent head moves.
pub proof fn lemma_optimized_moves_apart(s: Seq<Op>)
    ensures
        moves_apart(optimized(s)),
{
    let s1 = pass_ops(Pass::CombineIncrements, s);
    let s2 = pass_ops(Pass::CombinePtrIncrements, s1);
    let s3 = pass_ops(Pass::SimplifyLoops, s2);
    let s4 = pass_ops(Pass::CombineSetAndIncrements, s3);
    let s5 = pass_ops(Pass::RemoveDeadLoops, s4);
    lemma_pass_moves_apart(Pass::CombinePtrIncrements, s1);
    lemma_pass_moves_apart(Pass::SimplifyLoops, s2);
    lemma_pass_moves_apart(Pass::CombineSetAndIncrements, s3);
    lemma_pass_moves_apart(Pass::RemoveDeadLoops, s4);
    lemma_pass_moves_apart(Pass::RemoveRedundantSets, s5);
}

} // verus!
