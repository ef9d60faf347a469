use std::collections::HashMap;
use vstd::prelude::*;
use vstd::string::StringExecFns;
use vstd::std_specs::hash::spec_hash_map_iter;
use vstd::std_specs::iter::IteratorSpec;

use crate::bfir::{Cell, Instruction, Op, op_of, ops_of, lemma_ops_of};

verus! {

/// The text of one decimal digit.
pub open spec fn digit_text(d: nat) -> Seq<char> {
    if d == 0 {
        "0"@
    } else if d == 1 {
        "1"@
    } else if d == 2 {
        "2"@
    } else if d == 3 {
        "3"@
    } else if d == 4 {
        "4"@
    } else if d == 5 {
        "5"@
    } else if d == 6 {
        "6"@
    } else if d == 7 {
        "7"@
    } else if d == 8 {
        "8"@
    } else {
        "9"@
    }
}

/// The decimal digits of `n`, most significant first, without leading zeros.
pub open spec fn digits_text(n: nat) -> Seq<char>
    decreases n,
{
    if n < 10 {
        digit_text(n)
    } else {
        digits_text(n / 10) + digit_text(n % 10)
    }
}

/// The decimal text of an integer, with a leading `-` when it is negative.
pub open spec fn decimal_text(i: int) -> Seq<char> {
    if i < 0 {
        "-"@ + digits_text((-i) as nat)
    } else {
        digits_text(i as nat)
    }
}

/// Entries listed with strictly increasing offsets.
pub open spec fn offsets_increasing(es: Seq<(isize, i8)>) -> bool {
    forall|i: int, j: int| 0 <= i < j < es.len() ==> es[i].0 < es[j].0
}

/// `es` lists the entries of `m`, each once, in increasing offset order.
pub open spec fn lists_map(es: Seq<(isize, i8)>, m: Map<isize, i8>) -> bool {
    &&& offsets_increasing(es)
    &&& forall|i: int|
        0 <= i < es.len() ==> m.contains_key(#[trigger] es[i].0) && m[es[i].0] == es[i].1
    &&& forall|k: isize| m.contains_key(k) ==> exists|i: int| 0 <= i < es.len() && #[trigger] es[i].0 == k
}

/// The entries of `m` in increasing offset order.
pub open spec fn sorted_entries(m: Map<isize, i8>) -> Seq<(isize, i8)> {
    choose|es: Seq<(isize, i8)>| lists_map(es, m)
}

/// At most one sequence lists the entries of a map in increasing offset order.
pub proof fn lemma_lists_map_unique(a: Seq<(isize, i8)>, b: Seq<(isize, i8)>, m: Map<isize, i8>)
    requires
        lists_map(a, m),
        lists_map(b, m),
    ensures
        a == b,
    decreases a.len(),
{
    if a.len() == 0 {
        if b.len() > 0 {
            assert(m.contains_key(b[0].0));
        }
        assert(a =~= b);
    } else {
        let k = a[0].0;
        assert(m.contains_key(k));
        let j = choose|j: int| 0 <= j < b.len() && #[trigger] b[j].0 == k;
        let k2 = b[0].0;
        assert(m.contains_key(k2));
        let i = choose|i: int| 0 <= i < a.len() && #[trigger] a[i].0 == k2;
        assert(k2 <= k) by {
            if j > 0 {
                assert(b[0].0 < b[j].0);
            }
        }
        assert(k <= k2) by {
            if i > 0 {
                assert(a[0].0 < a[i].0);
            }
        }
        assert(a[0] == b[0]);
        let m2 = m.remove(k);
        let ta = a.drop_first();
        let tb = b.drop_first();
        assert forall|x: int| 0 <= x < ta.len() implies m2.contains_key(#[trigger] ta[x].0)
            && m2[ta[x].0] == ta[x].1 by {
            assert(ta[x] == a[x + 1]);
            assert(a[0].0 < a[x + 1].0);
        }
        assert forall|x: int| 0 <= x < tb.len() implies m2.contains_key(#[trigger] tb[x].0)
            && m2[tb[x].0] == tb[x].1 by {
            assert(tb[x] == b[x + 1]);
            assert(b[0].0 < b[x + 1].0);
        }
        assert forall|q: isize| m2.contains_key(q) implies exists|x: int|
            0 <= x < ta.len() && #[trigger] ta[x].0 == q by {
            let y = choose|y: int| 0 <= y < a.len() && #[trigger] a[y].0 == q;
            assert(y != 0);
            assert(ta[y - 1].0 == q);
        }
        assert forall|q: isize| m2.contains_key(q) implies exists|x: int|
            0 <= x < tb.len() && #[trigger] tb[x].0 == q by {
            let y = choose|y: int| 0 <= y < b.len() && #[trigger] b[y].0 == q;
            assert(y != 0);
            assert(tb[y - 1].0 == q);
        }
        assert(offsets_increasing(ta)) by {
            assert forall|x: int, y: int| 0 <= x < y < ta.len() implies ta[x].0 < ta[y].0 by {
                assert(ta[x] == a[x + 1] && ta[y] == a[y + 1]);
            }
        }
        assert(offsets_increasing(tb)) by {
            assert forall|x: int, y: int| 0 <= x < y < tb.len() implies tb[x].0 < tb[y].0 by {
                assert(tb[x] == b[x + 1] && tb[y] == b[y + 1]);
            }
        }
        lemma_lists_map_unique(ta, tb, m2);
        assert(a =~= seq![a[0]] + ta);
        assert(b =~= seq![b[0]] + tb);
    }
}

/// The entries of `m`, in increasing offset order.
fn entries_in_order(m: &HashMap<isize, Cell>) -> (r: Vec<(isize, Cell)>)
    ensures
        lists_map(r@, m@),
{
    broadcast use vstd::std_specs::hash::group_hash_axioms;

    let mut out: Vec<(isize, Cell)> = Vec::new();
    let ghost s = spec_hash_map_iter(m).remaining();
    let ghost mut n: int = 0;
    for e in it: m.iter()
        invariant
            offsets_increasing(out@),
            forall|i: int|
                0 <= i < out@.len() ==> m@.contains_key(#[trigger] out@[i].0) && m@[out@[i].0]
                    == out@[i].1,
            it.seq() == s,
            n == it.index(),
            forall|j: int|
                #![trigger s[j]]
                0 <= j < n ==> exists|i: int| 0 <= i < out@.len() && #[trigger] out@[i].0 == *s[j].0,
    {
        let k = *e.0;
        let v = *e.1;
        let ghost idx = it.index();
        assert(e == s[idx]);
        assert(m@.contains_key(k) && m@[k] == v);
        let mut p: usize = 0;
        while p < out.len() && out[p].0 < k
            invariant
                p <= out@.len(),
                forall|q: int| 0 <= q < p ==> #[trigger] out@[q].0 < k,
            decreases out@.len() - p,
        {
            p = p + 1;
        }
        if p < out.len() && out[p].0 == k {
            assert(out@[p as int].0 == *s[idx].0);
        } else {
            let ghost before = out@;
            out.insert(p, (k, v));
            assert(out@ == before.insert(p as int, (k, v)));
            assert forall|x: int, y: int| 0 <= x < y < out@.len() implies out@[x].0 < out@[y].0 by {
                if y < p {
                    assert(out@[x] == before[x] && out@[y] == before[y]);
                } else if y == p {
                    assert(out@[x] == before[x]);
                } else if x < p {
                    assert(out@[x] == before[x] && out@[y] == before[y - 1]);
                    assert(before[p as int].0 >= k);
                    if y - 1 > p {
                        assert(before[p as int].0 < before[y - 1].0);
                    }
                } else if x == p {
                    assert(out@[y] == before[y - 1]);
                    assert(before[p as int].0 > k);
                    if y - 1 > p {
                        assert(before[p as int].0 < before[y - 1].0);
                    }
                } else {
                    assert(out@[x] == before[x - 1] && out@[y] == before[y - 1]);
                }
            }
            assert forall|i: int| 0 <= i < out@.len() implies m@.contains_key(
                #[trigger] out@[i].0,
            ) && m@[out@[i].0] == out@[i].1 by {
                if i < p {
                    assert(out@[i] == before[i]);
                } else if i > p {
                    assert(out@[i] == before[i - 1]);
                }
            }
            assert forall|j: int| #![trigger s[j]] 0 <= j < idx + 1 implies exists|i: int|
                0 <= i < out@.len() && #[trigger] out@[i].0 == *s[j].0 by {
                if j < idx {
                    let i = choose|i: int| 0 <= i < before.len() && #[trigger] before[i].0 == *s[j].0;
                    if i < p {
                        assert(out@[i] == before[i]);
                    } else {
                        assert(out@[i + 1] == before[i]);
                    }
                } else {
                    assert(out@[p as int].0 == k);
                }
            }
        }
        proof {
            n = n + 1;
        }
    }
    assert(n == s.len());
    assert forall|k: isize| m@.contains_key(k) implies exists|i: int|
        0 <= i < out@.len() && #[trigger] out@[i].0 == k by {
        assert(s.contains((&k, &m@[k])));
        let j = choose|j: int| 0 <= j < s.len() && s[j] == (&k, &m@[k]);
        assert(*s[j].0 == k);
    }
    out
}

/// The text of one entry of a `MultiplyMove` map: `offset: factor`.
pub open spec fn entry_text(e: (isize, i8)) -> Seq<char> {
    decimal_text(e.0 as int) + ": "@ + decimal_text(e.1 as int)
}

/// The texts of the entries, separated by `, `.
pub open spec fn entries_text(es: Seq<(isize, i8)>) -> Seq<char>
    decreases es.len(),
{
    if es.len() == 0 {
        Seq::empty()
    } else if es.len() == 1 {
        entry_text(es[0])
    } else {
        entries_text(es.drop_last()) + ", "@ + entry_text(es.last())
    }
}

/// The display text of an instruction whose lines all start with `indent`:
/// a loop is the word `Loop`, then each instruction of its body on a line of
/// its own, indented by two more spaces; any other instruction is its name
/// with its fields, and a `MultiplyMove` lists its entries in braces in
/// increasing offset order.
pub open spec fn op_text(o: Op, indent: Seq<char>) -> Seq<char>
    decreases o, 1nat,
{
    indent + match o {
        Op::Increment { amount, offset } => "Increment { amount: "@ + decimal_text(amount as int)
            + ", offset: "@ + decimal_text(offset as int) + " }"@,
        Op::PointerIncrement(a) => "PointerIncrement("@ + decimal_text(a as int) + ")"@,
        Op::Read => "Read"@,
        Op::Write => "Write"@,
        Op::Loop(b) => "Loop"@ + body_text(b, indent + "  "@),
        Op::SetCell { amount, offset } => "SetCell { amount: "@ + decimal_text(amount as int)
            + ", offset: "@ + decimal_text(offset as int) + " }"@,
        Op::MultiplyMove(m) => "MultiplyMove({"@ + entries_text(sorted_entries(m)) + "})"@,
    }
}

/// Each instruction of a loop body on a new line.
pub open spec fn body_text(b: Seq<Op>, indent: Seq<char>) -> Seq<char>
    decreases b, 0nat,
{
    if b.len() == 0 {
        Seq::empty()
    } else {
        body_text(b.drop_last(), indent) + "\n"@ + op_text(b.last(), indent)
    }
}

/// Appends the decimal digits of `n`.
fn append_digits(out: &mut String, n: u128)
    ensures
        final(out)@ == old(out)@ + digits_text(n as nat),
    decreases n,
{
    if n >= 10 {
        append_digits(out, n / 10);
    }
    let d = n % 10;
    let text = if d == 0 {
        "0"
    } else if d == 1 {
        "1"
    } else if d == 2 {
        "2"
    } else if d == 3 {
        "3"
    } else if d == 4 {
        "4"
    } else if d == 5 {
        "5"
    } else if d == 6 {
        "6"
    } else if d == 7 {
        "7"
    } else if d == 8 {
        "8"
    } else {
        "9"
    };
    out.append(text);
    assert(final(out)@ =~= old(out)@ + digits_text(n as nat));
}

/// Appends the decimal text of `v`.
fn append_decimal(out: &mut String, v: i128)
    requires
        v > i128::MIN,
    ensures
        final(out)@ == old(out)@ + decimal_text(v as int),
{
    if v < 0 {
        out.append("-");
        append_digits(out, (0 - v) as u128);
        assert(final(out)@ =~= old(out)@ + decimal_text(v as int));
    } else {
        append_digits(out, v as u128);
    }
}

/// Appends the display text of `instr`, each of its lines starting with `indent`.
pub fn fmt_with_indent(instr: &Instruction, indent: &str, out: &mut String)
    ensures
        final(out)@ == old(out)@ + op_text(op_of(*instr), indent@),
    decreases instr,
{
    let ghost start = out@;
    out.append(indent);
    match instr {
        Instruction::Increment { amount, offset } => {
            out.append("Increment { amount: ");
            append_decimal(out, *amount as i128);
            out.append(", offset: ");
            append_decimal(out, *offset as i128);
            out.append(" }");
        },
        Instruction::PointerIncrement(a) => {
            out.append("PointerIncrement(");
            append_decimal(out, *a as i128);
            out.append(")");
        },
        Instruction::Read => {
            out.append("Read");
        },
        Instruction::Write => {
            out.append("Write");
        },
        Instruction::Loop(body) => {
            out.append("Loop");
            let mut inner = String::from_str(indent);
            inner.append("  ");
            let ghost b = ops_of(body@);
            proof {
                lemma_ops_of(body@);
            }
            let mut i: usize = 0;
            while i < body.len()
                invariant
                    i <= body@.len(),
                    *instr == Instruction::Loop(*body),
                    b == ops_of(body@),
                    b.len() == body@.len(),
                    forall|k: int| 0 <= k < body@.len() ==> #[trigger] b[k] == op_of(body@[k]),
                    inner@ == indent@ + "  "@,
                    out@ == start + indent@ + "Loop"@ + body_text(
                        b.take(i as int),
                        inner@,
                    ),
                decreases body@.len() - i,
            {
                proof {
                    vstd::std_specs::vec::axiom_vec_index_decreases(*body, i as int);
                    assert(decreases_to!(*instr => body[i as int]));
                }
                let ghost before = out@;
                out.append("\n");
                fmt_with_indent(&body[i], inner.as_str(), out);
                proof {
                    let t = b.take(i + 1);
                    assert(t.drop_last() =~= b.take(i as int));
                    assert(op_of(*instr) == Op::Loop(b));
                    assert(out@ =~= start + indent@ + "Loop"@ + body_text(t, inner@));
                }
                i = i + 1;
            }
            proof {
                assert(b.take(i as int) =~= b);
            }
        },
        Instruction::SetCell { amount, offset } => {
            out.append("SetCell { amount: ");
            append_decimal(out, *amount as i128);
            out.append(", offset: ");
            append_decimal(out, *offset as i128);
            out.append(" }");
        },
        Instruction::MultiplyMove(m) => {
            out.append("MultiplyMove({");
            let es = entries_in_order(m);
            let mut i: usize = 0;
            while i < es.len()
                invariant
                    i <= es@.len(),
                    out@ == start + indent@ + "MultiplyMove({"@ + entries_text(es@.take(i as int)),
                decreases es@.len() - i,
            {
                let ghost before = out@;
                if i > 0 {
                    out.append(", ");
                }
                append_decimal(out, es[i].0 as i128);
                out.append(": ");
                append_decimal(out, es[i].1 as i128);
                proof {
                    let t = es@.take(i + 1);
                    assert(t.drop_last() =~= es@.take(i as int));
                    assert(t.last() == es@[i as int]);
                    if i == 0 {
                        assert(es@.take(0) =~= Seq::<(isize, i8)>::empty());
                    }
                    assert(out@ =~= start + indent@ + "MultiplyMove({"@ + entries_text(t));
                }
                i = i + 1;
            }
            out.append("})");
            proof {
                assert(es@.take(i as int) =~= es@);
                lemma_lists_map_unique(es@, sorted_entries(m@), m@);
            }
        },
    }
    assert(out@ =~= start + op_text(op_of(*instr), indent@));
}

impl Instruction {
    /// The display text of this instruction: one instruction per line, loop
    /// bodies indented by two spaces for each level of nesting.
    pub fn to_string(&self) -> (r: String)
        ensures
            r@ == op_text(op_of(*self), Seq::empty()),
    {
        let mut out = String::new();
        fmt_with_indent(self, "", &mut out);
        proof {
            reveal_strlit("");
        }
        out
    }
}

} // verus!
